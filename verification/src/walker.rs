//! The files to read: what a file contributes, which files are chosen, and
//! the entries of a directory walk that are looked at.

use vstd::prelude::*;
use crate::counter::{chars_of, count_words, file_word_count};
use crate::estimator::{estimate_reading_time, minutes_for};
use crate::path::{copy_string, extension, path_extension, path_view, same_string, starts_with};
use crate::tree::files_view;

verus! {

/// Information about a processed file: its path, as components, and the
/// minutes it takes to read.
#[derive(Debug, Clone)]
pub struct FileInfo {
    pub path: Vec<String>,
    pub read_time_minutes: usize,
}

/// The model of a processed file.
pub struct FileEntry {
    pub path: Seq<Seq<char>>,
    pub minutes: nat,
}

impl View for FileInfo {
    type V = FileEntry;

    open spec fn view(&self) -> FileEntry {
        FileEntry { path: path_view(self.path@), minutes: self.read_time_minutes as nat }
    }
}

/// A copy of a path, component by component.
pub fn copy_path(p: &Vec<String>) -> (r: Vec<String>)
    ensures
        path_view(r@) == path_view(p@),
        r.len() == p.len(),
{
    let mut r: Vec<String> = Vec::new();
    let mut i: usize = 0;
    while i < p.len()
        invariant
            i <= p.len(),
            r.len() == i,
            forall|j: int| 0 <= j < i ==> #[trigger] r@[j]@ == p@[j]@,
        decreases p.len() - i,
    {
        r.push(copy_string(&p[i]));
        i = i + 1;
    }
    assert(path_view(r@) =~= path_view(p@));
    r
}

impl FileInfo {
    /// A copy of this file information.
    pub fn copy(&self) -> (r: FileInfo)
        ensures
            r@ == self@,
    {
        FileInfo { path: copy_path(&self.path), read_time_minutes: self.read_time_minutes }
    }
}

/// Whether a path is chosen for reading: it has an extension, and that
/// extension is one of `extensions`.
pub open spec fn extension_chosen(p: Seq<Seq<char>>, extensions: Seq<Seq<char>>) -> bool {
    match extension(p) {
        Some(e) => extensions.contains(e),
        None => false,
    }
}

/// Why a single file given by the user is not read.
#[derive(Debug, PartialEq, Eq)]
pub enum FileRejection {
    /// The file's extension is not among those chosen.
    UnsupportedExtension,
    /// The file has no extension.
    NoExtension,
}

/// Whether `extensions` holds `e`.
fn holds_extension(extensions: &Vec<String>, e: &String) -> (r: bool)
    ensures
        r == path_view(extensions@).contains(e@),
{
    let ghost v = path_view(extensions@);
    let mut i: usize = 0;
    while i < extensions.len()
        invariant
            i <= extensions.len(),
            v == path_view(extensions@),
            forall|j: int| 0 <= j < i ==> v[j] != e@,
        decreases extensions.len() - i,
    {
        if same_string(&extensions[i], e) {
            assert(v[i as int] == e@);
            return true;
        }
        i = i + 1;
    }
    false
}

/// Whether the file at `path` is chosen for reading by its extension.
pub fn has_chosen_extension(path: &Vec<String>, extensions: &Vec<String>) -> (r: bool)
    ensures
        r == extension_chosen(path_view(path@), path_view(extensions@)),
{
    match path_extension(path) {
        Some(e) => holds_extension(extensions, &e),
        None => false,
    }
}

/// Checks a single file given by the user: it is read when its extension is
/// among `extensions`; otherwise it is rejected for having another extension
/// or none.
pub fn check_single_file(path: &Vec<String>, extensions: &Vec<String>) -> (r: Result<(), FileRejection>)
    ensures
        match extension(path_view(path@)) {
            Some(e) => if path_view(extensions@).contains(e) {
                r is Ok
            } else {
                r == Err::<(), FileRejection>(FileRejection::UnsupportedExtension)
            },
            None => r == Err::<(), FileRejection>(FileRejection::NoExtension),
        },
{
    match path_extension(path) {
        Some(e) => {
            if holds_extension(extensions, &e) {
                Ok(())
            } else {
                Err(FileRejection::UnsupportedExtension)
            }
        },
        None => Err(FileRejection::NoExtension),
    }
}

/// Whether an entry of a directory walk is looked at: the root of the walk
/// always; below it, anything whose name does not start with `.`. A name
/// that is not valid UTF-8 is given as `None` and is looked at.
pub fn entry_is_visible(depth: usize, file_name: Option<&str>) -> (r: bool)
    ensures
        r == (depth == 0 || match file_name {
            Some(name) => !(name@.len() > 0 && name@[0] == '.'),
            None => true,
        }),
{
    if depth == 0 {
        return true;
    }
    match file_name {
        Some(name) => {
            let cs = chars_of(name);
            !(cs.len() > 0 && cs[0] == '.')
        },
        None => true,
    }
}

/// Why a file's reading time cannot be given.
#[derive(Debug, PartialEq, Eq)]
pub enum ProcessError {
    /// The file has words, and the reading speed is zero words per minute.
    ZeroWordsPerMinute,
}

/// Process a single file with text `content` and calculate its reading time
/// at `words_per_minute`. A file without words takes no time at any speed;
/// one with words cannot be read at zero words per minute.
pub fn process_file(path: &Vec<String>, content: &str, words_per_minute: usize) -> (r: Result<
    FileInfo,
    ProcessError,
>)
    ensures
        match r {
            Ok(info) => {
                &&& file_word_count(path_view(path@), content@) == 0 || words_per_minute > 0
                &&& info@.path == path_view(path@)
                &&& info@.minutes == minutes_for(
                    file_word_count(path_view(path@), content@),
                    words_per_minute as nat,
                )
            },
            Err(e) => {
                &&& e == ProcessError::ZeroWordsPerMinute
                &&& file_word_count(path_view(path@), content@) > 0
                &&& words_per_minute == 0
            },
        },
{
    let word_count = count_words(path, content);
    if word_count > 0 && words_per_minute == 0 {
        return Err(ProcessError::ZeroWordsPerMinute);
    }
    let read_time_minutes = estimate_reading_time(word_count, words_per_minute);
    Ok(FileInfo { path: copy_path(path), read_time_minutes })
}

/// The files of `files` whose path starts with `base`, in order.
pub open spec fn files_starting_with(files: Seq<FileEntry>, base: Seq<Seq<char>>) -> Seq<FileEntry>
    decreases files.len(),
{
    if files.len() == 0 {
        Seq::empty()
    } else {
        let r = files_starting_with(files.drop_last(), base);
        if starts_with(files.last().path, base) {
            r.push(files.last())
        } else {
            r
        }
    }
}

/// Whether path `p` starts with the components of `base`.
pub fn path_starts_with(p: &Vec<String>, base: &Vec<String>) -> (r: bool)
    ensures
        r == starts_with(path_view(p@), path_view(base@)),
{
    if base.len() > p.len() {
        return false;
    }
    let mut i: usize = 0;
    while i < base.len()
        invariant
            i <= base.len() <= p.len(),
            forall|j: int| 0 <= j < i ==> p@[j]@ == base@[j]@,
        decreases base.len() - i,
    {
        if !same_string(&p[i], &base[i]) {
            assert(path_view(p@).take(base.len() as int)[i as int] != path_view(base@)[i as int]);
            return false;
        }
        i = i + 1;
    }
    assert(path_view(p@).take(base.len() as int) =~= path_view(base@));
    true
}

/// The files whose path starts with `base`, in order.
pub fn files_under(files: &[FileInfo], base: &Vec<String>) -> (r: Vec<FileInfo>)
    ensures
        files_view(r@) == files_starting_with(files_view(files@), path_view(base@)),
{
    let ghost fv = files_view(files@);
    let mut r: Vec<FileInfo> = Vec::new();
    let mut i: usize = 0;
    while i < files.len()
        invariant
            i <= files.len(),
            fv == files_view(files@),
            files_view(r@) == files_starting_with(fv.take(i as int), path_view(base@)),
        decreases files.len() - i,
    {
        assert(fv.take(i + 1).drop_last() =~= fv.take(i as int));
        assert(fv.take(i + 1).last() == files@[i as int]@);
        if path_starts_with(&files[i].path, base) {
            let ghost old_r = r@;
            r.push(files[i].copy());
            assert(files_view(r@) =~= files_view(old_r).push(files@[i as int]@));
        }
        i = i + 1;
    }
    assert(fv.take(files.len() as int) =~= fv);
    r
}

/// A tree to show: the position of its path among the paths asked for, and
/// the files it is built from.
pub struct TreeJob {
    pub path_index: usize,
    pub files: Vec<FileInfo>,
}

/// The trees to show for the files found under `paths`: for a single path,
/// one tree of all the files; for several, one tree per path of the files
/// under it, in the order of the paths, leaving out a path with none.
pub open spec fn jobs_spec(files: Seq<FileEntry>, paths: Seq<Seq<Seq<char>>>) -> Seq<(nat, Seq<FileEntry>)> {
    if paths.len() == 1 {
        seq![(0nat, files)]
    } else {
        jobs_from(files, paths)
    }
}

/// One tree per path of `paths` that has files under it, in order.
pub open spec fn jobs_from(files: Seq<FileEntry>, paths: Seq<Seq<Seq<char>>>) -> Seq<(nat, Seq<FileEntry>)>
    decreases paths.len(),
{
    if paths.len() == 0 {
        Seq::empty()
    } else {
        let r = jobs_from(files, paths.drop_last());
        let g = files_starting_with(files, paths.last());
        if g.len() > 0 {
            r.push(((paths.len() - 1) as nat, g))
        } else {
            r
        }
    }
}

/// The model of a list of trees to show.
pub open spec fn jobs_view(jobs: Seq<TreeJob>) -> Seq<(nat, Seq<FileEntry>)> {
    jobs.map_values(|j: TreeJob| (j.path_index as nat, files_view(j.files@)))
}

/// The trees to show for the files `files` found under `paths`.
pub fn tree_jobs(files: &[FileInfo], paths: &Vec<Vec<String>>) -> (jobs: Vec<TreeJob>)
    ensures
        jobs_view(jobs@) == jobs_spec(files_view(files@), crate::tree::paths_view(paths@)),
{
    let ghost fv = files_view(files@);
    let ghost pv = crate::tree::paths_view(paths@);
    let mut jobs: Vec<TreeJob> = Vec::new();
    if paths.len() == 1 {
        let mut all: Vec<FileInfo> = Vec::new();
        let mut i: usize = 0;
        while i < files.len()
            invariant
                i <= files.len(),
                fv == files_view(files@),
                files_view(all@) == fv.take(i as int),
            decreases files.len() - i,
        {
            let ghost old_all = all@;
            all.push(files[i].copy());
            assert(files_view(all@) =~= files_view(old_all).push(fv[i as int]));
            assert(fv.take(i + 1) =~= fv.take(i as int).push(fv[i as int]));
            i = i + 1;
        }
        assert(fv.take(files.len() as int) =~= fv);
        jobs.push(TreeJob { path_index: 0, files: all });
        assert(jobs_view(jobs@) =~= seq![(0nat, fv)]);
        return jobs;
    }
    let mut i: usize = 0;
    while i < paths.len()
        invariant
            i <= paths.len(),
            fv == files_view(files@),
            pv == crate::tree::paths_view(paths@),
            jobs_view(jobs@) == jobs_from(fv, pv.take(i as int)),
        decreases paths.len() - i,
    {
        assert(pv.take(i + 1).drop_last() =~= pv.take(i as int));
        assert(pv.take(i + 1).last() == path_view(paths@[i as int]@));
        let g = files_under(files, &paths[i]);
        if g.len() > 0 {
            let ghost old_jobs = jobs@;
            jobs.push(TreeJob { path_index: i, files: g });
            assert(jobs_view(jobs@) =~= jobs_view(old_jobs).push((i as nat, files_view(g@))));
        } else {
            assert(files_view(g@).len() == 0);
        }
        i = i + 1;
    }
    assert(pv.take(paths.len() as int) =~= pv);
    jobs
}

/// The files of a path's tree are exactly the files whose path starts with
/// it, the file at that very path included.
pub proof fn lemma_files_starting_with_members(files: Seq<FileEntry>, base: Seq<Seq<char>>)
    ensures
        forall|f: FileEntry|
            #[trigger] files_starting_with(files, base).contains(f) <==> (files.contains(f) && starts_with(
                f.path,
                base,
            )),
        forall|f: FileEntry| files.contains(f) && f.path == base ==> #[trigger] files_starting_with(
            files,
            base,
        ).contains(f),
    decreases files.len(),
{
    if files.len() > 0 {
        let fl = files.drop_last();
        let x = files.last();
        lemma_files_starting_with_members(fl, base);
        let r = files_starting_with(fl, base);
        assert forall|f: FileEntry| files.contains(f) <==> (fl.contains(f) || f == x) by {
            if files.contains(f) {
                let t = choose|t: int| 0 <= t < files.len() && files[t] == f;
                if t < files.len() - 1 {
                    assert(fl[t] == f);
                }
            }
            if fl.contains(f) {
                let t = choose|t: int| 0 <= t < fl.len() && fl[t] == f;
                assert(files[t] == f);
            }
            if f == x {
                assert(files[files.len() - 1] == f);
            }
        }
        if starts_with(x.path, base) {
            let rr = r.push(x);
            assert forall|f: FileEntry| rr.contains(f) <==> (r.contains(f) || f == x) by {
                if rr.contains(f) {
                    let t = choose|t: int| 0 <= t < rr.len() && rr[t] == f;
                    if t < r.len() {
                        assert(r[t] == f);
                    }
                }
                if r.contains(f) {
                    let t = choose|t: int| 0 <= t < r.len() && r[t] == f;
                    assert(rr[t] == f);
                }
                if f == x {
                    assert(rr[r.len() as int] == f);
                }
            }
        }
    }
    assert forall|f: FileEntry| files.contains(f) && f.path == base implies #[trigger] files_starting_with(
        files,
        base,
    ).contains(f) by {
        assert(f.path.take(base.len() as int) =~= base);
    }
}

} // verus!
