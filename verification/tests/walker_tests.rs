use readtime::cli::{default_extensions, Cli};
use readtime::path::path_extension;
use readtime::walker::{
    check_single_file, entry_is_visible, files_under, has_chosen_extension, process_file,
    tree_jobs, FileInfo, FileRejection, ProcessError,
};

fn path(parts: &[&str]) -> Vec<String> {
    parts.iter().map(|p| p.to_string()).collect()
}

fn strings(items: &[&str]) -> Vec<String> {
    items.iter().map(|p| p.to_string()).collect()
}

#[test]
fn process_file_counts_and_estimates() {
    let info = process_file(&path(&["tmp", "test.txt"]), "Hello world this is a test\n", 200).unwrap();
    assert_eq!(info.path, path(&["tmp", "test.txt"]));
    assert_eq!(info.read_time_minutes, 1);
    let info = process_file(&path(&["tmp", "empty.md"]), "", 0).unwrap();
    assert_eq!(info.read_time_minutes, 0);
    let text = "word ".repeat(401);
    let info = process_file(&path(&["notes.md"]), &text, 200).unwrap();
    assert_eq!(info.read_time_minutes, 3);
}

#[test]
fn process_file_refuses_zero_speed_for_words() {
    let r = process_file(&path(&["tmp", "test.txt"]), "some words here", 0);
    assert_eq!(r.unwrap_err(), ProcessError::ZeroWordsPerMinute);
    let r = process_file(&path(&["tmp", "blank.txt"]), "  \n\t ", 0);
    assert_eq!(r.unwrap().read_time_minutes, 0);
}

#[test]
fn tree_jobs_one_path_takes_all_files() {
    let files = vec![
        FileInfo { path: path(&["docs", "a.md"]), read_time_minutes: 1 },
        FileInfo { path: path(&["other", "b.md"]), read_time_minutes: 2 },
    ];
    let jobs = tree_jobs(&files, &vec![path(&["docs"])]);
    assert_eq!(jobs.len(), 1);
    assert_eq!(jobs[0].path_index, 0);
    assert_eq!(jobs[0].files.len(), 2);
}

#[test]
fn tree_jobs_several_paths_split_and_skip_empty() {
    let files = vec![
        FileInfo { path: path(&["docs", "a.md"]), read_time_minutes: 1 },
        FileInfo { path: path(&["notes", "b.md"]), read_time_minutes: 2 },
        FileInfo { path: path(&["docs", "c.md"]), read_time_minutes: 3 },
    ];
    let jobs = tree_jobs(&files, &vec![path(&["docs"]), path(&["empty"]), path(&["notes"])]);
    assert_eq!(jobs.len(), 2);
    assert_eq!(jobs[0].path_index, 0);
    let minutes: Vec<usize> = jobs[0].files.iter().map(|f| f.read_time_minutes).collect();
    assert_eq!(minutes, vec![1, 3]);
    assert_eq!(jobs[1].path_index, 2);
    assert_eq!(jobs[1].files.len(), 1);
    assert_eq!(jobs[1].files[0].path, path(&["notes", "b.md"]));
}

#[test]
fn extensions_as_path_gives_them() {
    assert_eq!(path_extension(&path(&["a", "b.txt"])), Some("txt".to_string()));
    assert_eq!(path_extension(&path(&["a.b.c"])), Some("c".to_string()));
    assert_eq!(path_extension(&path(&["foo."])), Some("".to_string()));
    assert_eq!(path_extension(&path(&[".bashrc"])), None);
    assert_eq!(path_extension(&path(&[".a.md"])), Some("md".to_string()));
    assert_eq!(path_extension(&path(&["README"])), None);
    assert_eq!(path_extension(&path(&["a", ".."])), None);
    assert_eq!(path_extension(&path(&["/"])), None);
    assert_eq!(path_extension(&path(&[])), None);
}

#[test]
fn chosen_extensions() {
    let exts = strings(&["md", "txt"]);
    assert!(has_chosen_extension(&path(&["d", "a.md"]), &exts));
    assert!(has_chosen_extension(&path(&["d", "a.txt"]), &exts));
    assert!(!has_chosen_extension(&path(&["d", "ignored.rs"]), &exts));
    assert!(!has_chosen_extension(&path(&["d", "Makefile"]), &exts));
    assert!(!has_chosen_extension(&path(&["d", "a.MD"]), &exts));
}

#[test]
fn single_file_checks() {
    let exts = strings(&["txt"]);
    assert_eq!(check_single_file(&path(&["test.txt"]), &exts), Ok(()));
    assert_eq!(
        check_single_file(&path(&["test.md"]), &exts),
        Err(FileRejection::UnsupportedExtension)
    );
    assert_eq!(check_single_file(&path(&["test"]), &exts), Err(FileRejection::NoExtension));
}

#[test]
fn hidden_entries_are_skipped_below_the_root() {
    assert!(entry_is_visible(0, Some(".hidden")));
    assert!(!entry_is_visible(1, Some(".git")));
    assert!(entry_is_visible(2, Some("notes.md")));
    assert!(entry_is_visible(1, None));
    assert!(entry_is_visible(1, Some("")));
}

#[test]
fn files_under_a_path() {
    let files = vec![
        FileInfo { path: path(&["a", "x.md"]), read_time_minutes: 1 },
        FileInfo { path: path(&["b", "y.md"]), read_time_minutes: 2 },
        FileInfo { path: path(&["a", "z.md"]), read_time_minutes: 3 },
        FileInfo { path: path(&["ab", "w.md"]), read_time_minutes: 4 },
    ];
    let under = files_under(&files, &path(&["a"]));
    assert_eq!(under.len(), 2);
    assert_eq!(under[0].read_time_minutes, 1);
    assert_eq!(under[1].read_time_minutes, 3);
    assert_eq!(files_under(&files, &path(&[])).len(), 4);
}

fn cli(extensions: Option<&[&str]>, add: Option<&[&str]>, paths: &[&str]) -> Cli {
    Cli {
        paths: strings(paths),
        wpm: 200,
        extensions: extensions.map(strings),
        add_extensions: add.map(strings),
        config: None,
        verbose: false,
    }
}

#[test]
fn extension_choice_of_the_command_line() {
    let defaults = default_extensions();
    assert_eq!(defaults, strings(&["md", "txt", "rst", "adoc", "org"]));
    assert_eq!(cli(Some(&["tex"]), Some(&["x"]), &[]).extensions_to_use(&defaults), strings(&["tex"]));
    assert_eq!(
        cli(None, Some(&["tex", "latex"]), &[]).extensions_to_use(&defaults),
        strings(&["md", "txt", "rst", "adoc", "org", "tex", "latex"])
    );
    assert_eq!(cli(None, None, &[]).extensions_to_use(&defaults), defaults);
}

#[test]
fn paths_default_to_the_current_directory() {
    assert_eq!(cli(None, None, &[]).paths_to_process(), strings(&["."]));
    assert_eq!(cli(None, None, &["docs", "a.md"]).paths_to_process(), strings(&["docs", "a.md"]));
}
