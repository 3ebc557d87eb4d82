//! The command line of the tool, as plain values, and the choices it makes:
//! which extensions to read and which paths to look at.

use vstd::prelude::*;
use crate::path::{copy_string, path_view};

verus! {

broadcast use vstd::string::group_string_axioms;

/// The command-line arguments: the paths to analyze (none means the current
/// directory), the reading speed in words per minute, the extensions that
/// replace the defaults, the extensions added to the defaults, a config file
/// and whether to print what is done.
#[derive(Debug)]
pub struct Cli {
    pub paths: Vec<String>,
    pub wpm: usize,
    pub extensions: Option<Vec<String>>,
    pub add_extensions: Option<Vec<String>>,
    pub config: Option<String>,
    pub verbose: bool,
}

/// The extensions read when none are chosen: `md`, `txt`, `rst`, `adoc` and
/// `org`.
pub open spec fn default_extensions_spec() -> Seq<Seq<char>> {
    seq![
        seq!['m', 'd'],
        seq!['t', 'x', 't'],
        seq!['r', 's', 't'],
        seq!['a', 'd', 'o', 'c'],
        seq!['o', 'r', 'g'],
    ]
}

/// The extensions read when none are chosen.
pub fn default_extensions() -> (r: Vec<String>)
    ensures
        path_view(r@) == default_extensions_spec(),
{
    let mut r: Vec<String> = Vec::new();
    r.push(String::from_str("md"));
    r.push(String::from_str("txt"));
    r.push(String::from_str("rst"));
    r.push(String::from_str("adoc"));
    r.push(String::from_str("org"));
    proof {
        reveal_strlit("md");
        reveal_strlit("txt");
        reveal_strlit("rst");
        reveal_strlit("adoc");
        reveal_strlit("org");
        assert(r@[0]@ =~= seq!['m', 'd']);
        assert(r@[1]@ =~= seq!['t', 'x', 't']);
        assert(r@[2]@ =~= seq!['r', 's', 't']);
        assert(r@[3]@ =~= seq!['a', 'd', 'o', 'c']);
        assert(r@[4]@ =~= seq!['o', 'r', 'g']);
    }
    assert(path_view(r@) =~= default_extensions_spec());
    r
}

/// A copy of a list of strings.
pub fn copy_strings(v: &Vec<String>) -> (r: Vec<String>)
    ensures
        path_view(r@) == path_view(v@),
{
    let mut r: Vec<String> = Vec::new();
    let mut i: usize = 0;
    while i < v.len()
        invariant
            i <= v.len(),
            r.len() == i,
            forall|j: int| 0 <= j < i ==> #[trigger] r@[j]@ == v@[j]@,
        decreases v.len() - i,
    {
        r.push(copy_string(&v[i]));
        i = i + 1;
    }
    assert(path_view(r@) =~= path_view(v@));
    r
}

impl Cli {
    /// The extensions chosen by the command line from the configured
    /// `defaults`.
    pub open spec fn chosen_extensions(&self, defaults: Seq<Seq<char>>) -> Seq<Seq<char>> {
        match self.extensions {
            Some(e) => path_view(e@),
            None => match self.add_extensions {
                Some(a) => defaults + path_view(a@),
                None => defaults,
            },
        }
    }

    /// The extensions to read: those given with `--extensions`, which replace
    /// the defaults; else the defaults followed by those given with
    /// `--add-extensions`; else the defaults.
    pub fn extensions_to_use(&self, defaults: &Vec<String>) -> (r: Vec<String>)
        ensures
            path_view(r@) == self.chosen_extensions(path_view(defaults@)),
    {
        match &self.extensions {
            Some(e) => copy_strings(e),
            None => match &self.add_extensions {
                Some(a) => {
                    let mut r = copy_strings(defaults);
                    let extra = copy_strings(a);
                    let mut extra = extra;
                    r.append(&mut extra);
                    assert(path_view(r@) =~= path_view(defaults@) + path_view(a@));
                    r
                },
                None => copy_strings(defaults),
            },
        }
    }

    /// The paths to look at: those given, or the current directory `.` when
    /// none is.
    pub fn paths_to_process(&self) -> (r: Vec<String>)
        ensures
            self.paths.len() == 0 ==> path_view(r@) == seq![seq!['.']],
            self.paths.len() > 0 ==> path_view(r@) == path_view(self.paths@),
    {
        if self.paths.len() == 0 {
            let mut r: Vec<String> = Vec::new();
            r.push(String::from_str("."));
            proof {
                reveal_strlit(".");
                assert(r@[0]@ =~= seq!['.']);
            }
            assert(path_view(r@) =~= seq![seq!['.']]);
            r
        } else {
            copy_strings(&self.paths)
        }
    }
}

} // verus!
