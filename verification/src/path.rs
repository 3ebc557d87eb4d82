//! Paths as sequences of components, the way `std::path::Path::components`
//! yields them: `/` for the root directory, `.` for a leading current
//! directory, `..` for a parent directory, and otherwise a plain name.

use vstd::prelude::*;
use crate::counter::chars_of;

verus! {

broadcast use vstd::string::group_string_axioms;

/// The view of a path: the views of its components.
pub open spec fn path_view(p: Seq<String>) -> Seq<Seq<char>> {
    p.map_values(|c: String| c@)
}

/// A plain name, as opposed to the root, current or parent directory.
pub open spec fn is_normal(c: Seq<char>) -> bool {
    &&& c != seq!['/']
    &&& c != seq!['.']
    &&& c != seq!['.', '.']
}

/// The final component of a path, when it is a plain name.
pub open spec fn file_name(p: Seq<Seq<char>>) -> Option<Seq<char>> {
    if p.len() > 0 && is_normal(p.last()) {
        Some(p.last())
    } else {
        None
    }
}

/// The index of the last `c` in `s`, if there is one.
pub open spec fn last_index_of(s: Seq<char>, c: char) -> Option<nat>
    decreases s.len(),
{
    if s.len() == 0 {
        None
    } else if s.last() == c {
        Some((s.len() - 1) as nat)
    } else {
        last_index_of(s.drop_last(), c)
    }
}

/// The extension of a path: `None` when there is no file name, when the file
/// name holds no `.`, or when its only `.` is its first character; otherwise
/// what follows the final `.` of the file name.
pub open spec fn extension(p: Seq<Seq<char>>) -> Option<Seq<char>> {
    match file_name(p) {
        None => None,
        Some(name) => match last_index_of(name, '.') {
            None => None,
            Some(i) => if i == 0 {
                None
            } else {
                Some(name.skip(i + 1int))
            },
        },
    }
}

/// Whether `p` starts with all the components of `base`.
pub open spec fn starts_with(p: Seq<Seq<char>>, base: Seq<Seq<char>>) -> bool {
    base.len() <= p.len() && p.take(base.len() as int) == base
}

/// Whether `p` lies strictly below `base`: it starts with `base` and has at
/// least one component more.
pub open spec fn strictly_under(p: Seq<Seq<char>>, base: Seq<Seq<char>>) -> bool {
    base.len() < p.len() && p.take(base.len() as int) == base
}

/// A copy of a string, with the same characters.
pub fn copy_string(s: &String) -> (r: String)
    ensures
        r@ == s@,
{
    s.clone()
}

/// Whether two strings hold the same characters.
pub fn same_string(a: &String, b: &String) -> (r: bool)
    ensures
        r == (a@ == b@),
{
    *a == *b
}

/// Whether a component is a plain name.
pub fn component_is_normal(c: &String) -> (r: bool)
    ensures
        r == is_normal(c@),
{
    let cs = chars_of(c.as_str());
    if cs.len() == 1 && (cs[0] == '/' || cs[0] == '.') {
        assert(c@ =~= seq![cs[0]]);
        return false;
    }
    if cs.len() == 2 && cs[0] == '.' && cs[1] == '.' {
        assert(c@ =~= seq!['.', '.']);
        return false;
    }
    proof {
        if cs.len() == 1 {
            assert(c@ != seq!['.', '.']);
        }
        if cs.len() == 2 {
            assert(c@ != seq!['/']);
        }
    }
    true
}

/// The final component of a path when it is a plain name.
pub fn path_file_name(p: &Vec<String>) -> (r: Option<&String>)
    ensures
        match r {
            Some(name) => file_name(path_view(p@)) == Some(name@),
            None => file_name(path_view(p@)) is None,
        },
{
    if p.len() == 0 {
        return None;
    }
    let last = &p[p.len() - 1];
    if component_is_normal(last) {
        Some(last)
    } else {
        None
    }
}

/// The extension of a path, as `Path::extension` gives it.
pub fn path_extension(p: &Vec<String>) -> (r: Option<String>)
    ensures
        match r {
            Some(e) => extension(path_view(p@)) == Some(e@),
            None => extension(path_view(p@)) is None,
        },
{
    let name = match path_file_name(p) {
        Some(name) => name,
        None => return None,
    };
    let cs = chars_of(name.as_str());
    let mut k = cs.len();
    assert(cs@.take(k as int) =~= cs@);
    while k > 0 && cs[k - 1] != '.'
        invariant
            k <= cs.len(),
            last_index_of(cs@, '.') == last_index_of(cs@.take(k as int), '.'),
        decreases k,
    {
        assert(cs@.take(k as int).drop_last() =~= cs@.take(k - 1));
        k = k - 1;
    }
    if k == 0 {
        assert(cs@.take(0) =~= Seq::<char>::empty());
        return None;
    }
    assert(cs@.take(k as int).last() == cs@[k - 1]);
    if k == 1 {
        return None;
    }
    let e = String::from_str(name.as_str().substring_char(k, cs.len()));
    assert(e@ =~= name@.skip(k as int));
    Some(e)
}

} // verus!
