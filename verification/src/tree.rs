//! The tree of files and directories, with the reading time of each file and
//! the rolled-up total of each directory, and its rendering as text.

use vstd::prelude::*;
use crate::counter::chars_of;
use crate::path::{file_name, path_file_name, starts_with, path_view, strictly_under, same_string, copy_string};
use crate::walker::{FileEntry, FileInfo, copy_path};

verus! {

broadcast use vstd::string::group_string_axioms;

/// A node in the file tree.
#[derive(Debug)]
pub enum Node {
    File { name: String, read_time_minutes: usize },
    Directory { name: String, children: Vec<Node>, total_read_time_minutes: usize },
}

/// The model of a node.
pub enum TreeModel {
    File { name: Seq<char>, minutes: nat },
    Directory { name: Seq<char>, children: Seq<TreeModel>, total: nat },
}

impl TreeModel {
    pub open spec fn name(self) -> Seq<char> {
        match self {
            TreeModel::File { name, .. } => name,
            TreeModel::Directory { name, .. } => name,
        }
    }

    pub open spec fn minutes(self) -> nat {
        match self {
            TreeModel::File { minutes, .. } => minutes,
            TreeModel::Directory { total, .. } => total,
        }
    }

    pub open spec fn is_dir(self) -> bool {
        self is Directory
    }
}

/// The model of a node.
pub open spec fn node_view(n: Node) -> TreeModel
    decreases n,
{
    match n {
        Node::File { name, read_time_minutes } => TreeModel::File {
            name: name@,
            minutes: read_time_minutes as nat,
        },
        Node::Directory { name, children, total_read_time_minutes } => TreeModel::Directory {
            name: name@,
            children: nodes_view(children@),
            total: total_read_time_minutes as nat,
        },
    }
}

/// The models of a sequence of nodes.
pub open spec fn nodes_view(s: Seq<Node>) -> Seq<TreeModel>
    decreases s,
{
    if s.len() == 0 {
        Seq::empty()
    } else {
        nodes_view(s.drop_last()).push(node_view(s.last()))
    }
}

impl View for Node {
    type V = TreeModel;

    open spec fn view(&self) -> TreeModel {
        node_view(*self)
    }
}

pub proof fn lemma_nodes_view(s: Seq<Node>)
    ensures
        nodes_view(s).len() == s.len(),
        forall|i: int| 0 <= i < s.len() ==> #[trigger] nodes_view(s)[i] == node_view(s[i]),
    decreases s.len(),
{
    if s.len() > 0 {
        lemma_nodes_view(s.drop_last());
    }
}

impl Node {
    pub fn name(&self) -> (r: &str)
        ensures
            r@ == self@.name(),
    {
        match self {
            Node::File { name, .. } => name.as_str(),
            Node::Directory { name, .. } => name.as_str(),
        }
    }

    pub fn read_time(&self) -> (r: usize)
        ensures
            r == self@.minutes(),
    {
        match self {
            Node::File { read_time_minutes, .. } => *read_time_minutes,
            Node::Directory { total_read_time_minutes, .. } => *total_read_time_minutes,
        }
    }

    pub fn is_directory(&self) -> (r: bool)
        ensures
            r == self@.is_dir(),
    {
        match self {
            Node::File { .. } => false,
            Node::Directory { .. } => true,
        }
    }
}

// ---------------------------------------------------------------------------
// The order of children
// ---------------------------------------------------------------------------

/// Lexicographic order of texts by code point, which is the order in which
/// `str` compares its UTF-8 bytes.
pub open spec fn text_lt(a: Seq<char>, b: Seq<char>) -> bool
    decreases a.len(),
{
    if a.len() == 0 {
        b.len() > 0
    } else if b.len() == 0 {
        false
    } else if a[0] != b[0] {
        (a[0] as u32) < (b[0] as u32)
    } else {
        text_lt(a.drop_first(), b.drop_first())
    }
}

/// The place of a component in the order of `std::path::Component`: the root
/// directory, then the current directory, then the parent, then names.
pub open spec fn component_rank(c: Seq<char>) -> nat {
    if c == seq!['/'] {
        0
    } else if c == seq!['.'] {
        1
    } else if c == seq!['.', '.'] {
        2
    } else {
        3
    }
}

/// The order of components, in which paths that share a prefix are ordered.
pub open spec fn component_lt(a: Seq<char>, b: Seq<char>) -> bool {
    ||| component_rank(a) < component_rank(b)
    ||| (component_rank(a) == 3 && component_rank(b) == 3 && text_lt(a, b))
}

/// The order of the children of a directory, each with the component of its
/// path: directories before files, then by name, then by path.
pub open spec fn child_before(x: (TreeModel, Seq<char>), y: (TreeModel, Seq<char>)) -> bool {
    if x.0.is_dir() != y.0.is_dir() {
        x.0.is_dir()
    } else if x.0.name() != y.0.name() {
        text_lt(x.0.name(), y.0.name())
    } else {
        component_lt(x.1, y.1)
    }
}

/// `x` inserted into `s` before the first element that it comes before.
pub open spec fn insert_child(x: (TreeModel, Seq<char>), s: Seq<(TreeModel, Seq<char>)>) -> Seq<
    (TreeModel, Seq<char>),
>
    decreases s.len(),
{
    if s.len() == 0 {
        seq![x]
    } else if child_before(x, s[0]) {
        seq![x] + s
    } else {
        seq![s[0]] + insert_child(x, s.drop_first())
    }
}

/// The children `s` put in order.
pub open spec fn sort_children(s: Seq<(TreeModel, Seq<char>)>) -> Seq<(TreeModel, Seq<char>)>
    decreases s.len(),
{
    if s.len() == 0 {
        s
    } else {
        insert_child(s.last(), sort_children(s.drop_last()))
    }
}

pub proof fn lemma_insert_child_at(
    x: (TreeModel, Seq<char>),
    s: Seq<(TreeModel, Seq<char>)>,
    p: int,
)
    requires
        0 <= p <= s.len(),
        forall|q: int| 0 <= q < p ==> !child_before(x, #[trigger] s[q]),
        p < s.len() ==> child_before(x, s[p]),
    ensures
        insert_child(x, s) == s.insert(p, x),
    decreases s.len(),
{
    if s.len() == 0 {
        assert(s.insert(p, x) =~= seq![x]);
    } else if p == 0 {
        assert(s.insert(p, x) =~= seq![x] + s);
    } else {
        let t = s.drop_first();
        assert forall|q: int| 0 <= q < p - 1 implies !child_before(x, #[trigger] t[q]) by {
            assert(t[q] == s[q + 1]);
        }
        lemma_insert_child_at(x, t, p - 1);
        assert(s.insert(p, x) =~= seq![s[0]] + t.insert(p - 1, x));
    }
}

/// Whether `a` comes before `b` in the order of texts.
pub fn text_less(a: &str, b: &str) -> (r: bool)
    ensures
        r == text_lt(a@, b@),
{
    let x = chars_of(a);
    let y = chars_of(b);
    let mut i: usize = 0;
    assert(x@.skip(0) =~= x@);
    assert(y@.skip(0) =~= y@);
    while i < x.len() && i < y.len() && x[i] == y[i]
        invariant
            i <= x.len(),
            i <= y.len(),
            text_lt(x@, y@) == text_lt(x@.skip(i as int), y@.skip(i as int)),
        decreases x.len() - i,
    {
        assert(x@.skip(i as int).drop_first() =~= x@.skip(i + 1));
        assert(y@.skip(i as int).drop_first() =~= y@.skip(i + 1));
        i = i + 1;
    }
    if i == x.len() {
        i < y.len()
    } else if i == y.len() {
        false
    } else {
        assert(x@.skip(i as int)[0] == x@[i as int]);
        assert(y@.skip(i as int)[0] == y@[i as int]);
        (x[i] as u32) < (y[i] as u32)
    }
}

/// Whether two texts are equal.
pub fn text_equal(a: &str, b: &str) -> (r: bool)
    ensures
        r == (a@ == b@),
{
    let x = chars_of(a);
    let y = chars_of(b);
    if x.len() != y.len() {
        return false;
    }
    let mut i: usize = 0;
    while i < x.len()
        invariant
            i <= x.len(),
            x.len() == y.len(),
            x@ == a@,
            y@ == b@,
            forall|j: int| 0 <= j < i ==> x@[j] == y@[j],
        decreases x.len() - i,
    {
        if x[i] != y[i] {
            assert(a@[i as int] != b@[i as int]);
            return false;
        }
        i = i + 1;
    }
    assert(x@ =~= y@);
    true
}

/// The place of a component in the order of components.
fn component_place(c: &String) -> (r: u8)
    ensures
        r == component_rank(c@),
{
    let cs = chars_of(c.as_str());
    if cs.len() == 1 && cs[0] == '/' {
        assert(c@ =~= seq!['/']);
        0
    } else if cs.len() == 1 && cs[0] == '.' {
        assert(c@ =~= seq!['.']);
        assert(c@ != seq!['/']);
        1
    } else if cs.len() == 2 && cs[0] == '.' && cs[1] == '.' {
        assert(c@ =~= seq!['.', '.']);
        assert(c@.len() != 1);
        2
    } else {
        proof {
            if cs.len() == 1 {
                assert(c@[0] == cs@[0]);
                assert(c@ != seq!['/'] && c@ != seq!['.']);
            }
            if cs.len() == 2 {
                assert(c@ != seq!['.', '.']) by {
                    if c@ == seq!['.', '.'] {
                        assert(cs@[0] == '.' && cs@[1] == '.');
                    }
                }
            }
        }
        3
    }
}

/// Whether component `a` comes before component `b`.
pub fn component_less(a: &String, b: &String) -> (r: bool)
    ensures
        r == component_lt(a@, b@),
{
    let ra = component_place(a);
    let rb = component_place(b);
    ra < rb || (ra == 3 && rb == 3 && text_less(a.as_str(), b.as_str()))
}

/// Whether the child `x` with component `xc` comes before the child `y` with
/// component `yc`.
pub fn child_less(x: &Node, xc: &String, y: &Node, yc: &String) -> (r: bool)
    ensures
        r == child_before((x@, xc@), (y@, yc@)),
{
    let xd = x.is_directory();
    let yd = y.is_directory();
    if xd != yd {
        xd
    } else if !text_equal(x.name(), y.name()) {
        text_less(x.name(), y.name())
    } else {
        component_less(xc, yc)
    }
}

/// The children in `nodes`, each with its component in `comps`.
pub open spec fn pairs_view(nodes: Seq<Node>, comps: Seq<String>) -> Seq<(TreeModel, Seq<char>)> {
    Seq::new(nodes.len(), |i: int| (node_view(nodes[i]), comps[i]@))
}

/// Inserts the child `x` with component `xc` into the ordered children.
fn insert_in_order(nodes: &mut Vec<Node>, comps: &mut Vec<String>, x: Node, xc: String)
    requires
        old(nodes).len() == old(comps).len(),
    ensures
        final(nodes).len() == final(comps).len(),
        final(nodes).len() == old(nodes).len() + 1,
        pairs_view(final(nodes)@, final(comps)@) == insert_child(
            (x@, xc@),
            pairs_view(old(nodes)@, old(comps)@),
        ),
{
    let ghost before = pairs_view(nodes@, comps@);
    let mut p: usize = 0;
    while p < nodes.len() && !child_less(&x, &xc, &nodes[p], &comps[p])
        invariant
            nodes@ == old(nodes)@,
            comps@ == old(comps)@,
            nodes.len() == comps.len(),
            p <= nodes.len(),
            before == pairs_view(nodes@, comps@),
            forall|q: int| 0 <= q < p ==> !child_before((x@, xc@), #[trigger] before[q]),
        decreases nodes.len() - p,
    {
        p = p + 1;
    }
    proof {
        lemma_insert_child_at((x@, xc@), before, p as int);
    }
    let ghost xv = (x@, xc@);
    nodes.insert(p, x);
    comps.insert(p, xc);
    assert(pairs_view(nodes@, comps@) =~= before.insert(p as int, xv));
}

// ---------------------------------------------------------------------------
// The tree of a list of files
// ---------------------------------------------------------------------------

/// The name of the node for a file at `p`: its file name, or `unknown`.
pub open spec fn file_node_name(p: Seq<Seq<char>>) -> Seq<char> {
    match file_name(p) {
        Some(n) => n,
        None => seq!['u', 'n', 'k', 'n', 'o', 'w', 'n'],
    }
}

/// The name of the node for a directory at `p`: its file name, or `.`.
pub open spec fn dir_node_name(p: Seq<Seq<char>>) -> Seq<char> {
    match file_name(p) {
        Some(n) => n,
        None => seq!['.'],
    }
}

/// The components right below `base` of the files strictly under it, each
/// once, in the order in which they first occur.
pub open spec fn child_keys(files: Seq<FileEntry>, base: Seq<Seq<char>>) -> Seq<Seq<char>>
    decreases files.len(),
{
    if files.len() == 0 {
        Seq::empty()
    } else {
        let ks = child_keys(files.drop_last(), base);
        let f = files.last();
        if strictly_under(f.path, base) && !ks.contains(f.path[base.len() as int]) {
            ks.push(f.path[base.len() as int])
        } else {
            ks
        }
    }
}

/// The files strictly under `base` whose component right below it is `c`,
/// in order.
pub open spec fn child_group(files: Seq<FileEntry>, base: Seq<Seq<char>>, c: Seq<char>) -> Seq<
    FileEntry,
>
    decreases files.len(),
{
    if files.len() == 0 {
        Seq::empty()
    } else {
        let g = child_group(files.drop_last(), base, c);
        let f = files.last();
        if strictly_under(f.path, base) && f.path[base.len() as int] == c {
            g.push(f)
        } else {
            g
        }
    }
}

/// The greatest number of components of the paths of `files`.
pub open spec fn max_path_len(files: Seq<FileEntry>) -> nat
    decreases files.len(),
{
    if files.len() == 0 {
        0
    } else {
        let m = max_path_len(files.drop_last());
        if files.last().path.len() > m {
            files.last().path.len()
        } else {
            m
        }
    }
}

/// How many levels the tree of `files` below `base` can still have.
pub open spec fn tree_measure(files: Seq<FileEntry>, base: Seq<Seq<char>>) -> nat {
    if max_path_len(files) > base.len() {
        (max_path_len(files) - base.len()) as nat
    } else {
        0
    }
}

/// The answers of the file system to the questions a build asks, by the
/// position of the question: the answer at `seq![i]` tells whether the
/// `i`-th child is a file; the answers at `seq![i] + q` are those of the
/// build below the `i`-th child.
pub open spec fn probe_below(probe: spec_fn(Seq<nat>) -> bool, i: nat) -> spec_fn(Seq<nat>) -> bool {
    |q: Seq<nat>| probe(seq![i] + q)
}

/// The path that the question at position `q` of a build of `files` below
/// `base` is about: `seq![i]` asks about the `i`-th child, `seq![i] + r`
/// asks, below the `i`-th child, what `r` asks there. Positions that name
/// no child ask about no path.
pub open spec fn probed_path(files: Seq<FileEntry>, base: Seq<Seq<char>>, q: Seq<nat>) -> Option<
    Seq<Seq<char>>,
>
    decreases q.len(),
{
    if q.len() == 0 {
        None
    } else if q[0] < child_keys(files, base).len() {
        let c = child_keys(files, base)[q[0] as int];
        if q.len() == 1 {
            Some(base.push(c))
        } else {
            probed_path(child_group(files, base, c), base.push(c), q.drop_first())
        }
    } else {
        None
    }
}

/// The answers of a file system in which the files are exactly the paths
/// `paths`.
pub open spec fn probe_from_paths(
    files: Seq<FileEntry>,
    base: Seq<Seq<char>>,
    paths: Seq<Seq<Seq<char>>>,
) -> spec_fn(Seq<nat>) -> bool {
    |q: Seq<nat>|
        match probed_path(files, base, q) {
            Some(k) => paths.contains(k),
            None => false,
        }
}

/// The tree of `files` below `base` when a child path `k` is a file exactly
/// when `paths` contains `k`.
pub open spec fn tree_spec_by_path(
    files: Seq<FileEntry>,
    base: Seq<Seq<char>>,
    paths: Seq<Seq<Seq<char>>>,
) -> TreeModel {
    tree_spec(files, base, probe_from_paths(files, base, paths))
}

/// The models of a list of paths.
pub open spec fn paths_view(v: Seq<Vec<String>>) -> Seq<Seq<Seq<char>>> {
    v.map_values(|p: Vec<String>| path_view(p@))
}

/// The `i`-th child is asked about its own path, and the questions below it
/// are those of the build of its group below that path.
pub proof fn lemma_probe_from_paths_child(
    files: Seq<FileEntry>,
    base: Seq<Seq<char>>,
    paths: Seq<Seq<Seq<char>>>,
    i: nat,
)
    requires
        i < child_keys(files, base).len(),
    ensures
        probe_from_paths(files, base, paths)(seq![i]) == paths.contains(
            base.push(child_keys(files, base)[i as int]),
        ),
        forall|q: Seq<nat>|
            q.len() > 0 ==> #[trigger] probe_below(probe_from_paths(files, base, paths), i)(q)
                == probe_from_paths(
                child_group(files, base, child_keys(files, base)[i as int]),
                base.push(child_keys(files, base)[i as int]),
                paths,
            )(q),
        tree_spec(
            child_group(files, base, child_keys(files, base)[i as int]),
            base.push(child_keys(files, base)[i as int]),
            probe_below(probe_from_paths(files, base, paths), i),
        ) == tree_spec_by_path(
            child_group(files, base, child_keys(files, base)[i as int]),
            base.push(child_keys(files, base)[i as int]),
            paths,
        ),
{
    let c = child_keys(files, base)[i as int];
    let k = base.push(c);
    let g = child_group(files, base, c);
    let p = probe_from_paths(files, base, paths);
    let q0: Seq<nat> = seq![i];
    assert(q0.len() == 1 && q0[0] == i);
    assert(probed_path(files, base, q0) == Some(k));
    assert forall|q: Seq<nat>| q.len() > 0 implies #[trigger] probe_below(p, i)(q)
        == probe_from_paths(g, k, paths)(q) by {
        let r: Seq<nat> = seq![i] + q;
        assert(r.len() > 1 && r[0] == i);
        assert(r.drop_first() =~= q);
        assert(probed_path(files, base, r) == probed_path(g, k, q));
    }
    lemma_tree_spec_frame(g, k, probe_below(p, i), probe_from_paths(g, k, paths));
}

/// The total of a sequence of children.
pub open spec fn children_total(s: Seq<(TreeModel, Seq<char>)>) -> nat
    decreases s.len(),
{
    if s.len() == 0 {
        0
    } else {
        children_total(s.drop_last()) + s.last().0.minutes()
    }
}

/// The children's nodes.
pub open spec fn child_nodes(s: Seq<(TreeModel, Seq<char>)>) -> Seq<TreeModel> {
    s.map_values(|p: (TreeModel, Seq<char>)| p.0)
}

/// The tree that the files `files` give below `base`, when the file system
/// answers the questions whether a path is a file with `probe`.
///
/// A single file at `base` itself is a file node. Otherwise `base` is a
/// directory node whose children are those of its components right below it:
/// a component whose path is a file is a file node with the reading time of
/// the first file listed there; any other is the tree of its files below it.
/// The children come directories first, then by name, and the directory's
/// total is the sum of their reading times.
pub open spec fn tree_spec(
    files: Seq<FileEntry>,
    base: Seq<Seq<char>>,
    probe: spec_fn(Seq<nat>) -> bool,
) -> TreeModel
    decreases tree_measure(files, base), 2 * child_keys(files, base).len() + 2,
{
    if files.len() == 1 && files[0].path == base {
        TreeModel::File { name: file_node_name(base), minutes: files[0].minutes }
    } else {
        let cs = sort_children(children_spec(files, base, probe, 0));
        TreeModel::Directory {
            name: dir_node_name(base),
            children: child_nodes(cs),
            total: children_total(cs),
        }
    }
}

/// The children of `base` from the `i`-th component on, in component order.
pub open spec fn children_spec(
    files: Seq<FileEntry>,
    base: Seq<Seq<char>>,
    probe: spec_fn(Seq<nat>) -> bool,
    i: nat,
) -> Seq<(TreeModel, Seq<char>)>
    decreases tree_measure(files, base), 2 * (child_keys(files, base).len() - i) + 1,
{
    if i < child_keys(files, base).len() {
        seq![child_entry(files, base, probe, i)] + children_spec(files, base, probe, i + 1)
    } else {
        Seq::empty()
    }
}

/// The child of `base` for its `i`-th component, with that component.
pub open spec fn child_entry(
    files: Seq<FileEntry>,
    base: Seq<Seq<char>>,
    probe: spec_fn(Seq<nat>) -> bool,
    i: nat,
) -> (TreeModel, Seq<char>)
    decreases tree_measure(files, base), 2 * (child_keys(files, base).len() - i),
{
    let keys = child_keys(files, base);
    if i < keys.len() {
        let c = keys[i as int];
        let k = base.push(c);
        let g = child_group(files, base, c);
        proof {
            lemma_child_measure(files, base, i);
        }
        if probe(seq![i]) {
            (TreeModel::File { name: file_node_name(k), minutes: g[0].minutes }, c)
        } else {
            (tree_spec(g, k, probe_below(probe, i)), c)
        }
    } else {
        (TreeModel::File { name: Seq::empty(), minutes: 0 }, Seq::empty())
    }
}

pub proof fn lemma_group_members(files: Seq<FileEntry>, base: Seq<Seq<char>>, c: Seq<char>)
    ensures
        child_group(files, base, c).len() <= files.len(),
        forall|j: int|
            0 <= j < child_group(files, base, c).len() ==> {
                let f = #[trigger] child_group(files, base, c)[j];
                &&& strictly_under(f.path, base)
                &&& f.path[base.len() as int] == c
                &&& f.path.len() <= max_path_len(files)
            },
    decreases files.len(),
{
    if files.len() > 0 {
        lemma_group_members(files.drop_last(), base, c);
    }
}

pub proof fn lemma_keys_have_groups(files: Seq<FileEntry>, base: Seq<Seq<char>>, i: int)
    requires
        0 <= i < child_keys(files, base).len(),
    ensures
        child_group(files, base, child_keys(files, base)[i]).len() > 0,
    decreases files.len(),
{
    let ks = child_keys(files.drop_last(), base);
    if i < ks.len() {
        lemma_keys_have_groups(files.drop_last(), base, i);
    }
}

pub proof fn lemma_max_path_len_bounds(s: Seq<FileEntry>, bound: nat)
    requires
        forall|j: int| 0 <= j < s.len() ==> (#[trigger] s[j]).path.len() <= bound,
    ensures
        max_path_len(s) <= bound,
        forall|j: int| 0 <= j < s.len() ==> (#[trigger] s[j]).path.len() <= max_path_len(s),
    decreases s.len(),
{
    if s.len() > 0 {
        let t = s.drop_last();
        assert forall|j: int| 0 <= j < t.len() implies (#[trigger] t[j]).path.len() <= bound by {
            assert(t[j] == s[j]);
        }
        lemma_max_path_len_bounds(t, bound);
        assert forall|j: int| 0 <= j < s.len() implies (#[trigger] s[j]).path.len() <= max_path_len(s) by {
            if j < t.len() {
                assert(t[j] == s[j]);
            }
        }
    }
}

pub proof fn lemma_child_measure(files: Seq<FileEntry>, base: Seq<Seq<char>>, i: nat)
    requires
        i < child_keys(files, base).len(),
    ensures
        child_group(files, base, child_keys(files, base)[i as int]).len() > 0,
        tree_measure(
            child_group(files, base, child_keys(files, base)[i as int]),
            base.push(child_keys(files, base)[i as int]),
        ) < tree_measure(files, base),
{
    let c = child_keys(files, base)[i as int];
    let g = child_group(files, base, c);
    lemma_keys_have_groups(files, base, i as int);
    lemma_group_members(files, base, c);
    lemma_max_path_len_bounds(g, max_path_len(files));
    assert(g[0].path.len() > base.len());
}

/// The models of a list of processed files.
pub open spec fn files_view(s: Seq<FileInfo>) -> Seq<FileEntry> {
    s.map_values(|f: FileInfo| f@)
}

/// The sum of the reading times of `files`.
pub open spec fn minutes_total(files: Seq<FileEntry>) -> nat
    decreases files.len(),
{
    if files.len() == 0 {
        0
    } else {
        minutes_total(files.drop_last()) + files.last().minutes
    }
}

/// The sum of the reading times of the files strictly under `base`.
pub open spec fn under_total(files: Seq<FileEntry>, base: Seq<Seq<char>>) -> nat
    decreases files.len(),
{
    if files.len() == 0 {
        0
    } else {
        under_total(files.drop_last(), base) + if strictly_under(files.last().path, base) {
            files.last().minutes
        } else {
            0
        }
    }
}

/// The sum, over the components `keys`, of the reading times of the files
/// below `base` with that component.
pub open spec fn groups_total(files: Seq<FileEntry>, base: Seq<Seq<char>>, keys: Seq<Seq<char>>) -> nat
    decreases keys.len(),
{
    if keys.len() == 0 {
        0
    } else {
        groups_total(files, base, keys.drop_last()) + minutes_total(
            child_group(files, base, keys.last()),
        )
    }
}

pub proof fn lemma_under_total_le(files: Seq<FileEntry>, base: Seq<Seq<char>>)
    ensures
        under_total(files, base) <= minutes_total(files),
    decreases files.len(),
{
    if files.len() > 0 {
        lemma_under_total_le(files.drop_last(), base);
    }
}

pub proof fn lemma_groups_total_prefix(files: Seq<FileEntry>, base: Seq<Seq<char>>, keys: Seq<Seq<char>>, j: int)
    requires
        0 <= j <= keys.len(),
    ensures
        groups_total(files, base, keys.take(j)) <= groups_total(files, base, keys),
    decreases keys.len(),
{
    if j < keys.len() {
        assert(keys.drop_last().take(j) =~= keys.take(j));
        lemma_groups_total_prefix(files, base, keys.drop_last(), j);
    } else {
        assert(keys.take(j) =~= keys);
    }
}

pub proof fn lemma_keys_distinct(files: Seq<FileEntry>, base: Seq<Seq<char>>)
    ensures
        forall|i: int, j: int|
            0 <= i < j < child_keys(files, base).len() ==> child_keys(files, base)[i]
                != child_keys(files, base)[j],
    decreases files.len(),
{
    if files.len() > 0 {
        let ks = child_keys(files.drop_last(), base);
        lemma_keys_distinct(files.drop_last(), base);
        let f = files.last();
        if strictly_under(f.path, base) && !ks.contains(f.path[base.len() as int]) {
            let c = f.path[base.len() as int];
            let k2 = ks.push(c);
            assert forall|i: int, j: int| 0 <= i < j < k2.len() implies k2[i] != k2[j] by {
                if j == ks.len() {
                    assert(k2[i] == ks[i]);
                    if ks[i] == c {
                        assert(ks.contains(c));
                    }
                } else {
                    assert(k2[i] == ks[i] && k2[j] == ks[j]);
                }
            }
        }
    }
}

/// A file strictly under `base` has its component among the keys.
pub proof fn lemma_keys_complete(files: Seq<FileEntry>, base: Seq<Seq<char>>, j: int)
    requires
        0 <= j < files.len(),
        strictly_under(files[j].path, base),
    ensures
        child_keys(files, base).contains(files[j].path[base.len() as int]),
    decreases files.len(),
{
    let fl = files.drop_last();
    let ks = child_keys(fl, base);
    let f = files.last();
    if j < files.len() - 1 {
        assert(fl[j] == files[j]);
        lemma_keys_complete(fl, base, j);
        let c = files[j].path[base.len() as int];
        let t = choose|t: int| 0 <= t < ks.len() && ks[t] == c;
        if strictly_under(f.path, base) && !ks.contains(f.path[base.len() as int]) {
            assert(ks.push(f.path[base.len() as int])[t] == c);
        }
    } else {
        let c = f.path[base.len() as int];
        if !ks.contains(c) {
            assert(ks.push(c)[ks.len() as int] == c);
        }
    }
}

pub proof fn lemma_group_empty(files: Seq<FileEntry>, base: Seq<Seq<char>>, c: Seq<char>)
    requires
        !child_keys(files, base).contains(c),
    ensures
        child_group(files, base, c).len() == 0,
    decreases files.len(),
{
    if files.len() > 0 {
        let fl = files.drop_last();
        let f = files.last();
        if strictly_under(f.path, base) && f.path[base.len() as int] == c {
            lemma_keys_complete(files, base, files.len() - 1);
        }
        let ks = child_keys(fl, base);
        if ks.contains(c) {
            let t = choose|t: int| 0 <= t < ks.len() && ks[t] == c;
            if strictly_under(f.path, base) && !ks.contains(f.path[base.len() as int]) {
                assert(ks.push(f.path[base.len() as int])[t] == c);
            }
        }
        lemma_group_empty(fl, base, c);
    }
}

/// Adding a file to the list adds its time to the group of its component,
/// when that component is among `keys`.
pub proof fn lemma_group_step(files: Seq<FileEntry>, base: Seq<Seq<char>>, c: Seq<char>)
    requires
        files.len() > 0,
    ensures
        minutes_total(child_group(files, base, c)) == minutes_total(
            child_group(files.drop_last(), base, c),
        ) + if strictly_under(files.last().path, base) && files.last().path[base.len() as int]
            == c {
            files.last().minutes
        } else {
            0
        },
{
    let g = child_group(files.drop_last(), base, c);
    let f = files.last();
    if strictly_under(f.path, base) && f.path[base.len() as int] == c {
        assert(g.push(f).drop_last() =~= g);
    }
}

pub proof fn lemma_groups_total_step(files: Seq<FileEntry>, base: Seq<Seq<char>>, keys: Seq<Seq<char>>)
    requires
        files.len() > 0,
        forall|i: int, j: int| 0 <= i < j < keys.len() ==> keys[i] != keys[j],
    ensures
        groups_total(files, base, keys) == groups_total(files.drop_last(), base, keys) + if strictly_under(
            files.last().path,
            base,
        ) && keys.contains(files.last().path[base.len() as int]) {
            files.last().minutes
        } else {
            0
        },
    decreases keys.len(),
{
    if keys.len() > 0 {
        let kl = keys.drop_last();
        assert forall|i: int, j: int| 0 <= i < j < kl.len() implies kl[i] != kl[j] by {
            assert(kl[i] == keys[i] && kl[j] == keys[j]);
        }
        lemma_groups_total_step(files, base, kl);
        lemma_group_step(files, base, keys.last());
        let f = files.last();
        if strictly_under(f.path, base) {
            let c = f.path[base.len() as int];
            if kl.contains(c) {
                let t = choose|t: int| 0 <= t < kl.len() && kl[t] == c;
                assert(keys[t] == c);
                assert(keys.contains(c));
                assert(c != keys[keys.len() - 1]);
            } else if c == keys.last() {
                assert(keys[keys.len() - 1] == c);
                assert(keys.contains(c));
            } else {
                if keys.contains(c) {
                    let t = choose|t: int| 0 <= t < keys.len() && keys[t] == c;
                    if t < keys.len() - 1 {
                        assert(kl[t] == c);
                    }
                }
            }
        }
    }
}

/// The groups of the components below `base` share the times of the files
/// under it.
pub proof fn lemma_groups_partition(files: Seq<FileEntry>, base: Seq<Seq<char>>)
    ensures
        groups_total(files, base, child_keys(files, base)) == under_total(files, base),
    decreases files.len(),
{
    if files.len() > 0 {
        let fl = files.drop_last();
        let f = files.last();
        let ks = child_keys(fl, base);
        lemma_groups_partition(fl, base);
        lemma_keys_distinct(fl, base);
        lemma_keys_distinct(files, base);
        lemma_groups_total_step(files, base, ks);
        if strictly_under(f.path, base) && !ks.contains(f.path[base.len() as int]) {
            let c = f.path[base.len() as int];
            let k2 = child_keys(files, base);
            assert(k2 == ks.push(c));
            assert(k2.drop_last() =~= ks);
            assert(k2.last() == c);
            lemma_group_empty(fl, base, c);
            lemma_group_step(files, base, c);
            assert(groups_total(files, base, k2) == groups_total(files, base, ks) + minutes_total(
                child_group(files, base, c),
            ));
        } else {
            assert(child_keys(files, base) == ks);
        }
    }
}

pub proof fn lemma_children_spec_index(
    files: Seq<FileEntry>,
    base: Seq<Seq<char>>,
    probe: spec_fn(Seq<nat>) -> bool,
    i: nat,
)
    requires
        i <= child_keys(files, base).len(),
    ensures
        children_spec(files, base, probe, i).len() == child_keys(files, base).len() - i,
        forall|j: int|
            0 <= j < child_keys(files, base).len() - i ==> #[trigger] children_spec(
                files,
                base,
                probe,
                i,
            )[j] == child_entry(files, base, probe, (i + j) as nat),
    decreases child_keys(files, base).len() - i,
{
    if i < child_keys(files, base).len() {
        lemma_children_spec_index(files, base, probe, i + 1);
        let s = children_spec(files, base, probe, i);
        assert forall|j: int| 0 <= j < child_keys(files, base).len() - i implies #[trigger] s[j]
            == child_entry(files, base, probe, (i + j) as nat) by {
            if j > 0 {
                assert(s[j] == children_spec(files, base, probe, i + 1)[j - 1]);
            }
        }
    }
}

/// A child depends only on the answers at positions that start with its own.
pub proof fn lemma_child_entry_frame(
    files: Seq<FileEntry>,
    base: Seq<Seq<char>>,
    p1: spec_fn(Seq<nat>) -> bool,
    p2: spec_fn(Seq<nat>) -> bool,
    i: nat,
)
    requires
        forall|q: Seq<nat>| q.len() > 0 && q[0] == i ==> p1(q) == p2(q),
    ensures
        child_entry(files, base, p1, i) == child_entry(files, base, p2, i),
{
    let q0: Seq<nat> = seq![i];
    assert(q0[0] == i);
    assert(p1(q0) == p2(q0));
    assert forall|q: Seq<nat>| #[trigger] probe_below(p1, i)(q) == probe_below(p2, i)(q) by {
        let r: Seq<nat> = seq![i] + q;
        assert(r[0] == i);
    }
    assert(probe_below(p1, i) =~= probe_below(p2, i));
}

/// A tree does not depend on the answer at the empty position.
pub proof fn lemma_tree_spec_frame(
    files: Seq<FileEntry>,
    base: Seq<Seq<char>>,
    p1: spec_fn(Seq<nat>) -> bool,
    p2: spec_fn(Seq<nat>) -> bool,
)
    requires
        forall|q: Seq<nat>| q.len() > 0 ==> p1(q) == p2(q),
    ensures
        tree_spec(files, base, p1) == tree_spec(files, base, p2),
{
    let n = child_keys(files, base).len();
    lemma_children_spec_index(files, base, p1, 0);
    lemma_children_spec_index(files, base, p2, 0);
    assert forall|j: int| 0 <= j < n implies children_spec(files, base, p1, 0)[j] == children_spec(
        files,
        base,
        p2,
        0,
    )[j] by {
        lemma_child_entry_frame(files, base, p1, p2, j as nat);
    }
    assert(children_spec(files, base, p1, 0) =~= children_spec(files, base, p2, 0));
}

pub proof fn lemma_children_total_prepend(x: (TreeModel, Seq<char>), s: Seq<(TreeModel, Seq<char>)>)
    ensures
        children_total(seq![x] + s) == x.0.minutes() + children_total(s),
    decreases s.len(),
{
    if s.len() > 0 {
        lemma_children_total_prepend(x, s.drop_last());
        let xs = seq![x] + s;
        assert(xs.drop_last() =~= seq![x] + s.drop_last());
        assert(xs.last() == s.last());
        assert(children_total(xs) == children_total(xs.drop_last()) + xs.last().0.minutes());
    } else {
        let xs = seq![x] + s;
        assert(xs.drop_last() =~= Seq::<(TreeModel, Seq<char>)>::empty());
        assert(xs.last() == x);
        assert(children_total(xs) == children_total(xs.drop_last()) + xs.last().0.minutes());
    }
}

pub proof fn lemma_insert_child_total(x: (TreeModel, Seq<char>), s: Seq<(TreeModel, Seq<char>)>)
    ensures
        children_total(insert_child(x, s)) == x.0.minutes() + children_total(s),
        insert_child(x, s).len() == s.len() + 1,
    decreases s.len(),
{
    if s.len() == 0 {
        lemma_children_total_prepend(x, s);
        assert(seq![x] + s =~= seq![x]);
    } else if child_before(x, s[0]) {
        lemma_children_total_prepend(x, s);
    } else {
        let t = s.drop_first();
        lemma_insert_child_total(x, t);
        lemma_children_total_prepend(s[0], insert_child(x, t));
        lemma_children_total_prepend(s[0], t);
        assert(seq![s[0]] + t =~= s);
    }
}

pub proof fn lemma_sort_children_total(s: Seq<(TreeModel, Seq<char>)>)
    ensures
        children_total(sort_children(s)) == children_total(s),
        sort_children(s).len() == s.len(),
    decreases s.len(),
{
    if s.len() > 0 {
        lemma_sort_children_total(s.drop_last());
        lemma_insert_child_total(s.last(), sort_children(s.drop_last()));
    }
}

// ---------------------------------------------------------------------------
// Building the tree
// ---------------------------------------------------------------------------

/// Trusted: `std::path::Path::is_file` on the path made of the components
/// `p`, which asks the file system whether a regular file stands there.
/// Nothing is stated of the answer: it depends on what is on disk.
#[verifier::external_body]
fn path_is_file(p: &Vec<String>) -> bool {
    p.iter().collect::<std::path::PathBuf>().is_file()
}

/// Whether two paths have the same components.
pub fn paths_equal(a: &Vec<String>, b: &Vec<String>) -> (r: bool)
    ensures
        r == (path_view(a@) == path_view(b@)),
{
    if a.len() != b.len() {
        assert(path_view(a@).len() != path_view(b@).len());
        return false;
    }
    let mut i: usize = 0;
    while i < a.len()
        invariant
            i <= a.len(),
            a.len() == b.len(),
            forall|j: int| 0 <= j < i ==> a@[j]@ == b@[j]@,
        decreases a.len() - i,
    {
        if !same_string(&a[i], &b[i]) {
            assert(path_view(a@)[i as int] != path_view(b@)[i as int]);
            return false;
        }
        i = i + 1;
    }
    assert(path_view(a@) =~= path_view(b@));
    true
}

/// Whether path `p` lies strictly below `base`.
pub fn path_strictly_under(p: &Vec<String>, base: &Vec<String>) -> (r: bool)
    ensures
        r == strictly_under(path_view(p@), path_view(base@)),
{
    if base.len() >= p.len() {
        return false;
    }
    let mut i: usize = 0;
    while i < base.len()
        invariant
            i <= base.len() < p.len(),
            forall|j: int| 0 <= j < i ==> p@[j]@ == base@[j]@,
        decreases base.len() - i,
    {
        if !same_string(&p[i], &base[i]) {
            assert(path_view(p@).take(base.len() as int)[i as int] != path_view(base@)[i as int]);
            return false;
        }
        i = i + 1;
    }
    assert(path_view(p@).take(base.len() as int) =~= path_view(base@));
    true
}

/// The name of the node for a file at `p`.
fn file_node_name_of(p: &Vec<String>) -> (r: String)
    ensures
        r@ == file_node_name(path_view(p@)),
{
    match path_file_name(p) {
        Some(n) => copy_string(n),
        None => {
            let r = String::from_str("unknown");
            proof {
                reveal_strlit("unknown");
            }
            assert(r@ =~= seq!['u', 'n', 'k', 'n', 'o', 'w', 'n']);
            r
        },
    }
}

/// The name of the node for a directory at `p`.
fn dir_node_name_of(p: &Vec<String>) -> (r: String)
    ensures
        r@ == dir_node_name(path_view(p@)),
{
    match path_file_name(p) {
        Some(n) => copy_string(n),
        None => {
            let r = String::from_str(".");
            proof {
                reveal_strlit(".");
            }
            assert(r@ =~= seq!['.']);
            r
        },
    }
}

/// The components right below `base` of the files under it, each once, in
/// the order in which they first occur.
fn collect_keys(files: &[FileInfo], base: &Vec<String>) -> (keys: Vec<String>)
    ensures
        path_view(keys@) == child_keys(files_view(files@), path_view(base@)),
{
    let ghost fv = files_view(files@);
    let ghost bv = path_view(base@);
    let mut keys: Vec<String> = Vec::new();
    let mut i: usize = 0;
    while i < files.len()
        invariant
            i <= files.len(),
            fv == files_view(files@),
            bv == path_view(base@),
            path_view(keys@) == child_keys(fv.take(i as int), bv),
        decreases files.len() - i,
    {
        assert(fv.take(i + 1).drop_last() =~= fv.take(i as int));
        assert(fv.take(i + 1).last() == files@[i as int]@);
        if path_strictly_under(&files[i].path, base) {
            let c = &files[i].path[base.len()];
            assert(c@ == files@[i as int]@.path[bv.len() as int]);
            let mut found = false;
            let mut j: usize = 0;
            while j < keys.len()
                invariant
                    j <= keys.len(),
                    found == path_view(keys@).take(j as int).contains(c@),
                decreases keys.len() - j,
            {
                let ghost a = path_view(keys@).take(j as int);
                let ghost b = path_view(keys@).take(j + 1);
                assert(b =~= a.push(keys@[j as int]@));
                if same_string(&keys[j], c) {
                    found = true;
                }
                proof {
                    if b.contains(c@) {
                        let t = choose|t: int| 0 <= t < b.len() && b[t] == c@;
                        if t < j {
                            assert(a[t] == c@);
                        }
                    }
                    if a.contains(c@) {
                        let t = choose|t: int| 0 <= t < a.len() && a[t] == c@;
                        assert(b[t] == c@);
                    }
                    if keys@[j as int]@ == c@ {
                        assert(b[j as int] == c@);
                    }
                }
                j = j + 1;
            }
            assert(path_view(keys@).take(j as int) =~= path_view(keys@));
            if !found {
                let ghost old_keys = keys@;
                keys.push(copy_string(c));
                assert(path_view(keys@) =~= path_view(old_keys).push(c@));
            }
        }
        i = i + 1;
    }
    assert(fv.take(files.len() as int) =~= fv);
    keys
}

/// The files strictly below `base` whose component right below it is `c`.
fn collect_group(files: &[FileInfo], base: &Vec<String>, c: &String) -> (group: Vec<FileInfo>)
    ensures
        files_view(group@) == child_group(files_view(files@), path_view(base@), c@),
{
    let ghost fv = files_view(files@);
    let ghost bv = path_view(base@);
    let mut group: Vec<FileInfo> = Vec::new();
    let mut i: usize = 0;
    while i < files.len()
        invariant
            i <= files.len(),
            fv == files_view(files@),
            bv == path_view(base@),
            files_view(group@) == child_group(fv.take(i as int), bv, c@),
        decreases files.len() - i,
    {
        assert(fv.take(i + 1).drop_last() =~= fv.take(i as int));
        assert(fv.take(i + 1).last() == files@[i as int]@);
        if path_strictly_under(&files[i].path, base) && same_string(&files[i].path[base.len()], c) {
            let ghost old_group = group@;
            group.push(files[i].copy());
            assert(files_view(group@) =~= files_view(old_group).push(files@[i as int]@));
        }
        i = i + 1;
    }
    assert(fv.take(files.len() as int) =~= fv);
    group
}

/// The path of `base` with the component `c` appended.
fn child_path(base: &Vec<String>, c: &String) -> (k: Vec<String>)
    ensures
        path_view(k@) == path_view(base@).push(c@),
{
    let mut k = copy_path(base);
    let ghost old_k = k@;
    k.push(copy_string(c));
    assert(path_view(k@) =~= path_view(old_k).push(c@));
    k
}

/// Whether `answers` holds the path `k`.
fn answers_contain(answers: &Vec<Vec<String>>, k: &Vec<String>) -> (r: bool)
    ensures
        r == paths_view(answers@).contains(path_view(k@)),
{
    let ghost av = paths_view(answers@);
    let mut i: usize = 0;
    while i < answers.len()
        invariant
            i <= answers.len(),
            av == paths_view(answers@),
            forall|j: int| 0 <= j < i ==> av[j] != path_view(k@),
        decreases answers.len() - i,
    {
        if paths_equal(&answers[i], k) {
            assert(av[i as int] == path_view(k@));
            return true;
        }
        i = i + 1;
    }
    proof {
        if av.contains(path_view(k@)) {
            let t = choose|t: int| 0 <= t < av.len() && av[t] == path_view(k@);
            assert(av[t] != path_view(k@));
        }
    }
    false
}

/// Builds the tree of `files` below `base` when the files among the child
/// paths are those of `file_children`.
fn build_with_answers(files: &[FileInfo], base: &Vec<String>, file_children: &Vec<Vec<String>>) -> (r: Node)
    requires
        under_total(files_view(files@), path_view(base@)) <= usize::MAX,
    ensures
        r@ == tree_spec_by_path(files_view(files@), path_view(base@), paths_view(file_children@)),
        r@.minutes() <= minutes_total(files_view(files@)),
    decreases tree_measure(files_view(files@), path_view(base@)),
{
    let ghost fv = files_view(files@);
    let ghost bv = path_view(base@);
    let ghost pv = paths_view(file_children@);
    let ghost probe = probe_from_paths(fv, bv, pv);
    if files.len() == 1 && paths_equal(&files[0].path, base) {
        assert(fv[0] == files@[0]@);
        assert(fv.drop_last() =~= Seq::<FileEntry>::empty());
        return Node::File {
            name: file_node_name_of(base),
            read_time_minutes: files[0].read_time_minutes,
        };
    }
    let keys = collect_keys(files, base);
    let ghost kv = path_view(keys@);
    proof {
        lemma_groups_partition(fv, bv);
        lemma_under_total_le(fv, bv);
        lemma_keys_distinct(fv, bv);
    }
    let mut nodes: Vec<Node> = Vec::new();
    let mut comps: Vec<String> = Vec::new();
    let mut total: usize = 0;
    let ghost mut built: Seq<(TreeModel, Seq<char>)> = Seq::empty();
    let mut i: usize = 0;
    while i < keys.len()
        invariant
            i <= keys.len(),
            fv == files_view(files@),
            bv == path_view(base@),
            pv == paths_view(file_children@),
            probe == probe_from_paths(fv, bv, pv),
            kv == path_view(keys@),
            kv == child_keys(fv, bv),
            !(files.len() == 1 && fv[0].path == bv),
            groups_total(fv, bv, kv) == under_total(fv, bv),
            under_total(fv, bv) <= usize::MAX,
            under_total(fv, bv) <= minutes_total(fv),
            built.len() == i,
            forall|j: int| 0 <= j < i ==> #[trigger] built[j] == child_entry(fv, bv, probe, j as nat),
            nodes.len() == comps.len(),
            pairs_view(nodes@, comps@) == sort_children(built),
            total == children_total(built),
            children_total(built) <= groups_total(fv, bv, kv.take(i as int)),
        decreases keys.len() - i,
    {
        let c = &keys[i];
        let k = child_path(base, c);
        let group = collect_group(files, base, c);
        let ghost gv = files_view(group@);
        proof {
            lemma_child_measure(fv, bv, i as nat);
            lemma_group_members(fv, bv, c@);
            lemma_under_total_le(gv, path_view(k@));
            lemma_groups_total_prefix(fv, bv, kv, i + 1);
            lemma_probe_from_paths_child(fv, bv, pv, i as nat);
            assert(kv.take(i + 1).drop_last() =~= kv.take(i as int));
            assert(kv.take(i + 1).last() == c@);
        }
        let is_file = answers_contain(file_children, &k);
        let node = if is_file {
            assert(gv.len() > 0);
            assert(gv[0] == group@[0]@);
            proof {
                lemma_minutes_first_le(gv);
            }
            Node::File { name: file_node_name_of(&k), read_time_minutes: group[0].read_time_minutes }
        } else {
            build_with_answers(&group, &k, file_children)
        };
        proof {
            assert(node@ == child_entry(fv, bv, probe, i as nat).0);
            let ghost old_built = built;
            built = built.push((node@, c@));
            assert(built.drop_last() =~= old_built);
            assert(built.last() == (node@, c@));
        }
        total = total + node.read_time();
        insert_in_order(&mut nodes, &mut comps, node, copy_string(c));
        i = i + 1;
    }
    proof {
        lemma_children_spec_index(fv, bv, probe, 0);
        assert(built =~= children_spec(fv, bv, probe, 0));
        lemma_sort_children_total(built);
        assert(kv.take(kv.len() as int) =~= kv);
        lemma_nodes_view(nodes@);
        assert(nodes_view(nodes@) =~= child_nodes(pairs_view(nodes@, comps@)));
    }
    Node::Directory {
        name: dir_node_name_of(base),
        children: nodes,
        total_read_time_minutes: total,
    }
}

pub proof fn lemma_minutes_first_le(s: Seq<FileEntry>)
    requires
        s.len() > 0,
    ensures
        s[0].minutes <= minutes_total(s),
    decreases s.len(),
{
    if s.len() > 1 {
        lemma_minutes_first_le(s.drop_last());
    }
}

/// Build a tree structure from a list of files below `base_path`, given the
/// child paths that are files: a single file at `base_path` itself is a file
/// node; otherwise `base_path` is a directory whose children are the
/// components right below it. A child whose path is in `file_children` is a
/// file node with the reading time of the first file listed there; any other
/// child is the tree of its files. Directories come first and then files,
/// each group by name, and each directory has the rolled-up total of its
/// children.
pub fn build_tree_with(files: &[FileInfo], base_path: &Vec<String>, file_children: &Vec<Vec<String>>) -> (tree: Node)
    requires
        under_total(files_view(files@), path_view(base_path@)) <= usize::MAX,
    ensures
        tree@ == tree_spec_by_path(files_view(files@), path_view(base_path@), paths_view(file_children@)),
        tree_consistent(tree@),
{
    let tree = build_with_answers(files, base_path, file_children);
    proof {
        lemma_tree_spec_consistent(
            files_view(files@),
            path_view(base_path@),
            probe_from_paths(files_view(files@), path_view(base_path@), paths_view(file_children@)),
        );
    }
    tree
}

proof fn lemma_under_total_prefix(files: Seq<FileEntry>, base: Seq<Seq<char>>, j: int)
    requires
        0 <= j <= files.len(),
    ensures
        under_total(files.take(j), base) <= under_total(files, base),
    decreases files.len(),
{
    if j < files.len() {
        assert(files.drop_last().take(j) =~= files.take(j));
        lemma_under_total_prefix(files.drop_last(), base, j);
    } else {
        assert(files.take(j) =~= files);
    }
}

/// Whether the reading times of the files strictly below `base` add up
/// within `usize`, as the totals of their tree need.
pub fn tree_total_fits(files: &[FileInfo], base: &Vec<String>) -> (r: bool)
    ensures
        r == (under_total(files_view(files@), path_view(base@)) <= usize::MAX),
{
    let ghost fv = files_view(files@);
    let ghost bv = path_view(base@);
    let mut total: usize = 0;
    let mut i: usize = 0;
    while i < files.len()
        invariant
            i <= files.len(),
            fv == files_view(files@),
            bv == path_view(base@),
            total == under_total(fv.take(i as int), bv),
        decreases files.len() - i,
    {
        assert(fv.take(i + 1).drop_last() =~= fv.take(i as int));
        assert(fv.take(i + 1).last() == files@[i as int]@);
        if path_strictly_under(&files[i].path, base) {
            match total.checked_add(files[i].read_time_minutes) {
                Some(t) => {
                    total = t;
                },
                None => {
                    proof {
                        lemma_under_total_prefix(fv, bv, i + 1);
                    }
                    return false;
                },
            }
        }
        i = i + 1;
    }
    assert(fv.take(files.len() as int) =~= fv);
    true
}

/// The paths that `p` passes through strictly below `base`, from the
/// shallowest down to `p` itself; none where `p` is not strictly below
/// `base`.
pub open spec fn paths_below(p: Seq<Seq<char>>, base: Seq<Seq<char>>) -> Seq<Seq<Seq<char>>> {
    if strictly_under(p, base) {
        Seq::new((p.len() - base.len()) as nat, |t: int| p.take(base.len() + 1 + t))
    } else {
        Seq::empty()
    }
}

/// `s` followed by the paths of `new` that are not in it yet, each once, in
/// order.
pub open spec fn add_new_paths(s: Seq<Seq<Seq<char>>>, new: Seq<Seq<Seq<char>>>) -> Seq<Seq<Seq<char>>>
    decreases new.len(),
{
    if new.len() == 0 {
        s
    } else {
        let r = add_new_paths(s, new.drop_last());
        if r.contains(new.last()) {
            r
        } else {
            r.push(new.last())
        }
    }
}

/// The child paths that a build of `files` below `base` may ask about: those
/// that each file passes through below `base`, file by file, each once.
pub open spec fn candidate_paths(files: Seq<FileEntry>, base: Seq<Seq<char>>) -> Seq<Seq<Seq<char>>>
    decreases files.len(),
{
    if files.len() == 0 {
        Seq::empty()
    } else {
        add_new_paths(candidate_paths(files.drop_last(), base), paths_below(files.last().path, base))
    }
}

/// The paths of `cands` whose answer in `answers` is yes, in order.
pub open spec fn chosen_paths(cands: Seq<Seq<Seq<char>>>, answers: Seq<bool>) -> Seq<Seq<Seq<char>>>
    decreases cands.len(),
{
    if cands.len() == 0 || answers.len() == 0 {
        Seq::empty()
    } else {
        let r = chosen_paths(cands.drop_last(), answers.drop_last());
        if answers.last() {
            r.push(cands.last())
        } else {
            r
        }
    }
}

/// The paths that the files pass through below `base`.
fn collect_candidates(files: &[FileInfo], base: &Vec<String>) -> (cands: Vec<Vec<String>>)
    ensures
        paths_view(cands@) == candidate_paths(files_view(files@), path_view(base@)),
{
    let ghost fv = files_view(files@);
    let ghost bv = path_view(base@);
    let mut cands: Vec<Vec<String>> = Vec::new();
    let mut i: usize = 0;
    while i < files.len()
        invariant
            i <= files.len(),
            fv == files_view(files@),
            bv == path_view(base@),
            paths_view(cands@) == candidate_paths(fv.take(i as int), bv),
        decreases files.len() - i,
    {
        assert(fv.take(i + 1).drop_last() =~= fv.take(i as int));
        assert(fv.take(i + 1).last() == files@[i as int]@);
        let p = &files[i].path;
        let ghost pv = path_view(p@);
        assert(pv == fv[i as int].path);
        let ghost before = paths_view(cands@);
        if path_strictly_under(p, base) {
            let mut cur: Vec<String> = Vec::new();
            let mut l: usize = 0;
            while l < base.len()
                invariant
                    l <= base.len() < p.len(),
                    pv == path_view(p@),
                    path_view(cur@) == pv.take(l as int),
                decreases base.len() - l,
            {
                let ghost old_cur = cur@;
                cur.push(copy_string(&p[l]));
                assert(path_view(cur@) =~= path_view(old_cur).push(pv[l as int]));
                assert(pv.take(l + 1) =~= pv.take(l as int).push(pv[l as int]));
                l = l + 1;
            }
            while l < p.len()
                invariant
                    base.len() <= l <= p.len(),
                    base.len() < p.len(),
                    pv == path_view(p@),
                    bv == path_view(base@),
                    strictly_under(pv, bv),
                    path_view(cur@) == pv.take(l as int),
                    paths_view(cands@) == add_new_paths(before, paths_below(pv, bv).take(l - base.len())),
                decreases p.len() - l,
            {
                let ghost old_cands = paths_view(cands@);
                let ghost old_cur = cur@;
                cur.push(copy_string(&p[l]));
                assert(path_view(cur@) =~= path_view(old_cur).push(pv[l as int]));
                assert(pv.take(l + 1) =~= pv.take(l as int).push(pv[l as int]));
                let ghost pb = paths_below(pv, bv);
                assert(pb[l - base.len()] == pv.take(l + 1));
                assert(pb.take(l + 1 - base.len()).drop_last() =~= pb.take(l - base.len()));
                assert(pb.take(l + 1 - base.len()).last() == pv.take(l + 1));
                if !answers_contain(&cands, &cur) {
                    cands.push(copy_path(&cur));
                    assert(paths_view(cands@) =~= old_cands.push(pv.take(l + 1)));
                }
                l = l + 1;
            }
            assert(paths_below(pv, bv).take(p.len() - base.len()) =~= paths_below(pv, bv));
        } else {
            assert(paths_below(pv, bv) =~= Seq::<Seq<Seq<char>>>::empty());
        }
        i = i + 1;
    }
    assert(fv.take(files.len() as int) =~= fv);
    cands
}

/// Build a tree structure from a list of files below `base_path`, asking
/// the file system which of the child paths are files, and building the
/// tree of `build_tree_with` from the answers: the files are those of the
/// candidate paths that the file system answered as files. Which answers
/// come back is not stated: that depends on what is on disk.
pub fn build_tree(files: &[FileInfo], base_path: &Vec<String>) -> (tree: Node)
    requires
        under_total(files_view(files@), path_view(base_path@)) <= usize::MAX,
    ensures
        exists|answers: Seq<bool>|
            answers.len() == candidate_paths(files_view(files@), path_view(base_path@)).len()
                && tree@ == tree_spec_by_path(
                files_view(files@),
                path_view(base_path@),
                chosen_paths(candidate_paths(files_view(files@), path_view(base_path@)), answers),
            ),
        tree_consistent(tree@),
{
    let cands = collect_candidates(files, base_path);
    let ghost cv = paths_view(cands@);
    let mut file_children: Vec<Vec<String>> = Vec::new();
    let ghost mut answers: Seq<bool> = Seq::empty();
    let mut j: usize = 0;
    while j < cands.len()
        invariant
            j <= cands.len(),
            cv == paths_view(cands@),
            answers.len() == j,
            paths_view(file_children@) == chosen_paths(cv.take(j as int), answers),
        decreases cands.len() - j,
    {
        let is_file = path_is_file(&cands[j]);
        let ghost old_fc = paths_view(file_children@);
        let ghost old_answers = answers;
        proof {
            answers = answers.push(is_file);
            assert(cv.take(j + 1).drop_last() =~= cv.take(j as int));
            assert(answers.drop_last() =~= old_answers);
            assert(cv.take(j + 1).last() == cv[j as int]);
        }
        if is_file {
            file_children.push(copy_path(&cands[j]));
            assert(paths_view(file_children@) =~= old_fc.push(cv[j as int]));
        }
        j = j + 1;
    }
    assert(cv.take(cands.len() as int) =~= cv);
    build_tree_with(files, base_path, &file_children)
}

// ---------------------------------------------------------------------------
// Laws of the tree
// ---------------------------------------------------------------------------

pub proof fn lemma_text_lt_irreflexive(a: Seq<char>)
    ensures
        !text_lt(a, a),
    decreases a.len(),
{
    if a.len() > 0 {
        lemma_text_lt_irreflexive(a.drop_first());
    }
}

pub proof fn lemma_text_lt_transitive(a: Seq<char>, b: Seq<char>, c: Seq<char>)
    requires
        text_lt(a, b),
        text_lt(b, c),
    ensures
        text_lt(a, c),
    decreases a.len(),
{
    if a.len() > 0 && b.len() > 0 && c.len() > 0 && a[0] == b[0] && b[0] == c[0] {
        lemma_text_lt_transitive(a.drop_first(), b.drop_first(), c.drop_first());
    }
}

pub proof fn lemma_child_before_transitive(
    x: (TreeModel, Seq<char>),
    y: (TreeModel, Seq<char>),
    z: (TreeModel, Seq<char>),
)
    requires
        child_before(x, y),
        child_before(y, z),
    ensures
        child_before(x, z),
{
    if x.0.is_dir() == y.0.is_dir() && y.0.is_dir() == z.0.is_dir() {
        if x.0.name() != y.0.name() && y.0.name() != z.0.name() {
            lemma_text_lt_transitive(x.0.name(), y.0.name(), z.0.name());
            if x.0.name() == z.0.name() {
                lemma_text_lt_irreflexive(x.0.name());
            }
        } else if x.0.name() == y.0.name() && y.0.name() == z.0.name() {
            if component_rank(x.1) == 3 && component_rank(y.1) == 3 && component_rank(z.1) == 3 {
                if text_lt(x.1, y.1) && text_lt(y.1, z.1) {
                    lemma_text_lt_transitive(x.1, y.1, z.1);
                }
            }
        }
    }
}

/// Children `s` are in order: none comes before one that precedes it.
pub open spec fn children_sorted(s: Seq<(TreeModel, Seq<char>)>) -> bool {
    forall|i: int, j: int| 0 <= i < j < s.len() ==> !child_before(#[trigger] s[j], #[trigger] s[i])
}

proof fn lemma_insert_child_contains(x: (TreeModel, Seq<char>), s: Seq<(TreeModel, Seq<char>)>)
    ensures
        forall|e| #[trigger] insert_child(x, s).contains(e) <==> (s.contains(e) || e == x),
    decreases s.len(),
{
    if s.len() == 0 {
        assert(insert_child(x, s) == seq![x]);
        assert forall|e| seq![x].contains(e) <==> (s.contains(e) || e == x) by {
            if e == x {
                assert(seq![x][0] == e);
            }
        }
    } else if child_before(x, s[0]) {
        let r = seq![x] + s;
        assert(insert_child(x, s) == r);
        assert forall|e| r.contains(e) <==> (s.contains(e) || e == x) by {
            if r.contains(e) {
                let t = choose|t: int| 0 <= t < r.len() && r[t] == e;
                if t > 0 {
                    assert(s[t - 1] == e);
                }
            }
            if s.contains(e) {
                let t = choose|t: int| 0 <= t < s.len() && s[t] == e;
                assert(r[t + 1] == e);
            }
            if e == x {
                assert(r[0] == e);
            }
        }
    } else {
        let t = s.drop_first();
        lemma_insert_child_contains(x, t);
        let it = insert_child(x, t);
        let r = seq![s[0]] + it;
        assert(insert_child(x, s) == r);
        assert forall|e| r.contains(e) <==> (s.contains(e) || e == x) by {
            if r.contains(e) {
                let u = choose|u: int| 0 <= u < r.len() && r[u] == e;
                if u > 0 {
                    assert(it[u - 1] == e);
                    assert(it.contains(e));
                    if t.contains(e) {
                        let v = choose|v: int| 0 <= v < t.len() && t[v] == e;
                        assert(s[v + 1] == e);
                    }
                } else {
                    assert(s[0] == e);
                }
            }
            if s.contains(e) {
                let u = choose|u: int| 0 <= u < s.len() && s[u] == e;
                if u > 0 {
                    assert(t[u - 1] == e);
                    assert(t.contains(e));
                    assert(it.contains(e));
                    let v = choose|v: int| 0 <= v < it.len() && it[v] == e;
                    assert(r[v + 1] == e);
                } else {
                    assert(r[0] == e);
                }
            }
            if e == x {
                assert(it.contains(e));
                let v = choose|v: int| 0 <= v < it.len() && it[v] == e;
                assert(r[v + 1] == e);
            }
        }
    }
}

#[verifier::spinoff_prover]
pub proof fn lemma_insert_child_sorted(x: (TreeModel, Seq<char>), s: Seq<(TreeModel, Seq<char>)>)
    requires
        children_sorted(s),
    ensures
        children_sorted(insert_child(x, s)),
        insert_child(x, s).len() == s.len() + 1,
        forall|e| #[trigger] insert_child(x, s).contains(e) <==> (s.contains(e) || e == x),
    decreases s.len(),
{
    lemma_insert_child_contains(x, s);
    if s.len() == 0 {
    } else if child_before(x, s[0]) {
        let r = seq![x] + s;
        assert(insert_child(x, s) == r);
        assert forall|i: int, j: int| 0 <= i < j < r.len() implies !child_before(#[trigger] r[j], #[trigger] r[i]) by {
            if i == 0 {
                assert(r[j] == s[j - 1]);
                if j > 1 {
                    assert(!child_before(s[j - 1], s[0]));
                }
                if child_before(s[j - 1], x) {
                    if j == 1 {
                        lemma_child_before_transitive(x, s[0], x);
                        lemma_child_before_irreflexive(x);
                    } else {
                        lemma_child_before_transitive(s[j - 1], x, s[0]);
                    }
                }
            } else {
                assert(r[i] == s[i - 1] && r[j] == s[j - 1]);
            }
        }
    } else {
        let t = s.drop_first();
        assert forall|i: int, j: int| 0 <= i < j < t.len() implies !child_before(#[trigger] t[j], #[trigger] t[i]) by {
            assert(t[i] == s[i + 1] && t[j] == s[j + 1]);
        }
        lemma_insert_child_sorted(x, t);
        let it = insert_child(x, t);
        let r = seq![s[0]] + it;
        assert(insert_child(x, s) == r);
        assert forall|i: int, j: int| 0 <= i < j < r.len() implies !child_before(#[trigger] r[j], #[trigger] r[i]) by {
            if i == 0 {
                assert(r[j] == it[j - 1]);
                assert(it.contains(it[j - 1]));
                if it[j - 1] == x {
                } else {
                    assert(t.contains(it[j - 1]));
                    let u = choose|u: int| 0 <= u < t.len() && t[u] == it[j - 1];
                    assert(s[u + 1] == t[u]);
                }
            } else {
                assert(r[i] == it[i - 1] && r[j] == it[j - 1]);
            }
        }
    }
}

pub proof fn lemma_child_before_irreflexive(x: (TreeModel, Seq<char>))
    ensures
        !child_before(x, x),
{
    lemma_text_lt_irreflexive(x.1);
}

pub proof fn lemma_sort_children_sorted(s: Seq<(TreeModel, Seq<char>)>)
    ensures
        children_sorted(sort_children(s)),
        sort_children(s).len() == s.len(),
        forall|e| sort_children(s).contains(e) <==> s.contains(e),
    decreases s.len(),
{
    if s.len() > 0 {
        let d = s.drop_last();
        lemma_sort_children_sorted(d);
        lemma_insert_child_sorted(s.last(), sort_children(d));
        assert forall|e| s.contains(e) <==> (d.contains(e) || e == s.last()) by {
            if s.contains(e) {
                let u = choose|u: int| 0 <= u < s.len() && s[u] == e;
                if u < s.len() - 1 {
                    assert(d[u] == e);
                }
            }
            if d.contains(e) {
                let u = choose|u: int| 0 <= u < d.len() && d[u] == e;
                assert(s[u] == e);
            }
            if e == s.last() {
                assert(s[s.len() - 1] == e);
            }
        }
    }
}

/// Children of a directory in order: directories before files, and within
/// each group by name.
pub open spec fn nodes_in_order(cs: Seq<TreeModel>) -> bool {
    forall|i: int, j: int|
        0 <= i < j < cs.len() ==> {
            ||| ((#[trigger] cs[i]).is_dir() && !(#[trigger] cs[j]).is_dir())
            ||| (cs[i].is_dir() == cs[j].is_dir() && !text_lt(cs[j].name(), cs[i].name()))
        }
}

/// Every directory of the tree `t` has its children in order, and a total
/// that is the sum of their reading times.
pub open spec fn tree_consistent(t: TreeModel) -> bool
    decreases t,
{
    match t {
        TreeModel::File { .. } => true,
        TreeModel::Directory { children, total, .. } => {
            &&& nodes_in_order(children)
            &&& total == models_total(children)
            &&& forall|i: int| 0 <= i < children.len() ==> tree_consistent(#[trigger] children[i])
        },
    }
}

/// The sum of the reading times of a sequence of nodes.
pub open spec fn models_total(cs: Seq<TreeModel>) -> nat
    decreases cs.len(),
{
    if cs.len() == 0 {
        0
    } else {
        models_total(cs.drop_last()) + cs.last().minutes()
    }
}

pub proof fn lemma_child_nodes_total(s: Seq<(TreeModel, Seq<char>)>)
    ensures
        models_total(child_nodes(s)) == children_total(s),
    decreases s.len(),
{
    if s.len() > 0 {
        lemma_child_nodes_total(s.drop_last());
        assert(child_nodes(s).drop_last() =~= child_nodes(s.drop_last()));
    }
}

/// Whatever the file system answers, every directory of the tree lists its
/// children directories first and then files, each group by name, and has
/// as its total the sum of its children's reading times.
pub proof fn lemma_tree_spec_consistent(
    files: Seq<FileEntry>,
    base: Seq<Seq<char>>,
    probe: spec_fn(Seq<nat>) -> bool,
)
    ensures
        tree_consistent(tree_spec(files, base, probe)),
    decreases tree_measure(files, base),
{
    if !(files.len() == 1 && files[0].path == base) {
        let s = children_spec(files, base, probe, 0);
        let cs = sort_children(s);
        let nodes = child_nodes(cs);
        let n = child_keys(files, base).len();
        lemma_children_spec_index(files, base, probe, 0);
        lemma_sort_children_sorted(s);
        lemma_sort_children_total(s);
        lemma_child_nodes_total(cs);
        assert forall|i: int, j: int| 0 <= i < j < nodes.len() implies {
            ||| ((#[trigger] nodes[i]).is_dir() && !(#[trigger] nodes[j]).is_dir())
            ||| (nodes[i].is_dir() == nodes[j].is_dir() && !text_lt(nodes[j].name(), nodes[i].name()))
        } by {
            assert(!child_before(cs[j], cs[i]));
            if nodes[i].name() == nodes[j].name() {
                lemma_text_lt_irreflexive(nodes[i].name());
            }
        }
        assert forall|i: int| 0 <= i < nodes.len() implies tree_consistent(#[trigger] nodes[i]) by {
            assert(cs.contains(cs[i]));
            assert(s.contains(cs[i]));
            let u = choose|u: int| 0 <= u < s.len() && s[u] == cs[i];
            assert(s[u] == child_entry(files, base, probe, u as nat));
            let c = child_keys(files, base)[u];
            if !probe(seq![u as nat]) {
                lemma_child_measure(files, base, u as nat);
                lemma_tree_spec_consistent(
                    child_group(files, base, c),
                    base.push(c),
                    probe_below(probe, u as nat),
                );
            }
        }
    }
}

/// No path of one file starts with the path of another, so that no path is
/// listed twice and no file stands where another file's directory is.
pub open spec fn prefix_free(files: Seq<FileEntry>) -> bool {
    forall|i: int, j: int|
        0 <= i < files.len() && 0 <= j < files.len() && i != j ==> !starts_with(
            #[trigger] files[j].path,
            #[trigger] files[i].path,
        )
}

/// Every answer "file" that a build gets is for a path where exactly one of
/// the listed files stands, as a file system that holds these files answers.
pub open spec fn probe_fits(files: Seq<FileEntry>, base: Seq<Seq<char>>, probe: spec_fn(Seq<nat>) -> bool) -> bool
    decreases tree_measure(files, base), 2 * child_keys(files, base).len() + 2,
{
    probe_fits_from(files, base, probe, 0)
}

/// `probe_fits` for the children from the `i`-th on.
pub open spec fn probe_fits_from(
    files: Seq<FileEntry>,
    base: Seq<Seq<char>>,
    probe: spec_fn(Seq<nat>) -> bool,
    i: nat,
) -> bool
    decreases tree_measure(files, base), 2 * (child_keys(files, base).len() - i) + 1,
{
    if i < child_keys(files, base).len() {
        probe_fits_at(files, base, probe, i) && probe_fits_from(files, base, probe, i + 1)
    } else {
        true
    }
}

/// `probe_fits` for the `i`-th child.
pub open spec fn probe_fits_at(
    files: Seq<FileEntry>,
    base: Seq<Seq<char>>,
    probe: spec_fn(Seq<nat>) -> bool,
    i: nat,
) -> bool
    decreases tree_measure(files, base), 2 * (child_keys(files, base).len() - i),
{
    let keys = child_keys(files, base);
    if i < keys.len() {
        let c = keys[i as int];
        let k = base.push(c);
        let g = child_group(files, base, c);
        proof {
            lemma_child_measure(files, base, i);
        }
        &&& probe(seq![i]) ==> g.len() == 1 && g[0].path == k
        &&& probe_fits(g, k, probe_below(probe, i))
    } else {
        true
    }
}

pub proof fn lemma_probe_fits_at(
    files: Seq<FileEntry>,
    base: Seq<Seq<char>>,
    probe: spec_fn(Seq<nat>) -> bool,
    i: nat,
    j: nat,
)
    requires
        probe_fits_from(files, base, probe, i),
        i <= j < child_keys(files, base).len(),
    ensures
        probe_fits_at(files, base, probe, j),
    decreases j - i,
{
    if i < j {
        lemma_probe_fits_at(files, base, probe, i + 1, j);
    }
}

pub proof fn lemma_group_contained(files: Seq<FileEntry>, base: Seq<Seq<char>>, c: Seq<char>)
    ensures
        forall|x| #[trigger] child_group(files, base, c).contains(x) ==> files.contains(x),
    decreases files.len(),
{
    if files.len() > 0 {
        let fl = files.drop_last();
        lemma_group_contained(fl, base, c);
        let g = child_group(fl, base, c);
        assert forall|x| #[trigger] child_group(files, base, c).contains(x) implies files.contains(x) by {
            let gg = child_group(files, base, c);
            let t = choose|t: int| 0 <= t < gg.len() && gg[t] == x;
            if t < g.len() {
                assert(g[t] == x);
                assert(g.contains(x));
                let u = choose|u: int| 0 <= u < fl.len() && fl[u] == x;
                assert(files[u] == x);
            } else {
                assert(files[files.len() - 1] == x);
            }
        }
    }
}

pub proof fn lemma_group_prefix_free(files: Seq<FileEntry>, base: Seq<Seq<char>>, c: Seq<char>)
    requires
        prefix_free(files),
    ensures
        prefix_free(child_group(files, base, c)),
    decreases files.len(),
{
    if files.len() > 0 {
        let fl = files.drop_last();
        let f = files.last();
        assert forall|i: int, j: int|
            0 <= i < fl.len() && 0 <= j < fl.len() && i != j implies !starts_with(
            #[trigger] fl[j].path,
            #[trigger] fl[i].path,
        ) by {
            assert(fl[i] == files[i] && fl[j] == files[j]);
        }
        lemma_group_prefix_free(fl, base, c);
        lemma_group_contained(fl, base, c);
        let g = child_group(fl, base, c);
        if strictly_under(f.path, base) && f.path[base.len() as int] == c {
            let gg = g.push(f);
            assert forall|i: int, j: int|
                0 <= i < gg.len() && 0 <= j < gg.len() && i != j implies !starts_with(
                #[trigger] gg[j].path,
                #[trigger] gg[i].path,
            ) by {
                if i < g.len() && j < g.len() {
                    assert(gg[i] == g[i] && gg[j] == g[j]);
                } else {
                    let y = if i < g.len() { g[i] } else { g[j] };
                    assert(g.contains(y));
                    let u = choose|u: int| 0 <= u < fl.len() && fl[u] == y;
                    assert(files[u] == y);
                    assert(files[files.len() - 1] == f);
                    assert(!starts_with(files[files.len() - 1].path, files[u].path));
                    assert(!starts_with(files[u].path, files[files.len() - 1].path));
                }
            }
        }
    }
}

pub proof fn lemma_under_total_all(files: Seq<FileEntry>, base: Seq<Seq<char>>)
    requires
        forall|i: int| 0 <= i < files.len() ==> strictly_under(#[trigger] files[i].path, base),
    ensures
        under_total(files, base) == minutes_total(files),
    decreases files.len(),
{
    if files.len() > 0 {
        let fl = files.drop_last();
        assert forall|i: int| 0 <= i < fl.len() implies strictly_under(#[trigger] fl[i].path, base) by {
            assert(fl[i] == files[i]);
        }
        lemma_under_total_all(fl, base);
        assert(strictly_under(files[files.len() - 1].path, base));
    }
}

/// When every file lies at or below `base`, no path of one starts with that
/// of another, and the file system answers "file" only where a listed file
/// stands, the total of the tree is the sum of the reading times of all the
/// files: every file is counted once, in the directory that holds it.
pub proof fn lemma_tree_total_counts_every_file(
    files: Seq<FileEntry>,
    base: Seq<Seq<char>>,
    probe: spec_fn(Seq<nat>) -> bool,
)
    requires
        forall|i: int| 0 <= i < files.len() ==> starts_with(#[trigger] files[i].path, base),
        prefix_free(files),
        probe_fits(files, base, probe),
    ensures
        tree_spec(files, base, probe).minutes() == minutes_total(files),
    decreases tree_measure(files, base),
{
    if files.len() == 1 && files[0].path == base {
        assert(files.drop_last().len() == 0);
        assert(minutes_total(files.drop_last()) == 0);
        assert(files.last() == files[0]);
    } else {
        assert forall|i: int| 0 <= i < files.len() implies strictly_under(#[trigger] files[i].path, base) by {
            if files[i].path.len() == base.len() {
                assert(files[i].path =~= base);
                if files.len() == 1 {
                    assert(i == 0);
                } else {
                    let j = if i == 0 { 1int } else { 0int };
                    assert(starts_with(files[j].path, base));
                    assert(!starts_with(files[j].path, files[i].path));
                }
            }
        }
        lemma_under_total_all(files, base);
        lemma_groups_partition(files, base);
        let keys = child_keys(files, base);
        let n = keys.len();
        let s = children_spec(files, base, probe, 0);
        lemma_children_spec_index(files, base, probe, 0);
        lemma_sort_children_total(s);
        assert forall|j: int| 0 <= j < n implies (#[trigger] s[j]).0.minutes() == minutes_total(
            child_group(files, base, keys[j]),
        ) by {
            let c = keys[j];
            let k = base.push(c);
            let g = child_group(files, base, c);
            lemma_probe_fits_at(files, base, probe, 0, j as nat);
            lemma_child_measure(files, base, j as nat);
            assert(s[j] == child_entry(files, base, probe, j as nat));
            assert(probe_fits_at(files, base, probe, j as nat));
            if probe(seq![j as nat]) {
                assert(g.len() == 1);
                assert(g.drop_last().len() == 0);
                assert(minutes_total(g.drop_last()) == 0);
                assert(g.last() == g[0]);
                assert(minutes_total(g) == g[0].minutes);
                assert(s[j].0 == TreeModel::File { name: file_node_name(k), minutes: g[0].minutes });
            } else {
                assert(probe_fits(g, k, probe_below(probe, j as nat)));
                assert(s[j].0 == tree_spec(g, k, probe_below(probe, j as nat)));
                lemma_group_members(files, base, c);
                lemma_group_prefix_free(files, base, c);
                assert forall|t: int| 0 <= t < g.len() implies starts_with(#[trigger] g[t].path, k) by {
                    assert(g[t].path.take(k.len() as int) =~= k);
                }
                lemma_tree_total_counts_every_file(g, k, probe_below(probe, j as nat));
            }
        }
        assert forall|j: int| 0 <= j <= n implies children_total(#[trigger] s.take(j)) == groups_total(
            files,
            base,
            keys.take(j),
        ) by {
            lemma_children_prefix_total(files, base, s, keys, j);
        }
        assert(s.take(n as int) =~= s);
        assert(keys.take(n as int) =~= keys);
        assert(children_total(s) == groups_total(files, base, keys));
        assert(tree_spec(files, base, probe).minutes() == children_total(sort_children(s)));
    }
}

pub proof fn lemma_children_prefix_total(
    files: Seq<FileEntry>,
    base: Seq<Seq<char>>,
    s: Seq<(TreeModel, Seq<char>)>,
    keys: Seq<Seq<char>>,
    j: int,
)
    requires
        0 <= j <= keys.len(),
        s.len() == keys.len(),
        forall|t: int| 0 <= t < keys.len() ==> (#[trigger] s[t]).0.minutes() == minutes_total(
            child_group(files, base, keys[t]),
        ),
    ensures
        children_total(s.take(j)) == groups_total(files, base, keys.take(j)),
    decreases j,
{
    if j > 0 {
        lemma_children_prefix_total(files, base, s, keys, j - 1);
        assert(s.take(j).drop_last() =~= s.take(j - 1));
        assert(keys.take(j).drop_last() =~= keys.take(j - 1));
        assert(s.take(j).last() == s[j - 1]);
        assert(keys.take(j).last() == keys[j - 1]);
    }
}


/// Any two ways for a file system that holds the listed files to answer give
/// the same tree: a child answered as a file is one where exactly one listed
/// file stands, and such a child is the same file node either way.
pub proof fn lemma_fitting_probes_agree(
    files: Seq<FileEntry>,
    base: Seq<Seq<char>>,
    p1: spec_fn(Seq<nat>) -> bool,
    p2: spec_fn(Seq<nat>) -> bool,
)
    requires
        probe_fits(files, base, p1),
        probe_fits(files, base, p2),
    ensures
        tree_spec(files, base, p1) == tree_spec(files, base, p2),
    decreases tree_measure(files, base),
{
    if !(files.len() == 1 && files[0].path == base) {
        let keys = child_keys(files, base);
        let n = keys.len();
        lemma_children_spec_index(files, base, p1, 0);
        lemma_children_spec_index(files, base, p2, 0);
        assert forall|j: int| 0 <= j < n implies children_spec(files, base, p1, 0)[j] == children_spec(
            files,
            base,
            p2,
            0,
        )[j] by {
            let c = keys[j];
            let k = base.push(c);
            let g = child_group(files, base, c);
            let b1 = probe_below(p1, j as nat);
            let b2 = probe_below(p2, j as nat);
            lemma_probe_fits_at(files, base, p1, 0, j as nat);
            lemma_probe_fits_at(files, base, p2, 0, j as nat);
            lemma_child_measure(files, base, j as nat);
            assert(probe_fits_at(files, base, p1, j as nat));
            assert(probe_fits_at(files, base, p2, j as nat));
            if !p1(seq![j as nat]) && !p2(seq![j as nat]) {
                lemma_fitting_probes_agree(g, k, b1, b2);
            }
        }
        assert(children_spec(files, base, p1, 0) =~= children_spec(files, base, p2, 0));
    }
}

/// When no path of one listed file starts with that of another, and the
/// file system answers "file" only where a listed file stands, the tree's
/// reading time is that of the single file at `base` where there is one,
/// and otherwise the sum of the reading times of the files strictly below
/// `base`: each of them is counted once, and no other file is.
pub proof fn lemma_tree_total(files: Seq<FileEntry>, base: Seq<Seq<char>>, probe: spec_fn(Seq<nat>) -> bool)
    requires
        prefix_free(files),
        probe_fits(files, base, probe),
    ensures
        tree_spec(files, base, probe).minutes() == if files.len() == 1 && files[0].path == base {
            files[0].minutes
        } else {
            under_total(files, base)
        },
{
    if !(files.len() == 1 && files[0].path == base) {
        lemma_groups_partition(files, base);
        let keys = child_keys(files, base);
        let n = keys.len();
        let s = children_spec(files, base, probe, 0);
        lemma_children_spec_index(files, base, probe, 0);
        lemma_sort_children_total(s);
        assert forall|j: int| 0 <= j < n implies (#[trigger] s[j]).0.minutes() == minutes_total(
            child_group(files, base, keys[j]),
        ) by {
            let c = keys[j];
            let k = base.push(c);
            let g = child_group(files, base, c);
            lemma_probe_fits_at(files, base, probe, 0, j as nat);
            lemma_child_measure(files, base, j as nat);
            assert(s[j] == child_entry(files, base, probe, j as nat));
            assert(probe_fits_at(files, base, probe, j as nat));
            if probe(seq![j as nat]) {
                assert(g.drop_last().len() == 0);
                assert(minutes_total(g.drop_last()) == 0);
                assert(g.last() == g[0]);
            } else {
                lemma_group_members(files, base, c);
                lemma_group_prefix_free(files, base, c);
                assert forall|t: int| 0 <= t < g.len() implies starts_with(#[trigger] g[t].path, k) by {
                    assert(g[t].path.take(k.len() as int) =~= k);
                }
                lemma_tree_total_counts_every_file(g, k, probe_below(probe, j as nat));
            }
        }
        assert forall|j: int| 0 <= j <= n implies children_total(#[trigger] s.take(j)) == groups_total(
            files,
            base,
            keys.take(j),
        ) by {
            lemma_children_prefix_total(files, base, s, keys, j);
        }
        assert(s.take(n as int) =~= s);
        assert(keys.take(n as int) =~= keys);
    }
}

/// Every answered child path strictly below `base` is the path of a listed
/// file.
pub open spec fn answers_listed(
    files: Seq<FileEntry>,
    base: Seq<Seq<char>>,
    paths: Seq<Seq<Seq<char>>>,
) -> bool {
    forall|p: Seq<Seq<char>>|
        #[trigger] paths.contains(p) && strictly_under(p, base) ==> exists|j: int|
            0 <= j < files.len() && files[j].path == p
}

proof fn lemma_in_group(files: Seq<FileEntry>, base: Seq<Seq<char>>, c: Seq<char>, j: int)
    requires
        0 <= j < files.len(),
        strictly_under(files[j].path, base),
        files[j].path[base.len() as int] == c,
    ensures
        child_group(files, base, c).contains(files[j]),
    decreases files.len(),
{
    let fl = files.drop_last();
    let g = child_group(fl, base, c);
    if j < files.len() - 1 {
        assert(fl[j] == files[j]);
        lemma_in_group(fl, base, c, j);
        let u = choose|u: int| 0 <= u < g.len() && g[u] == files[j];
        assert(child_group(files, base, c).len() >= g.len());
        assert(child_group(files, base, c)[u] == files[j]);
    } else {
        let gg = g.push(files[j]);
        assert(gg[g.len() as int] == files[j]);
    }
}

proof fn lemma_probe_fits_from_all(
    files: Seq<FileEntry>,
    base: Seq<Seq<char>>,
    probe: spec_fn(Seq<nat>) -> bool,
    i: nat,
)
    requires
        forall|j: nat| i <= j < child_keys(files, base).len() ==> #[trigger] probe_fits_at(files, base, probe, j),
    ensures
        probe_fits_from(files, base, probe, i),
    decreases child_keys(files, base).len() - i,
{
    if i < child_keys(files, base).len() {
        lemma_probe_fits_from_all(files, base, probe, i + 1);
        assert(probe_fits_at(files, base, probe, i));
    }
}

/// Whether answers fit depends only on the answers at nonempty positions.
proof fn lemma_probe_fits_frame(
    files: Seq<FileEntry>,
    base: Seq<Seq<char>>,
    p1: spec_fn(Seq<nat>) -> bool,
    p2: spec_fn(Seq<nat>) -> bool,
)
    requires
        forall|q: Seq<nat>| q.len() > 0 ==> p1(q) == p2(q),
        probe_fits(files, base, p1),
    ensures
        probe_fits(files, base, p2),
{
    let n = child_keys(files, base).len();
    assert forall|j: nat| 0 <= j < n implies #[trigger] probe_fits_at(files, base, p2, j) by {
        lemma_probe_fits_at(files, base, p1, 0, j);
        let q0: Seq<nat> = seq![j];
        assert(q0.len() > 0);
        assert forall|q: Seq<nat>| #[trigger] probe_below(p1, j)(q) == probe_below(p2, j)(q) by {
            let r: Seq<nat> = seq![j] + q;
            assert(r.len() > 0);
        }
        assert(probe_below(p1, j) =~= probe_below(p2, j));
    }
    lemma_probe_fits_from_all(files, base, p2, 0);
}

/// Answers that name only paths of listed files fit, when no path of one
/// listed file starts with that of another.
proof fn lemma_listed_answers_fit(files: Seq<FileEntry>, base: Seq<Seq<char>>, paths: Seq<Seq<Seq<char>>>)
    requires
        prefix_free(files),
        answers_listed(files, base, paths),
    ensures
        probe_fits(files, base, probe_from_paths(files, base, paths)),
    decreases tree_measure(files, base),
{
    let probe = probe_from_paths(files, base, paths);
    let keys = child_keys(files, base);
    assert forall|i: nat| 0 <= i < keys.len() implies #[trigger] probe_fits_at(files, base, probe, i) by {
        let c = keys[i as int];
        let k = base.push(c);
        let g = child_group(files, base, c);
        lemma_child_measure(files, base, i);
        lemma_probe_from_paths_child(files, base, paths, i);
        lemma_group_members(files, base, c);
        lemma_group_prefix_free(files, base, c);
        lemma_group_contained(files, base, c);
        lemma_keys_have_groups(files, base, i as int);
        assert(k.take(base.len() as int) =~= base);
        assert(strictly_under(k, base));
        assert forall|t: int| 0 <= t < g.len() implies starts_with(#[trigger] g[t].path, k) by {
            assert(g[t].path.take(k.len() as int) =~= k);
        }
        if probe(seq![i]) {
            assert(paths.contains(k));
            let j = choose|j: int| 0 <= j < files.len() && files[j].path == k;
            assert(files[j].path[base.len() as int] == c);
            lemma_in_group(files, base, c, j);
            let u = choose|u: int| 0 <= u < g.len() && g[u] == files[j];
            if g.len() > 1 {
                let t = if u == 0 { 1int } else { 0int };
                assert(starts_with(g[t].path, k));
                assert(!starts_with(g[t].path, g[u].path));
            }
            assert(g.len() == 1 && g[0].path == k);
        }
        assert forall|p: Seq<Seq<char>>|
            #[trigger] paths.contains(p) && strictly_under(p, k) implies exists|j: int|
                0 <= j < g.len() && g[j].path == p by {
            assert(p.take(base.len() as int) =~= k.take(base.len() as int));
            assert(p.take(k.len() as int)[base.len() as int] == p[base.len() as int]);
            assert(strictly_under(p, base));
            let j = choose|j: int| 0 <= j < files.len() && files[j].path == p;
            lemma_in_group(files, base, c, j);
            let u = choose|u: int| 0 <= u < g.len() && g[u] == files[j];
            assert(g[u].path == p);
        }
        lemma_listed_answers_fit(g, k, paths);
        lemma_probe_fits_frame(g, k, probe_from_paths(g, k, paths), probe_below(probe, i));
    }
    lemma_probe_fits_from_all(files, base, probe, 0);
}

/// A file system that holds the listed files answers "file" only for paths
/// where a listed file stands. When no path of one listed file starts with
/// that of another, such answers make no difference to the tree: it is the
/// tree built with no path answered as a file. Its total is then the reading
/// time of the single file at `base` where there is one, and otherwise the
/// sum of the reading times of the files strictly below `base`.
pub proof fn lemma_listed_answers(files: Seq<FileEntry>, base: Seq<Seq<char>>, paths: Seq<Seq<Seq<char>>>)
    requires
        prefix_free(files),
        answers_listed(files, base, paths),
    ensures
        tree_spec_by_path(files, base, paths) == tree_spec_by_path(files, base, Seq::empty()),
        tree_spec_by_path(files, base, paths).minutes() == if files.len() == 1 && files[0].path
            == base {
            files[0].minutes
        } else {
            under_total(files, base)
        },
{
    let none = Seq::<Seq<Seq<char>>>::empty();
    lemma_listed_answers_fit(files, base, paths);
    lemma_listed_answers_fit(files, base, none);
    lemma_fitting_probes_agree(
        files,
        base,
        probe_from_paths(files, base, paths),
        probe_from_paths(files, base, none),
    );
    lemma_tree_total(files, base, probe_from_paths(files, base, paths));
}

/// A text comes before every longer text that starts with it.
pub proof fn lemma_text_lt_prefix(a: Seq<char>, b: Seq<char>)
    requires
        a.len() < b.len(),
        b.take(a.len() as int) == a,
    ensures
        text_lt(a, b),
    decreases a.len(),
{
    if a.len() > 0 {
        assert(b[0] == b.take(a.len() as int)[0]);
        assert(b.drop_first().take(a.drop_first().len() as int) =~= a.drop_first()) by {
            assert forall|k: int| 0 <= k < a.len() - 1 implies b.drop_first()[k] == a.drop_first()[k] by {
                assert(b.take(a.len() as int)[k + 1] == b[k + 1]);
            }
        }
        lemma_text_lt_prefix(a.drop_first(), b.drop_first());
    }
}

/// Two texts that agree up to index `i` and differ there are ordered by
/// their characters at `i`, whatever follows.
pub proof fn lemma_text_lt_first_difference(a: Seq<char>, b: Seq<char>, i: int)
    requires
        0 <= i < a.len(),
        i < b.len(),
        a.take(i) == b.take(i),
        a[i] != b[i],
    ensures
        text_lt(a, b) == ((a[i] as u32) < (b[i] as u32)),
    decreases i,
{
    if i > 0 {
        assert(a[0] == a.take(i)[0] && b[0] == b.take(i)[0]);
        let a1 = a.drop_first();
        let b1 = b.drop_first();
        assert(a1.take(i - 1) =~= b1.take(i - 1)) by {
            assert forall|k: int| 0 <= k < i - 1 implies a1[k] == b1[k] by {
                assert(a.take(i)[k + 1] == b.take(i)[k + 1]);
                assert(a1[k] == a[k + 1] && b1[k] == b[k + 1]);
                assert(a.take(i)[k + 1] == a[k + 1] && b.take(i)[k + 1] == b[k + 1]);
            }
        }
        lemma_text_lt_first_difference(a1, b1, i - 1);
    }
}

/// Of two different texts, exactly one comes before the other.
pub proof fn lemma_text_lt_total(a: Seq<char>, b: Seq<char>)
    ensures
        a != b ==> (text_lt(a, b) || text_lt(b, a)),
        !(text_lt(a, b) && text_lt(b, a)),
    decreases a.len(),
{
    if a.len() > 0 && b.len() > 0 && a[0] == b[0] {
        lemma_text_lt_total(a.drop_first(), b.drop_first());
        if a.drop_first() == b.drop_first() {
            assert(a =~= seq![a[0]] + a.drop_first());
            assert(b =~= seq![b[0]] + b.drop_first());
        }
    } else if a.len() == 0 && b.len() == 0 {
        assert(a =~= b);
    } else if a.len() > 0 && b.len() > 0 {
        let x = a[0];
        let y = b[0];
        vstd::utf8::char_u32_cast(x, x as u32);
        vstd::utf8::char_u32_cast(y, y as u32);
        assert((x as u32) != (y as u32));
    }
}

/// In a consistent tree, the children of a directory of the same kind come in
/// strictly ascending order of their whole names, unless the names are equal.
pub proof fn lemma_children_names_ascend(t: TreeModel, i: int, j: int)
    requires
        tree_consistent(t),
        t is Directory,
        0 <= i < j < t->children.len(),
        t->children[i].is_dir() == t->children[j].is_dir(),
        t->children[i].name() != t->children[j].name(),
    ensures
        text_lt(t->children[i].name(), t->children[j].name()),
{
    let cs = t->children;
    assert(nodes_in_order(cs));
    assert(!text_lt(cs[j].name(), cs[i].name()));
    lemma_text_lt_total(cs[i].name(), cs[j].name());
}

} // verus!
