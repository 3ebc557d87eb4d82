//! Rendering a file tree as text: one line per node, with box-drawing
//! connectors, names padded to a column, and reading times right-aligned.

use vstd::prelude::*;
use vstd::string::StrSliceExecFns;
use vstd::string::StringExecFns;
use crate::tree::{Node, TreeModel, node_view, nodes_view, lemma_nodes_view};

verus! {

broadcast use vstd::string::group_string_axioms;

/// The character of a decimal digit.
pub open spec fn digit_char(d: nat) -> char {
    if d == 0 {
        '0'
    } else if d == 1 {
        '1'
    } else if d == 2 {
        '2'
    } else if d == 3 {
        '3'
    } else if d == 4 {
        '4'
    } else if d == 5 {
        '5'
    } else if d == 6 {
        '6'
    } else if d == 7 {
        '7'
    } else if d == 8 {
        '8'
    } else {
        '9'
    }
}

/// The decimal representation of `n`, without leading zeros.
pub open spec fn decimal(n: nat) -> Seq<char>
    decreases n,
{
    if n < 10 {
        seq![digit_char(n)]
    } else {
        decimal(n / 10).push(digit_char(n % 10))
    }
}

/// `n` spaces.
pub open spec fn spaces(n: nat) -> Seq<char> {
    Seq::new(n, |i: int| ' ')
}

/// `s` followed by spaces up to `width` characters.
pub open spec fn pad_right(s: Seq<char>, width: nat) -> Seq<char> {
    if s.len() < width {
        s + spaces((width - s.len()) as nat)
    } else {
        s
    }
}

/// `s` preceded by spaces up to `width` characters.
pub open spec fn pad_left(s: Seq<char>, width: nat) -> Seq<char> {
    if s.len() < width {
        spaces((width - s.len()) as nat) + s
    } else {
        s
    }
}

/// ` min` and a line break.
pub open spec fn min_suffix() -> Seq<char> {
    seq![' ', 'm', 'i', 'n', '\n']
}

/// A reading time in a column of width six, then ` min` and a line break.
pub open spec fn minutes_column(m: nat) -> Seq<char> {
    pad_left(decimal(m), 6) + min_suffix()
}

/// The connector in front of a child: a corner for the last child, a tee for
/// the others.
pub open spec fn connector(is_last: bool) -> Seq<char> {
    if is_last {
        seq!['\u{2514}', '\u{2500}', '\u{2500}', ' ']
    } else {
        seq!['\u{251c}', '\u{2500}', '\u{2500}', ' ']
    }
}

/// What the lines below a child start with: blanks below the last child, a
/// vertical bar below the others.
pub open spec fn continuation(is_last: bool) -> Seq<char> {
    if is_last {
        seq![' ', ' ', ' ', ' ']
    } else {
        seq!['\u{2502}', ' ', ' ', ' ']
    }
}

/// The lines of a node below its parent: its own line (name padded to forty
/// columns, a space and its time), then for a directory those of its
/// children.
pub open spec fn render_node_spec(t: TreeModel, prefix: Seq<char>, is_last: bool) -> Seq<char>
    decreases t,
{
    match t {
        TreeModel::File { name, minutes } => prefix + connector(is_last) + pad_right(name, 40)
            + seq![' '] + minutes_column(minutes),
        TreeModel::Directory { name, children, total } => prefix + connector(is_last) + pad_right(
            name.push('/'),
            40,
        ) + seq![' '] + minutes_column(total) + render_list(
            children,
            prefix + continuation(is_last),
            children.len(),
        ),
    }
}

/// The lines of the first children `cs` of a list of `n` children.
pub open spec fn render_list(cs: Seq<TreeModel>, prefix: Seq<char>, n: nat) -> Seq<char>
    decreases cs,
{
    if cs.len() == 0 {
        Seq::empty()
    } else {
        render_list(cs.drop_last(), prefix, n) + render_node_spec(cs.last(), prefix, cs.len() == n)
    }
}

/// The text of a tree: for a file, its line (name, or `base_name`, padded to
/// fifty columns, a space and its time); for a directory, its name and `/`,
/// the lines of its children, a blank line and its total.
pub open spec fn render_tree_spec(t: TreeModel, base_name: Option<Seq<char>>) -> Seq<char> {
    match t {
        TreeModel::File { name, minutes } => {
            let shown = match base_name {
                Some(b) => b,
                None => name,
            };
            pad_right(shown, 50) + seq![' '] + minutes_column(minutes)
        },
        TreeModel::Directory { name, children, total } => {
            let shown = match base_name {
                Some(b) => b,
                None => name,
            };
            shown + seq!['/', '\n'] + render_list(children, Seq::empty(), children.len()) + seq![
                '\n',
                'T',
                'o',
                't',
                'a',
                'l',
                ':',
                ' ',
            ] + decimal(total) + min_suffix()
        },
    }
}

/// Appends the decimal digits of `n`.
fn push_decimal(out: &mut String, n: usize)
    ensures
        final(out)@ == old(out)@ + decimal(n as nat),
    decreases n,
{
    if n >= 10 {
        push_decimal(out, n / 10);
    }
    let d = n % 10;
    proof {
        reveal_strlit("0");
        reveal_strlit("1");
        reveal_strlit("2");
        reveal_strlit("3");
        reveal_strlit("4");
        reveal_strlit("5");
        reveal_strlit("6");
        reveal_strlit("7");
        reveal_strlit("8");
        reveal_strlit("9");
    }
    if d == 0 {
        out.append("0");
    } else if d == 1 {
        out.append("1");
    } else if d == 2 {
        out.append("2");
    } else if d == 3 {
        out.append("3");
    } else if d == 4 {
        out.append("4");
    } else if d == 5 {
        out.append("5");
    } else if d == 6 {
        out.append("6");
    } else if d == 7 {
        out.append("7");
    } else if d == 8 {
        out.append("8");
    } else {
        out.append("9");
    }
}

/// The number of decimal digits of `n`.
fn decimal_len(n: usize) -> (len: usize)
    ensures
        len == decimal(n as nat).len(),
        1 <= len <= n + 1,
    decreases n,
{
    if n < 10 {
        1
    } else {
        1 + decimal_len(n / 10)
    }
}

/// Appends `n` spaces.
fn push_spaces(out: &mut String, n: usize)
    ensures
        final(out)@ == old(out)@ + spaces(n as nat),
{
    let mut i: usize = 0;
    while i < n
        invariant
            i <= n,
            out@ == old(out)@ + spaces(i as nat),
        decreases n - i,
    {
        proof {
            reveal_strlit(" ");
        }
        out.append(" ");
        assert(spaces((i + 1) as nat) =~= spaces(i as nat).push(' '));
        i = i + 1;
    }
}

/// Appends `s` padded with spaces to `width` characters.
fn push_padded_right(out: &mut String, s: &str, width: usize)
    ensures
        final(out)@ == old(out)@ + pad_right(s@, width as nat),
{
    let len = s.unicode_len();
    out.append(s);
    if len < width {
        push_spaces(out, width - len);
    }
}

/// Appends `n` in a column of width six, then ` min` and a line break.
fn push_minutes_column(out: &mut String, n: usize)
    ensures
        final(out)@ == old(out)@ + minutes_column(n as nat),
{
    let len = decimal_len(n);
    if len < 6 {
        push_spaces(out, 6 - len);
    }
    push_decimal(out, n);
    out.append(" min\n");
    proof {
        reveal_strlit(" min\n");
    }
}

fn render_node(node: &Node, prefix: &String, is_last: bool, output: &mut String)
    ensures
        final(output)@ == old(output)@ + render_node_spec(node@, prefix@, is_last),
    decreases node,
{
    let connector_text = if is_last { "\u{2514}\u{2500}\u{2500} " } else { "\u{251c}\u{2500}\u{2500} " };
    let continuation_text = if is_last { "    " } else { "\u{2502}   " };
    proof {
        reveal_strlit("\u{2514}\u{2500}\u{2500} ");
        reveal_strlit("\u{251c}\u{2500}\u{2500} ");
        reveal_strlit("    ");
        reveal_strlit("\u{2502}   ");
        reveal_strlit(" ");
        reveal_strlit("/");
    }
    assert(connector_text@ == connector(is_last));
    assert(continuation_text@ == continuation(is_last));
    match node {
        Node::File { name, read_time_minutes } => {
            output.append(prefix.as_str());
            output.append(connector_text);
            push_padded_right(output, name.as_str(), 40);
            output.append(" ");
            push_minutes_column(output, *read_time_minutes);
        },
        Node::Directory { name, children, total_read_time_minutes } => {
            output.append(prefix.as_str());
            output.append(connector_text);
            let mut shown = name.clone();
            shown.append("/");
            push_padded_right(output, shown.as_str(), 40);
            output.append(" ");
            push_minutes_column(output, *total_read_time_minutes);
            let mut new_prefix = prefix.clone();
            new_prefix.append(continuation_text);
            let ghost start = output@;
            let ghost cs = nodes_view(children@);
            proof {
                lemma_nodes_view(children@);
            }
            let n = children.len();
            proof {
                assert(decreases_to!(*node => (*node)->children));
                assert(decreases_to!((*node)->children => (*node)->children@));
                assert forall|j: int| 0 <= j < n implies decreases_to!(*node => #[trigger] children@[j]) by {
                    assert(decreases_to!(children@ => children@[j]));
                }
            }
            let mut i: usize = 0;
            while i < n
                invariant
                    i <= n,
                    n == children.len(),
                    cs == nodes_view(children@),
                    cs.len() == n,
                    forall|j: int| 0 <= j < n ==> #[trigger] cs[j] == node_view(children@[j]),
                    forall|j: int| 0 <= j < n ==> decreases_to!(*node => #[trigger] children@[j]),
                    output@ == start + render_list(cs.take(i as int), new_prefix@, n as nat),
                decreases n - i,
            {
                render_node(&children[i], &new_prefix, i == n - 1, output);
                assert(cs.take(i + 1).drop_last() =~= cs.take(i as int));
                assert(cs.take(i + 1).last() == cs[i as int]);
                i = i + 1;
            }
            assert(cs.take(n as int) =~= cs);
        },
    }
}

/// Render the tree to a string: a file as one line, with `base_name` in place
/// of its name when given; a directory as its name, the lines of its
/// children below it, and its total.
pub fn render_tree(node: &Node, base_name: Option<&str>) -> (output: String)
    ensures
        output@ == render_tree_spec(
            node@,
            match base_name {
                Some(b) => Some(b@),
                None => None,
            },
        ),
{
    let mut output = String::new();
    match node {
        Node::File { name, read_time_minutes } => {
            let display_name = match base_name {
                Some(b) => b,
                None => name.as_str(),
            };
            push_padded_right(&mut output, display_name, 50);
            output.append(" ");
            proof {
                reveal_strlit(" ");
            }
            push_minutes_column(&mut output, *read_time_minutes);
        },
        Node::Directory { name, children, total_read_time_minutes } => {
            let display_name = match base_name {
                Some(b) => b,
                None => name.as_str(),
            };
            output.append(display_name);
            output.append("/\n");
            proof {
                reveal_strlit("/\n");
                reveal_strlit("\nTotal: ");
            }
            let prefix = String::new();
            let ghost start = output@;
            let ghost cs = nodes_view(children@);
            proof {
                lemma_nodes_view(children@);
            }
            let n = children.len();
            let mut i: usize = 0;
            while i < n
                invariant
                    i <= n,
                    n == children.len(),
                    cs == nodes_view(children@),
                    cs.len() == n,
                    prefix@ == Seq::<char>::empty(),
                    forall|j: int| 0 <= j < n ==> #[trigger] cs[j] == node_view(children@[j]),
                    output@ == start + render_list(cs.take(i as int), Seq::empty(), n as nat),
                decreases n - i,
            {
                render_node(&children[i], &prefix, i == n - 1, &mut output);
                assert(cs.take(i + 1).drop_last() =~= cs.take(i as int));
                assert(cs.take(i + 1).last() == cs[i as int]);
                i = i + 1;
            }
            assert(cs.take(n as int) =~= cs);
            output.append("\nTotal: ");
            push_decimal(&mut output, *total_read_time_minutes);
            output.append(" min\n");
            proof {
                reveal_strlit(" min\n");
            }
        },
    }
    output
}

/// In the lines of a list of `n` children, child `i` is drawn with the corner
/// exactly when it is the last, `i == n - 1`, and with a tee otherwise: the
/// lines of the first `i + 1` children are those of the first `i`, then
/// those of child `i`.
pub proof fn lemma_render_list_connectors(cs: Seq<TreeModel>, prefix: Seq<char>, i: int)
    requires
        0 <= i < cs.len(),
    ensures
        render_list(cs.take(i + 1), prefix, cs.len()) == render_list(cs.take(i), prefix, cs.len())
            + render_node_spec(cs[i], prefix, i == cs.len() - 1),
        render_list(cs, prefix, cs.len()) == render_list(cs.drop_last(), prefix, cs.len())
            + render_node_spec(cs.last(), prefix, true),
{
    let t = cs.take(i + 1);
    assert(t.drop_last() =~= cs.take(i));
    assert(t.last() == cs[i]);
    assert(cs.len() > 0);
}

/// Every child's lines start with the prefix and its connector.
pub proof fn lemma_render_node_starts_with_connector(t: TreeModel, prefix: Seq<char>, is_last: bool)
    ensures
        (prefix + connector(is_last)).is_prefix_of(render_node_spec(t, prefix, is_last)),
{
    let pc = prefix + connector(is_last);
    let r = render_node_spec(t, prefix, is_last);
    match t {
        TreeModel::File { name, minutes } => {
            let rest = pad_right(name, 40) + seq![' '] + minutes_column(minutes);
            assert(r =~= pc + rest);
            assert(r.take(pc.len() as int) =~= pc);
        },
        TreeModel::Directory { name, children, total } => {
            let rest = pad_right(name.push('/'), 40) + seq![' '] + minutes_column(total) + render_list(
                children,
                prefix + continuation(is_last),
                children.len(),
            );
            assert(r =~= pc + rest);
            assert(r.take(pc.len() as int) =~= pc);
        },
    }
}

} // verus!
