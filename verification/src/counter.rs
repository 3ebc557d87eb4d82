use vstd::prelude::*;
use crate::path::{extension, path_extension, path_view};

verus! {

broadcast use vstd::string::group_string_axioms;

// ---------------------------------------------------------------------------
// Whitespace and words
// ---------------------------------------------------------------------------

/// The characters with the Unicode `White_Space` property: U+0009..U+000D,
/// U+0020, U+0085, U+00A0, U+1680, U+2000..U+200A, U+2028, U+2029, U+202F,
/// U+205F and U+3000.
pub open spec fn is_white_space(c: char) -> bool {
    let u = c as u32;
    ||| 0x09 <= u <= 0x0D
    ||| u == 0x20
    ||| u == 0x85
    ||| u == 0xA0
    ||| u == 0x1680
    ||| 0x2000 <= u <= 0x200A
    ||| u == 0x2028
    ||| u == 0x2029
    ||| u == 0x202F
    ||| u == 0x205F
    ||| u == 0x3000
}

/// Whether `c` has the Unicode `White_Space` property, as
/// `char::is_whitespace` tells.
fn char_is_whitespace(c: char) -> (r: bool)
    ensures
        r == is_white_space(c),
{
    let u = c as u32;
    (0x09 <= u && u <= 0x0D) || u == 0x20 || u == 0x85 || u == 0xA0 || u == 0x1680 || (0x2000 <= u
        && u <= 0x200A) || u == 0x2028 || u == 0x2029 || u == 0x202F || u == 0x205F || u == 0x3000
}

/// A word starts at index `i` of `s` when `s[i]` is not whitespace and is the
/// first character or follows whitespace.
pub open spec fn starts_word_at(s: Seq<char>, i: int) -> bool {
    &&& !is_white_space(s[i])
    &&& (i == 0 || is_white_space(s[i - 1]))
}

/// The number of words of `s`: its maximal runs of non-whitespace characters,
/// counted by the places where such a run starts.
pub open spec fn word_count(s: Seq<char>) -> nat
    decreases s.len(),
{
    if s.len() == 0 {
        0
    } else {
        word_count(s.drop_last()) + if starts_word_at(s, s.len() - 1) {
            1nat
        } else {
            0nat
        }
    }
}

/// The characters of `text`, in order.
pub fn chars_of(text: &str) -> (chars: Vec<char>)
    ensures
        chars@ == text@,
{
    let mut chars: Vec<char> = Vec::new();
    for c in it: text.chars()
        invariant
            chars@ == it.seq().take(it.index() as int),
    {
        chars.push(c);
    }
    chars
}

/// Counts the words of a sequence of characters.
fn count_words_in(s: &Vec<char>) -> (count: usize)
    ensures
        count == word_count(s@),
{
    let mut count: usize = 0;
    let mut prev_ws = true;
    let mut i: usize = 0;
    while i < s.len()
        invariant
            i <= s.len(),
            count <= i,
            count == word_count(s@.take(i as int)),
            prev_ws == (i == 0 || is_white_space(s@[i - 1])),
        decreases s.len() - i,
    {
        let ws = char_is_whitespace(s[i]);
        if !ws && prev_ws {
            count = count + 1;
        }
        proof {
            let t = s@.take(i + 1);
            assert(t.drop_last() =~= s@.take(i as int));
            assert(t[i as int] == s@[i as int]);
            if i > 0 {
                assert(t[i - 1] == s@[i - 1]);
            }
        }
        prev_ws = ws;
        i = i + 1;
    }
    assert(s@.take(i as int) =~= s@);
    count
}

/// Count words in plain text: the pieces left by splitting it at whitespace.
pub fn count_plain_words(text: &str) -> (count: usize)
    ensures
        count == word_count(text@),
{
    let chars = chars_of(text);
    count_words_in(&chars)
}

// ---------------------------------------------------------------------------
// Markdown
// ---------------------------------------------------------------------------

/// The number of leading characters of `s` that equal `c`.
pub open spec fn run_length(s: Seq<char>, c: char) -> nat
    decreases s.len(),
{
    if s.len() > 0 && s[0] == c {
        1 + run_length(s.drop_first(), c)
    } else {
        0
    }
}

/// The index of the first `c` in `s`, if there is one.
pub open spec fn first_index_of(s: Seq<char>, c: char) -> Option<nat>
    decreases s.len(),
{
    if s.len() == 0 {
        None
    } else if s[0] == c {
        Some(0)
    } else {
        match first_index_of(s.drop_first(), c) {
            Some(i) => Some(i + 1),
            None => None,
        }
    }
}

pub proof fn lemma_run_length_bound(s: Seq<char>, c: char)
    ensures
        run_length(s, c) <= s.len(),
        s.len() > 0 && s[0] == c ==> run_length(s, c) >= 1,
    decreases s.len(),
{
    if s.len() > 0 && s[0] == c {
        lemma_run_length_bound(s.drop_first(), c);
    }
}

pub proof fn lemma_first_index_bound(s: Seq<char>, c: char)
    ensures
        first_index_of(s, c) matches Some(i) ==> i < s.len() && s[i as int] == c,
    decreases s.len(),
{
    if s.len() > 0 && s[0] != c {
        lemma_first_index_bound(s.drop_first(), c);
    }
}

/// What the markdown stripper produces from the rest `s` of the input, in
/// the given code-block and inline-code states, after it has produced `out`.
///
/// - A run of three or more backticks or tildes toggles a fenced code block;
///   a single backtick toggles inline code; both are dropped. A shorter run
///   of other markers stands for its first character alone.
/// - Inside code, everything is dropped.
/// - `[text](url)` becomes `text` and a space; a `[` without a `(` right
///   after its `]` is kept with its text (and the `]` when there is one).
/// - `#` at the start of a line (or of the output) drops with any `#`s
///   that follow it and one space after them.
/// - Every other character is kept.
pub open spec fn strip_markdown_from(s: Seq<char>, code: bool, inline: bool, out: Seq<char>) -> Seq<
    char,
>
    decreases s.len(),
{
    if s.len() == 0 {
        out
    } else {
        let ch = s[0];
        if ch == '`' || ch == '~' {
            let n = run_length(s, ch);
            proof {
                lemma_run_length_bound(s, ch);
            }
            let rest = s.skip(n as int);
            if n >= 3 {
                strip_markdown_from(rest, !code, inline, out)
            } else if n == 1 && ch == '`' {
                strip_markdown_from(rest, code, !inline, out)
            } else if code || inline {
                strip_markdown_from(rest, code, inline, out)
            } else {
                strip_markdown_from(rest, code, inline, out.push(ch))
            }
        } else if code || inline {
            strip_markdown_from(s.drop_first(), code, inline, out)
        } else if ch == '[' {
            let t = s.drop_first();
            match first_index_of(t, ']') {
                None => out + seq!['['] + t,
                Some(k) => {
                    proof {
                        lemma_first_index_bound(t, ']');
                    }
                    let text = t.take(k as int);
                    let after = t.skip(k + 1int);
                    if after.len() > 0 && after[0] == '(' {
                        let u = after.drop_first();
                        match first_index_of(u, ')') {
                            None => out + text + seq![' '],
                            Some(j) => {
                                proof {
                                    lemma_first_index_bound(u, ')');
                                }
                                strip_markdown_from(
                                    u.skip(j + 1int),
                                    code,
                                    inline,
                                    out + text + seq![' '],
                                )
                            },
                        }
                    } else {
                        strip_markdown_from(
                            after,
                            code,
                            inline,
                            out + seq!['['] + text + seq![']'],
                        )
                    }
                },
            }
        } else if ch == '#' && (out.len() == 0 || out.last() == '\n') {
            let t = s.drop_first();
            proof {
                lemma_run_length_bound(t, '#');
            }
            let t2 = t.skip(run_length(t, '#') as int);
            if t2.len() > 0 && t2[0] == ' ' {
                strip_markdown_from(t2.drop_first(), code, inline, out)
            } else {
                strip_markdown_from(t2, code, inline, out)
            }
        } else {
            strip_markdown_from(s.drop_first(), code, inline, out.push(ch))
        }
    }
}

/// The text that remains of markdown `s` once its formatting is stripped.
pub open spec fn strip_markdown(s: Seq<char>) -> Seq<char> {
    strip_markdown_from(s, false, false, Seq::empty())
}

/// The end of the run of `c`s that starts at index `i` of `s`.
fn run_end(s: &Vec<char>, i: usize, c: char) -> (j: usize)
    requires
        i <= s.len(),
    ensures
        i <= j <= s.len(),
        run_length(s@.skip(i as int), c) == j - i,
{
    let mut j = i;
    while j < s.len() && s[j] == c
        invariant
            i <= j <= s.len(),
            run_length(s@.skip(i as int), c) == (j - i) + run_length(s@.skip(j as int), c),
        decreases s.len() - j,
    {
        assert(s@.skip(j as int).drop_first() =~= s@.skip(j + 1));
        j = j + 1;
    }
    j
}

/// The index of the first `c` at or after index `i` of `s`.
fn find_from(s: &Vec<char>, i: usize, c: char) -> (r: Option<usize>)
    requires
        i <= s.len(),
    ensures
        r matches Some(j) ==> i <= j < s.len() && first_index_of(s@.skip(i as int), c) == Some(
            (j - i) as nat,
        ),
        r is None ==> first_index_of(s@.skip(i as int), c) is None,
{
    let mut j = i;
    while j < s.len()
        invariant
            i <= j <= s.len(),
            first_index_of(s@.skip(i as int), c) == (match first_index_of(s@.skip(j as int), c) {
                Some(k) => Some((k + (j - i)) as nat),
                None => None,
            }),
        decreases s.len() - j,
    {
        if s[j] == c {
            return Some(j);
        }
        assert(s@.skip(j as int).drop_first() =~= s@.skip(j + 1));
        j = j + 1;
    }
    None
}

/// Appends `s[from..to]` to `out`.
fn push_range(out: &mut Vec<char>, s: &Vec<char>, from: usize, to: usize)
    requires
        from <= to <= s.len(),
    ensures
        final(out)@ == old(out)@ + s@.subrange(from as int, to as int),
{
    let mut k = from;
    while k < to
        invariant
            from <= k <= to <= s.len(),
            out@ == old(out)@ + s@.subrange(from as int, k as int),
        decreases to - k,
    {
        out.push(s[k]);
        assert(s@.subrange(from as int, k + 1) =~= s@.subrange(from as int, k as int).push(s@[k as int]));
        k = k + 1;
    }
}

/// The text of markdown `s` with its formatting stripped.
pub fn strip_markdown_chars(s: &Vec<char>) -> (cleaned: Vec<char>)
    ensures
        cleaned@ == strip_markdown(s@),
{
    let n = s.len();
    let mut cleaned: Vec<char> = Vec::new();
    let mut in_code_block = false;
    let mut in_inline_code = false;
    let mut i: usize = 0;
    assert(s@.skip(0) =~= s@);
    while i < n
        invariant
            n == s.len(),
            i <= n,
            strip_markdown_from(s@.skip(i as int), in_code_block, in_inline_code, cleaned@)
                == strip_markdown(s@),
        decreases n - i,
    {
        let ghost rest = s@.skip(i as int);
        let ghost cleaned_before = cleaned@;
        let ch = s[i];
        assert(rest[0] == ch);
        if ch == '`' || ch == '~' {
            let j = run_end(s, i, ch);
            proof {
                lemma_run_length_bound(rest, ch);
                assert(rest.skip((j - i) as int) =~= s@.skip(j as int));
            }
            let count = j - i;
            if count >= 3 {
                in_code_block = !in_code_block;
            } else if count == 1 && ch == '`' {
                in_inline_code = !in_inline_code;
            } else if !(in_code_block || in_inline_code) {
                cleaned.push(ch);
            }
            i = j;
        } else if in_code_block || in_inline_code {
            assert(rest.drop_first() =~= s@.skip(i + 1));
            i = i + 1;
        } else if ch == '[' {
            let ghost t = rest.drop_first();
            assert(t =~= s@.skip(i + 1));
            match find_from(s, i + 1, ']') {
                None => {
                    cleaned.push('[');
                    push_range(&mut cleaned, s, i + 1, n);
                    assert(s@.subrange(i + 1, n as int) =~= t);
                    assert(s@.skip(n as int).len() == 0);
                    i = n;
                },
                Some(close) => {
                    let ghost k = (close - (i + 1)) as int;
                    assert(t.take(k) =~= s@.subrange(i + 1, close as int));
                    assert(t.skip(k + 1) =~= s@.skip(close + 1));
                    if close + 1 < n && s[close + 1] == '(' {
                        let ghost u = s@.skip(close + 2);
                        assert(t.skip(k + 1).drop_first() =~= u);
                        push_range(&mut cleaned, s, i + 1, close);
                        cleaned.push(' ');
                        assert(cleaned@ =~= cleaned_before + t.take(k) + seq![' ']);
                        match find_from(s, close + 2, ')') {
                            None => {
                                assert(s@.skip(n as int).len() == 0);
                                i = n;
                            },
                            Some(paren) => {
                                assert(t.skip(k + 1)[0] == s@[close + 1]);
                                assert(u.skip(paren - (close + 2) + 1) =~= s@.skip(paren + 1));
                                i = paren + 1;
                            },
                        }
                    } else {
                        cleaned.push('[');
                        push_range(&mut cleaned, s, i + 1, close);
                        cleaned.push(']');
                        assert(cleaned@ =~= cleaned_before + seq!['['] + t.take(k) + seq![']']);
                        assert(close + 1 < n ==> t.skip(k + 1)[0] == s@[close + 1]);
                        i = close + 1;
                    }
                },
            }
        } else if ch == '#' && (cleaned.len() == 0 || cleaned[cleaned.len() - 1] == '\n') {
            let ghost t = rest.drop_first();
            assert(t =~= s@.skip(i + 1));
            let j = run_end(s, i + 1, '#');
            assert(t.skip((j - (i + 1)) as int) =~= s@.skip(j as int));
            if j < n && s[j] == ' ' {
                assert(s@.skip(j as int).drop_first() =~= s@.skip(j + 1));
                i = j + 1;
            } else {
                i = j;
            }
        } else {
            assert(rest.drop_first() =~= s@.skip(i + 1));
            cleaned.push(ch);
            i = i + 1;
        }
    }
    cleaned
}

/// Count words in markdown, stripping its formatting first.
pub fn count_markdown_words(text: &str) -> (count: usize)
    ensures
        count == word_count(strip_markdown(text@)),
{
    let chars = chars_of(text);
    let cleaned = strip_markdown_chars(&chars);
    count_words_in(&cleaned)
}

// ---------------------------------------------------------------------------
// Files
// ---------------------------------------------------------------------------

/// Whether a path names a markdown file: its extension is `md` or `markdown`.
pub open spec fn is_markdown_path(p: Seq<Seq<char>>) -> bool {
    ||| extension(p) == Some(seq!['m', 'd'])
    ||| extension(p) == Some(seq!['m', 'a', 'r', 'k', 'd', 'o', 'w', 'n'])
}

/// The number of words of the text of a file at path `p`: markdown files are
/// counted once their formatting is stripped, other files as plain text.
pub open spec fn file_word_count(p: Seq<Seq<char>>, content: Seq<char>) -> nat {
    if is_markdown_path(p) {
        word_count(strip_markdown(content))
    } else {
        word_count(content)
    }
}

/// Whether an extension is `md` or `markdown`.
fn is_markdown_extension(e: &String) -> (r: bool)
    ensures
        r == (e@ == seq!['m', 'd'] || e@ == seq!['m', 'a', 'r', 'k', 'd', 'o', 'w', 'n']),
{
    let cs = chars_of(e.as_str());
    if cs.len() == 2 {
        let r = cs[0] == 'm' && cs[1] == 'd';
        if r {
            assert(e@ =~= seq!['m', 'd']);
        }
        proof {
            let md = seq!['m', 'd'];
            if e@ == md {
                assert(cs@[0] == md[0] && cs@[1] == md[1]);
            }
        }
        r
    } else if cs.len() == 8 {
        let r = cs[0] == 'm' && cs[1] == 'a' && cs[2] == 'r' && cs[3] == 'k' && cs[4] == 'd'
            && cs[5] == 'o' && cs[6] == 'w' && cs[7] == 'n';
        let ghost md = seq!['m', 'a', 'r', 'k', 'd', 'o', 'w', 'n'];
        if r {
            assert(e@ =~= md);
        }
        proof {
            if e@ == md {
                assert(cs@[0] == md[0] && cs@[1] == md[1] && cs@[2] == md[2] && cs@[3] == md[3]);
                assert(cs@[4] == md[4] && cs@[5] == md[5] && cs@[6] == md[6] && cs@[7] == md[7]);
            }
        }
        r
    } else {
        false
    }
}

/// Count the words of the text `content` of the file at path `path`: a path
/// with the extension `md` or `markdown` is read as markdown, any other as
/// plain text.
pub fn count_words(path: &Vec<String>, content: &str) -> (count: usize)
    ensures
        count == file_word_count(path_view(path@), content@),
{
    let markdown = match path_extension(path) {
        Some(e) => is_markdown_extension(&e),
        None => false,
    };
    if markdown {
        count_markdown_words(content)
    } else {
        count_plain_words(content)
    }
}

// ---------------------------------------------------------------------------
// Laws
// ---------------------------------------------------------------------------

/// A character that markdown stripping may treat specially.
pub open spec fn is_markdown_mark(c: char) -> bool {
    c == '`' || c == '~' || c == '[' || c == '#'
}

proof fn lemma_strip_plain_from(s: Seq<char>, out: Seq<char>)
    requires
        forall|i: int| 0 <= i < s.len() ==> !is_markdown_mark(#[trigger] s[i]),
    ensures
        strip_markdown_from(s, false, false, out) == out + s,
    decreases s.len(),
{
    if s.len() == 0 {
        assert(out + s =~= out);
    } else {
        let t = s.drop_first();
        assert forall|i: int| 0 <= i < t.len() implies !is_markdown_mark(#[trigger] t[i]) by {
            assert(t[i] == s[i + 1]);
        }
        assert(!is_markdown_mark(s[0]));
        lemma_strip_plain_from(t, out.push(s[0]));
        assert(out.push(s[0]) + t =~= out + s);
    }
}

/// Markdown stripping keeps text without backticks, tildes, brackets or
/// hashes as it is, so such text has as many words as markdown as it has as
/// plain text.
pub proof fn lemma_plain_text_markdown_count(s: Seq<char>)
    requires
        forall|i: int| 0 <= i < s.len() ==> !is_markdown_mark(#[trigger] s[i]),
    ensures
        strip_markdown(s) == s,
        word_count(strip_markdown(s)) == word_count(s),
{
    lemma_strip_plain_from(s, Seq::empty());
    assert(Seq::<char>::empty() + s =~= s);
}

/// Whether `s` ends inside a word.
pub open spec fn ends_in_word(s: Seq<char>) -> bool {
    s.len() > 0 && !is_white_space(s.last())
}

/// The words of `x` are no more than those of `y`, one fewer still where
/// `y` ends inside a word and `x` does not: what holds of the text kept so
/// far and the text read so far while characters are only dropped.
pub open spec fn words_fit(x: Seq<char>, y: Seq<char>) -> bool {
    word_count(x) + (if ends_in_word(y) && !ends_in_word(x) {
        1nat
    } else {
        0nat
    }) <= word_count(y)
}

proof fn lemma_word_count_push(s: Seq<char>, c: char)
    ensures
        word_count(s.push(c)) == word_count(s) + if !is_white_space(c) && !ends_in_word(s) {
            1nat
        } else {
            0nat
        },
{
    let t = s.push(c);
    assert(t.drop_last() =~= s);
    if s.len() > 0 {
        assert(t[t.len() - 2] == s.last());
    }
}

/// Reading one more character, kept or dropped, keeps `words_fit`.
proof fn lemma_words_fit_step(x: Seq<char>, y: Seq<char>, c: char)
    requires
        words_fit(x, y),
    ensures
        words_fit(x, y.push(c)),
        words_fit(x.push(c), y.push(c)),
{
    lemma_word_count_push(x, c);
    lemma_word_count_push(y, c);
    assert(y.push(c).last() == c);
    assert(x.push(c).last() == c);
}

/// Dropping a run of characters keeps `words_fit`.
proof fn lemma_words_fit_drop(x: Seq<char>, y: Seq<char>, z: Seq<char>)
    requires
        words_fit(x, y),
    ensures
        words_fit(x, y + z),
    decreases z.len(),
{
    if z.len() > 0 {
        lemma_words_fit_step(x, y, z[0]);
        lemma_words_fit_drop(x, y.push(z[0]), z.drop_first());
        assert(y.push(z[0]) + z.drop_first() =~= y + z);
    }
}

proof fn lemma_strip_keeps_fit(s: Seq<char>, code: bool, inline: bool, out: Seq<char>, y: Seq<char>)
    requires
        !s.contains('['),
        words_fit(out, y),
    ensures
        words_fit(strip_markdown_from(s, code, inline, out), y + s),
    decreases s.len(),
{
    if s.len() == 0 {
        assert(y + s =~= y);
    } else {
        let ch = s[0];
        if ch == '`' || ch == '~' {
            let n = run_length(s, ch);
            lemma_run_length_bound(s, ch);
            let rest = s.skip(n as int);
            assert(rest.contains('[') ==> s.contains('[')) by {
                if rest.contains('[') {
                    let t = choose|t: int| 0 <= t < rest.len() && rest[t] == '[';
                    assert(s[t + n] == '[');
                }
            }
            assert((y + s.take(n as int)) + rest =~= y + s);
            if n >= 3 || (n == 1 && ch == '`') || code || inline {
                lemma_words_fit_drop(out, y, s.take(n as int));
                lemma_strip_keeps_fit(rest, if n >= 3 { !code } else { code }, if n < 3 && n == 1 && ch
                    == '`' { !inline } else { inline }, out, y + s.take(n as int));
            } else {
                lemma_words_fit_step(out, y, ch);
                lemma_words_fit_drop(out.push(ch), y.push(ch), s.take(n as int).drop_first());
                assert(y.push(ch) + s.take(n as int).drop_first() =~= y + s.take(n as int));
                lemma_strip_keeps_fit(rest, code, inline, out.push(ch), y + s.take(n as int));
            }
        } else if code || inline || (ch == '#' && (out.len() == 0 || out.last() == '\n')) {
            let t = s.drop_first();
            lemma_run_length_bound(t, '#');
            let t2 = t.skip(run_length(t, '#') as int);
            let m: int = if code || inline {
                1
            } else if t2.len() > 0 && t2[0] == ' ' {
                2 + run_length(t, '#') as int
            } else {
                1 + run_length(t, '#') as int
            };
            let rest = s.skip(m);
            assert(rest.contains('[') ==> s.contains('[')) by {
                if rest.contains('[') {
                    let u = choose|u: int| 0 <= u < rest.len() && rest[u] == '[';
                    assert(s[u + m] == '[');
                }
            }
            if !(code || inline) {
                if t2.len() > 0 && t2[0] == ' ' {
                    assert(t2.drop_first() =~= rest);
                } else {
                    assert(t2 =~= rest);
                }
            } else {
                assert(s.drop_first() =~= rest);
            }
            assert((y + s.take(m)) + rest =~= y + s);
            lemma_words_fit_drop(out, y, s.take(m));
            lemma_strip_keeps_fit(rest, code, inline, out, y + s.take(m));
        } else {
            assert(ch != '[');
            let rest = s.drop_first();
            assert(rest.contains('[') ==> s.contains('[')) by {
                if rest.contains('[') {
                    let u = choose|u: int| 0 <= u < rest.len() && rest[u] == '[';
                    assert(s[u + 1] == '[');
                }
            }
            assert(y.push(ch) + rest =~= y + s);
            lemma_words_fit_step(out, y, ch);
            lemma_strip_keeps_fit(rest, code, inline, out.push(ch), y.push(ch));
        }
    }
}

/// Without links, markdown stripping only drops characters, so the stripped
/// text never has more words than the text itself.
pub proof fn lemma_markdown_without_links_adds_no_words(s: Seq<char>)
    requires
        !s.contains('['),
    ensures
        word_count(strip_markdown(s)) <= word_count(s),
{
    let e = Seq::<char>::empty();
    assert(words_fit(e, e));
    lemma_strip_keeps_fit(s, false, false, e, e);
    assert(e + s =~= s);
}

/// Whether `s` starts inside a word.
pub open spec fn starts_in_word(s: Seq<char>) -> bool {
    s.len() > 0 && !is_white_space(s[0])
}

/// The words of `a + b` are those of `a` and of `b`, less one where a word
/// of `a` runs on into one of `b`.
pub proof fn lemma_word_count_concat(a: Seq<char>, b: Seq<char>)
    ensures
        word_count(a + b) + (if ends_in_word(a) && starts_in_word(b) {
            1nat
        } else {
            0nat
        }) == word_count(a) + word_count(b),
    decreases b.len(),
{
    if b.len() == 0 {
        assert(a + b =~= a);
    } else {
        let bl = b.drop_last();
        let c = b.last();
        lemma_word_count_concat(a, bl);
        assert(a + b =~= (a + bl).push(c));
        assert(bl.push(c) =~= b);
        lemma_word_count_push(a + bl, c);
        lemma_word_count_push(bl, c);
        if bl.len() > 0 {
            assert((a + bl).last() == bl.last());
            assert(b[0] == bl[0]);
        } else {
            assert(a + bl =~= a);
            assert(word_count(bl) == 0);
        }
    }
}

/// Plain word counts add up across a space, and a plain concatenation has
/// no more words than its parts.
pub proof fn lemma_word_count_additive(a: Seq<char>, b: Seq<char>)
    ensures
        word_count(a + seq![' '] + b) == word_count(a) + word_count(b),
        word_count(a + b) <= word_count(a) + word_count(b),
{
    lemma_word_count_concat(a, b);
    let a1 = a + seq![' '];
    lemma_word_count_push(a, ' ');
    assert(a.push(' ') =~= a1);
    assert(a1.last() == ' ');
    lemma_word_count_concat(a1, b);
}

/// Whether `s` holds none of the characters that markdown stripping treats
/// specially.
pub open spec fn no_marks(s: Seq<char>) -> bool {
    forall|i: int| 0 <= i < s.len() ==> !is_markdown_mark(#[trigger] s[i])
}

/// Whether `s` holds no backtick and no tilde.
pub open spec fn no_code_marks(s: Seq<char>) -> bool {
    forall|i: int| 0 <= i < s.len() ==> #[trigger] s[i] != '`' && s[i] != '~'
}

/// Outside code, text without marks is kept as it is.
proof fn lemma_strip_plain_prefix(a: Seq<char>, rest: Seq<char>, out: Seq<char>)
    requires
        no_marks(a),
    ensures
        strip_markdown_from(a + rest, false, false, out) == strip_markdown_from(rest, false, false, out + a),
    decreases a.len(),
{
    if a.len() == 0 {
        assert(a + rest =~= rest);
        assert(out + a =~= out);
    } else {
        let t = a.drop_first();
        assert((a + rest)[0] == a[0]);
        assert(!is_markdown_mark(a[0]));
        assert((a + rest).drop_first() =~= t + rest);
        assert(no_marks(t)) by {
            assert forall|i: int| 0 <= i < t.len() implies !is_markdown_mark(#[trigger] t[i]) by {
                assert(t[i] == a[i + 1]);
            }
        }
        lemma_strip_plain_prefix(t, rest, out.push(a[0]));
        assert(out.push(a[0]) + t =~= out + a);
    }
}

/// Inside code, text without backticks or tildes is dropped.
proof fn lemma_strip_code_prefix(b: Seq<char>, rest: Seq<char>, code: bool, inline: bool, out: Seq<char>)
    requires
        code || inline,
        no_code_marks(b),
    ensures
        strip_markdown_from(b + rest, code, inline, out) == strip_markdown_from(rest, code, inline, out),
    decreases b.len(),
{
    if b.len() == 0 {
        assert(b + rest =~= rest);
    } else {
        let t = b.drop_first();
        assert((b + rest)[0] == b[0]);
        assert(b[0] != '`' && b[0] != '~');
        assert((b + rest).drop_first() =~= t + rest);
        assert(no_code_marks(t)) by {
            assert forall|i: int| 0 <= i < t.len() implies #[trigger] t[i] != '`' && t[i] != '~' by {
                assert(t[i] == b[i + 1]);
            }
        }
        lemma_strip_code_prefix(t, rest, code, inline, out);
    }
}

/// A run of exactly `n` characters `ch` followed by another character.
proof fn lemma_run_length_exact(ch: char, n: nat, rest: Seq<char>)
    requires
        rest.len() == 0 || rest[0] != ch,
    ensures
        run_length(Seq::new(n, |i: int| ch) + rest, ch) == n,
    decreases n,
{
    let x = Seq::new(n, |i: int| ch) + rest;
    if n == 0 {
        assert(x =~= rest);
    } else {
        assert(x[0] == ch);
        assert(x.drop_first() =~= Seq::new((n - 1) as nat, |i: int| ch) + rest);
        lemma_run_length_exact(ch, (n - 1) as nat, rest);
    }
}

/// The first `c` of `x + rest` is right after `x`, when `x` holds no `c`
/// and `rest` starts with it.
proof fn lemma_first_index_after(x: Seq<char>, c: char, rest: Seq<char>)
    requires
        forall|i: int| 0 <= i < x.len() ==> #[trigger] x[i] != c,
        rest.len() > 0,
        rest[0] == c,
    ensures
        first_index_of(x + rest, c) == Some(x.len()),
    decreases x.len(),
{
    if x.len() == 0 {
        assert(x + rest =~= rest);
    } else {
        let t = x.drop_first();
        assert((x + rest)[0] == x[0]);
        assert((x + rest).drop_first() =~= t + rest);
        assert forall|i: int| 0 <= i < t.len() implies #[trigger] t[i] != c by {
            assert(t[i] == x[i + 1]);
        }
        lemma_first_index_after(t, c, rest);
    }
}

/// No whitespace ends a word: a text followed by a space or a line break
/// has the words of the text, and what follows adds its own.
proof fn lemma_word_count_separated(a: Seq<char>, sep: char, b: Seq<char>)
    requires
        is_white_space(sep),
    ensures
        word_count(a.push(sep) + b) == word_count(a) + word_count(b),
{
    lemma_word_count_push(a, sep);
    assert(a.push(sep).last() == sep);
    lemma_word_count_concat(a.push(sep), b);
}

proof fn lemma_plain_cat(x: Seq<char>, y: Seq<char>)
    requires
        no_marks(x),
        no_marks(y),
    ensures
        no_marks(x + y),
{
    assert forall|i: int| 0 <= i < (x + y).len() implies !is_markdown_mark(#[trigger] (x + y)[i]) by {
        if i < x.len() {
            assert((x + y)[i] == x[i]);
        } else {
            assert((x + y)[i] == y[i - x.len()]);
        }
    }
}

/// A fenced code block adds no words: between text without marks, a block
/// fenced by three backticks or three tildes on lines of their own counts
/// for nothing, whatever it holds besides backticks and tildes.
pub proof fn lemma_fenced_block_adds_no_words(a: Seq<char>, fence: char, b: Seq<char>, c: Seq<char>)
    requires
        fence == '`' || fence == '~',
        no_marks(a),
        no_marks(c),
        no_code_marks(b),
    ensures
        word_count(
            strip_markdown(
                a + seq!['\n', fence, fence, fence, '\n'] + b + seq!['\n', fence, fence, fence, '\n']
                    + c,
            ),
        ) == word_count(a) + word_count(c),
{
    let nl = seq!['\n'];
    let f = seq![fence, fence, fence];
    let e = Seq::<char>::empty();
    let inner = nl + b + nl;
    let tail2 = nl + c;
    let tail1 = f + tail2;
    let tail0 = f + (inner + tail1);
    let s = a + seq!['\n', fence, fence, fence, '\n'] + b + seq!['\n', fence, fence, fence, '\n'] + c;
    assert(s =~= (a + nl) + tail0);
    assert(no_marks(nl)) by {
        assert forall|i: int| 0 <= i < nl.len() implies !is_markdown_mark(#[trigger] nl[i]) by {}
    }
    lemma_plain_cat(a, nl);
    lemma_strip_plain_prefix(a + nl, tail0, e);
    // the opening fence
    assert(f =~= Seq::new(3, |i: int| fence));
    assert((inner + tail1)[0] == '\n');
    lemma_run_length_exact(fence, 3, inner + tail1);
    assert(tail0[0] == fence);
    assert(tail0.skip(3) =~= inner + tail1);
    let o1 = e + (a + nl);
    assert(strip_markdown_from(tail0, false, false, o1) == strip_markdown_from(inner + tail1, true, false, o1));
    // the block
    assert(no_code_marks(inner)) by {
        assert forall|i: int| 0 <= i < inner.len() implies #[trigger] inner[i] != '`' && inner[i] != '~' by {
            if 0 < i < inner.len() - 1 {
                assert(inner[i] == b[i - 1]);
            }
        }
    }
    lemma_strip_code_prefix(inner, tail1, true, false, o1);
    // the closing fence
    assert(tail2[0] == '\n');
    lemma_run_length_exact(fence, 3, tail2);
    assert(tail1[0] == fence);
    assert(tail1.skip(3) =~= tail2);
    assert(strip_markdown_from(tail1, true, false, o1) == strip_markdown_from(tail2, false, false, o1));
    // the text after it
    lemma_plain_cat(nl, c);
    assert(tail2 + e =~= tail2);
    lemma_strip_plain_prefix(tail2, e, o1);
    assert(o1 + tail2 =~= a.push('\n') + (nl + c));
    lemma_word_count_separated(a, '\n', nl + c);
    assert(nl + c =~= e.push('\n') + c);
    lemma_word_count_separated(e, '\n', c);
}

/// Inline code adds no words: between texts without marks, code in single
/// backticks, set off by spaces, counts for nothing.
pub proof fn lemma_inline_code_adds_no_words(a: Seq<char>, c: Seq<char>, b: Seq<char>)
    requires
        c.len() > 0,
        no_code_marks(c),
        no_marks(a),
        no_marks(b),
    ensures
        word_count(strip_markdown(a + seq![' ', '`'] + c + seq!['`', ' '] + b)) == word_count(a)
            + word_count(b),
{
    let sp = seq![' '];
    let tick = seq!['`'];
    let e = Seq::<char>::empty();
    let tail2 = sp + b;
    let tail1 = tick + tail2;
    let tail0 = tick + (c + tail1);
    let s = a + seq![' ', '`'] + c + seq!['`', ' '] + b;
    assert(s =~= (a + sp) + tail0);
    assert(no_marks(sp)) by {
        assert forall|i: int| 0 <= i < sp.len() implies !is_markdown_mark(#[trigger] sp[i]) by {}
    }
    lemma_plain_cat(a, sp);
    lemma_strip_plain_prefix(a + sp, tail0, e);
    let o1 = e + (a + sp);
    // the opening backtick
    assert(tick =~= Seq::new(1, |i: int| '`'));
    assert((c + tail1)[0] == c[0]);
    lemma_run_length_exact('`', 1, c + tail1);
    assert(tail0[0] == '`');
    assert(tail0.skip(1) =~= c + tail1);
    assert(strip_markdown_from(tail0, false, false, o1) == strip_markdown_from(c + tail1, false, true, o1));
    // the code
    lemma_strip_code_prefix(c, tail1, false, true, o1);
    // the closing backtick
    assert(tail2[0] == ' ');
    lemma_run_length_exact('`', 1, tail2);
    assert(tail1[0] == '`');
    assert(tail1.skip(1) =~= tail2);
    assert(strip_markdown_from(tail1, false, true, o1) == strip_markdown_from(tail2, false, false, o1));
    // the text after it
    lemma_plain_cat(sp, b);
    assert(tail2 + e =~= tail2);
    lemma_strip_plain_prefix(tail2, e, o1);
    assert(o1 + tail2 =~= a.push(' ') + (sp + b));
    lemma_word_count_separated(a, ' ', sp + b);
    assert(sp + b =~= e.push(' ') + b);
    lemma_word_count_separated(e, ' ', b);
}

/// A link counts its text and not its target: between texts without marks,
/// `[t](u)` set off by spaces counts the words of `t` alone.
pub proof fn lemma_link_counts_its_text(a: Seq<char>, t: Seq<char>, u: Seq<char>, b: Seq<char>)
    requires
        forall|i: int| 0 <= i < t.len() ==> #[trigger] t[i] != ']',
        forall|i: int| 0 <= i < u.len() ==> #[trigger] u[i] != ')',
        no_marks(a),
        no_marks(b),
    ensures
        word_count(strip_markdown(a + seq![' ', '['] + t + seq![']', '('] + u + seq![')', ' '] + b))
            == word_count(a) + word_count(t) + word_count(b),
{
    let sp = seq![' '];
    let e = Seq::<char>::empty();
    let tail2 = sp + b;
    let ut = u + (seq![')'] + tail2);
    let after = seq!['('] + ut;
    let tt = t + (seq![']'] + after);
    let tail0 = seq!['['] + tt;
    let s = a + seq![' ', '['] + t + seq![']', '('] + u + seq![')', ' '] + b;
    assert(s =~= (a + sp) + tail0);
    assert(no_marks(sp)) by {
        assert forall|i: int| 0 <= i < sp.len() implies !is_markdown_mark(#[trigger] sp[i]) by {}
    }
    lemma_plain_cat(a, sp);
    lemma_strip_plain_prefix(a + sp, tail0, e);
    let o1 = e + (a + sp);
    // the link
    assert(tail0[0] == '[');
    assert(tail0.drop_first() =~= tt);
    lemma_first_index_after(t, ']', seq![']'] + after);
    lemma_first_index_bound(tt, ']');
    assert(tt.take(t.len() as int) =~= t);
    assert(tt.skip(t.len() + 1int) =~= after);
    assert(after[0] == '(');
    assert(after.drop_first() =~= ut);
    lemma_first_index_after(u, ')', seq![')'] + tail2);
    lemma_first_index_bound(ut, ')');
    assert(ut.skip(u.len() + 1int) =~= tail2);
    let o2 = o1 + t + sp;
    assert(strip_markdown_from(tail0, false, false, o1) == strip_markdown_from(tail2, false, false, o2));
    // the text after it
    lemma_plain_cat(sp, b);
    assert(tail2 + e =~= tail2);
    lemma_strip_plain_prefix(tail2, e, o2);
    assert(o2 + tail2 =~= a.push(' ') + (t.push(' ') + (sp + b)));
    lemma_word_count_separated(a, ' ', t.push(' ') + (sp + b));
    lemma_word_count_separated(t, ' ', sp + b);
    assert(sp + b =~= e.push(' ') + b);
    lemma_word_count_separated(e, ' ', b);
}

/// Outside code, one or two tildes are ordinary text: a single tilde is kept
/// as it is, and a pair stands for one tilde. Neither opens code, so the
/// text after them is kept too.
pub proof fn lemma_short_tilde_runs_are_text(a: Seq<char>, n: nat, b: Seq<char>)
    requires
        1 <= n <= 2,
        no_marks(a),
        no_marks(b),
    ensures
        strip_markdown(a + Seq::new(n, |i: int| '~') + b) == a + seq!['~'] + b,
        word_count(strip_markdown(a + seq!['~'] + b)) == word_count(a + seq!['~'] + b),
{
    let e = Seq::<char>::empty();
    let t = Seq::new(n, |i: int| '~');
    let rest = t + b;
    assert(a + t + b =~= a + rest);
    lemma_strip_plain_prefix(a, rest, e);
    assert(b.len() == 0 || b[0] != '~') by {
        if b.len() > 0 {
            assert(!is_markdown_mark(b[0]));
        }
    }
    lemma_run_length_exact('~', n, b);
    assert(rest[0] == '~');
    assert(rest.skip(n as int) =~= b);
    let o = (e + a).push('~');
    assert(strip_markdown_from(rest, false, false, e + a) == strip_markdown_from(b, false, false, o));
    assert(b + e =~= b);
    lemma_strip_plain_prefix(b, e, o);
    assert(o + b =~= a + seq!['~'] + b);
    if n == 1 {
        assert(t =~= seq!['~']);
    }
    let t1 = Seq::new(1nat, |i: int| '~');
    assert(t1 =~= seq!['~']);
    lemma_run_length_exact('~', 1, b);
    let r1 = t1 + b;
    assert(a + seq!['~'] + b =~= a + r1);
    lemma_strip_plain_prefix(a, r1, e);
    assert(r1[0] == '~');
    assert(r1.skip(1) =~= b);
}

/// A file is counted as markdown exactly when its extension is `md` or
/// `markdown`; with any other extension, or none, its text is counted as
/// plain words.
pub proof fn lemma_count_by_extension(p: Seq<Seq<char>>, content: Seq<char>)
    ensures
        extension(p) == Some(seq!['m', 'd']) || extension(p) == Some(
            seq!['m', 'a', 'r', 'k', 'd', 'o', 'w', 'n'],
        ) ==> file_word_count(p, content) == word_count(strip_markdown(content)),
        !(extension(p) == Some(seq!['m', 'd']) || extension(p) == Some(
            seq!['m', 'a', 'r', 'k', 'd', 'o', 'w', 'n'],
        )) ==> file_word_count(p, content) == word_count(content),
{
}

} // verus!
