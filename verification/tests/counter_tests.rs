use readtime::counter::{count_markdown_words, count_plain_words, count_words};

fn path(parts: &[&str]) -> Vec<String> {
    parts.iter().map(|p| p.to_string()).collect()
}

#[test]
fn test_plain_words() {
    assert_eq!(count_plain_words("hello world"), 2);
    assert_eq!(count_plain_words("  hello   world  "), 2);
    assert_eq!(count_plain_words(""), 0);
    assert_eq!(count_plain_words("one two three four"), 4);
}

#[test]
fn test_markdown_headings() {
    assert_eq!(count_markdown_words("# Hello World"), 2);
    assert_eq!(count_markdown_words("## Hello World"), 2);
    assert_eq!(count_markdown_words("### Hello World"), 2);
}

#[test]
fn test_markdown_code_blocks() {
    let text = "Some text\n```\ncode here\n```\nmore text";
    assert_eq!(count_markdown_words(text), 4); // "Some text more text"
}

#[test]
fn test_markdown_inline_code() {
    assert_eq!(count_markdown_words("Some `code` here"), 2); // "Some here"
}

#[test]
fn test_markdown_links() {
    assert_eq!(count_markdown_words("[click here](http://example.com)"), 2); // "click here"
    assert_eq!(count_markdown_words("Visit [my site](url) today"), 4); // "Visit my site today"
}

#[test]
fn test_markdown_mixed() {
    let text = r#"# Title

Some introduction text.

## Section

Here is [a link](http://example.com) and some `code`.

```rust
fn main() {}
```

Final paragraph."#;

    let word_count = count_markdown_words(text);
    // Should count: Title, Some, introduction, text, Section, Here, is, a, link, and, some, Final, paragraph
    // = 13 words (excluding code block and inline code)
    assert!((10..=15).contains(&word_count), "Word count was {}", word_count);
}

#[test]
fn plain_words_split_at_unicode_whitespace() {
    assert_eq!(count_plain_words("a\tb\nc\r\nd"), 4);
    assert_eq!(count_plain_words("a\u{00A0}b\u{3000}c"), 3);
    assert_eq!(count_plain_words("\u{2003}\u{2003}"), 0);
    assert_eq!(count_plain_words("naïve café"), 2);
}

#[test]
fn markdown_without_marks_counts_as_plain_text() {
    let text = "Plain words, with punctuation (and parentheses) only.\nSecond line here";
    assert_eq!(count_markdown_words(text), count_plain_words(text));
    assert_eq!(count_markdown_words(text), 10);
}

#[test]
fn markdown_mixed_counts_exactly() {
    let text = "# Title\n\nSome introduction text.\n\n## Section\n\nHere is [a link](http://example.com) and some `code`.\n\n```rust\nfn main() {}\n```\n\nFinal paragraph.";
    assert_eq!(count_markdown_words(text), 14);
}

#[test]
fn markdown_edge_cases() {
    // A bracket without a closing bracket keeps its text.
    assert_eq!(count_markdown_words("[unclosed text here"), 3);
    // A bracketed text not followed by a link keeps its brackets.
    assert_eq!(count_markdown_words("[not a link] after"), 4);
    // A link whose url is never closed drops the rest.
    assert_eq!(count_markdown_words("see [text](unclosed url goes on"), 2);
    // A hash in the middle of a line is kept.
    assert_eq!(count_markdown_words("issue #42 here"), 3);
    // Two backticks stand for one backtick that is kept.
    assert_eq!(count_markdown_words("a `` b"), 3);
    // Tilde fences open and close code blocks too.
    assert_eq!(count_markdown_words("x\n~~~\nhidden words\n~~~\ny"), 2);
    // An unclosed fence hides everything after it.
    assert_eq!(count_markdown_words("before\n```\nnever closed"), 1);
    // Headings after a line break lose their marks and the space after.
    assert_eq!(count_markdown_words("Intro\n## Part two"), 3);
    // A heading mark alone is dropped.
    assert_eq!(count_markdown_words("#"), 0);
}

#[test]
fn count_words_reads_markdown_by_extension() {
    let text = "Some `code` here";
    assert_eq!(count_words(&path(&["docs", "a.md"]), text), 2);
    assert_eq!(count_words(&path(&["docs", "a.markdown"]), text), 2);
    assert_eq!(count_words(&path(&["docs", "a.txt"]), text), 3);
    assert_eq!(count_words(&path(&["docs", "md"]), text), 3);
    assert_eq!(count_words(&path(&["docs", ".md"]), text), 3);
}

#[test]
fn markdown_without_links_never_adds_words() {
    let samples = [
        "# Heading\nword`code`word ~~ more",
        "a~b ~~~ fenced ~~~ c",
        "##no space\n### spaced",
        "x`y`z and ``double`` ticks",
        "plain words only",
    ];
    for text in samples {
        assert!(count_markdown_words(text) <= count_plain_words(text), "{}", text);
    }
    // Dropping marks between letters keeps one word.
    assert_eq!(count_markdown_words("a~b"), 1);
    assert_eq!(count_markdown_words("x`y`z"), 1);
    // With a link, a space is added, so the law needs the text without `[`.
    assert_eq!(count_markdown_words("[a](u)b"), 2);
    assert_eq!(count_plain_words("[a](u)b"), 1);
}

#[test]
fn whitespace_is_the_unicode_white_space_set() {
    assert_eq!(count_plain_words("a\u{0B}b\u{0C}c\u{85}d\u{A0}e\u{1680}f\u{2009}g\u{202F}h\u{205F}i\u{3000}j"), 10);
    assert_eq!(count_plain_words("a\u{200B}b"), 1);
    assert_eq!(count_plain_words("a\u{2028}b\u{2029}c"), 3);
    assert_eq!(count_plain_words("a\u{180E}b"), 1);
}

#[test]
fn fenced_block_adds_no_words() {
    let a = "intro words here";
    let c = "after text";
    for fence in ["```", "~~~"] {
        let text = format!("{a}\n{fence}\nlet x = [1, 2]; # not a heading\n{fence}\n{c}");
        assert_eq!(count_markdown_words(&text), count_plain_words(a) + count_plain_words(c));
        assert_eq!(count_markdown_words(&text), 5);
    }
}

#[test]
fn inline_code_adds_no_words() {
    let text = "one two `code [here] #x` three";
    assert_eq!(count_markdown_words(text), 3);
    assert_eq!(count_markdown_words(text), count_plain_words("one two") + count_plain_words("three"));
}

#[test]
fn link_counts_its_text_not_its_target() {
    let text = "see [the `full` docs](http://x.y/a b c) now";
    assert_eq!(count_markdown_words(text), 5);
    assert_eq!(
        count_markdown_words(text),
        count_plain_words("see") + count_plain_words("the `full` docs") + count_plain_words("now")
    );
}

#[test]
fn plain_word_counts_add_up_across_a_space() {
    let pairs = [("hello world", "again"), ("", "x y"), ("a ", " b"), ("ab", "cd"), ("", "")];
    for (a, b) in pairs {
        let spaced = format!("{a} {b}");
        assert_eq!(count_plain_words(&spaced), count_plain_words(a) + count_plain_words(b));
        let joined = format!("{a}{b}");
        assert!(count_plain_words(&joined) <= count_plain_words(a) + count_plain_words(b));
    }
    assert_eq!(count_plain_words("abcd"), 1);
}
