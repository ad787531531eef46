use tolearn_core::export::escape::{headed, info, local, numbered, opened, ruled, titled};
use tolearn_core::export::lines::{flat, label, longest, spanned, Doc};
use tolearn_core::export::prose::prose;
use tolearn_core::export::anchors::{slug, Anchors};

#[test]
fn titled_drops_closing_marks() {
    assert_eq!(titled("Intro."), "Intro");
    assert_eq!(titled("Итоги！"), "Итоги");
    assert_eq!(titled("C#"), "C#");
}

#[test]
fn titled_escapes_a_closing_run_of_hashes() {
    assert_eq!(titled("Title #"), "Title \\#");
    assert_eq!(titled("#"), "\\#");
}

#[test]
fn headed_wants_one_to_six_marks_and_a_blank() {
    assert!(headed("# x"));
    assert!(headed("##"));
    assert!(!headed("#x"));
    assert!(!headed("####### x"));
}

#[test]
fn ruled_wants_three_of_one_mark() {
    assert!(ruled("- - -"));
    assert!(ruled("___"));
    assert!(!ruled("--"));
    assert!(!ruled("*-*"));
}

#[test]
fn numbered_reads_an_ordered_item() {
    assert_eq!(numbered("12. x"), Some((2, 12)));
    assert_eq!(numbered("1)"), Some((1, 1)));
    assert_eq!(numbered("1.x"), None);
    assert_eq!(numbered("1234567890. x"), None);
}

#[test]
fn info_keeps_plain_language_names() {
    assert_eq!(info(Some("rust")), "rust");
    assert_eq!(info(Some("c++")), "c++");
    assert_eq!(info(Some("Rust")), "text");
    assert_eq!(info(None), "text");
}

#[test]
fn local_escapes_by_bytes() {
    assert_eq!(local("a b(c).png"), "a%20b%28c%29.png");
    assert_eq!(local("x\u{85}"), "x%C2%85");
    assert_eq!(local("plain/path.svg"), "plain/path.svg");
}

#[test]
fn opened_keeps_text_from_opening_a_block() {
    assert_eq!(opened("# x"), "\\# x");
    assert_eq!(opened("- x"), "\\- x");
    assert_eq!(opened("1. x"), "1\\. x");
    assert_eq!(opened("> q"), "\\> q");
    assert_eq!(opened("plain"), "plain");
}

#[test]
fn flat_links_addresses_outside_code() {
    assert_eq!(flat("see  https://a.b/c.\n next"), "see <https://a.b/c>. next");
    assert_eq!(flat("`code https://x` https://y"), "`code https://x` <https://y>");
    assert_eq!(flat("[a](https://x)"), "[a](https://x)");
}

#[test]
fn label_escapes_brackets_and_backslashes() {
    assert_eq!(label("a [b]  \\c"), "a \\[b\\] \\\\c");
}

#[test]
fn spans_and_runs_of_backticks() {
    assert_eq!(longest("a```b``"), 3);
    assert_eq!(longest("none"), 0);
    assert_eq!(spanned("a`b"), "``a`b``");
    assert_eq!(spanned("`x"), "`` `x ``");
    assert_eq!(spanned("a\nb"), "`a b`");
}

#[test]
fn doc_puts_blocks_a_blank_line_apart() {
    let mut doc = Doc::default();
    doc.heading(2, "Title.");
    doc.line("text");
    doc.bullets(&["- a".to_string()]);
    doc.numbered(&["a".to_string(), "b".to_string()]);
    assert_eq!(doc.text(), "## Title\n\ntext\n\n- \\- a\n\n1. a\n2. b\n");
}

#[test]
fn doc_skips_empty_headings_and_lists() {
    let mut doc = Doc::default();
    doc.heading(1, "...");
    doc.raw(Vec::new());
    doc.line("x");
    assert_eq!(doc.text(), "x\n");
}

#[test]
fn prose_keeps_lines() {
    assert_eq!(prose("Hello\nworld", 2), vec!["Hello", "world"]);
}

#[test]
fn prose_moves_headings_to_depth() {
    assert_eq!(prose("# Head\ntext", 3), vec!["### Head", "", "text"]);
}

#[test]
fn prose_keeps_fences_whole() {
    assert_eq!(
        prose("```rust\nlet x = 1;\n```", 2),
        vec!["```rust", "let x = 1;", "```"]
    );
    assert_eq!(prose("~~~\na ``` b\n~~~", 2), vec!["````text", "a ``` b", "````"]);
}

#[test]
fn prose_opens_lists_after_a_blank() {
    assert_eq!(prose("Intro\n- a\n* b", 2), vec!["Intro", "", "- a", "- b"]);
}

#[test]
fn prose_escapes_accidental_blocks() {
    assert_eq!(prose("2. x", 2), vec!["2\\. x"]);
    assert_eq!(prose("===", 2), vec!["\\==="]);
}

#[test]
fn slugs_of_headings() {
    assert_eq!(slug("Hello, World!"), "hello-world");
    assert_eq!(slug("  "), "section");
    assert_eq!(slug("Ünïcode Ÿ"), "ünïcode-ÿ");
}

#[test]
fn anchors_are_numbered_when_taken_again() {
    let mut anchors = Anchors::default();
    assert_eq!(anchors.take("A b"), "a-b");
    assert_eq!(anchors.take("a b"), "a-b-1");
    assert_eq!(anchors.take("A-B"), "a-b-2");
    assert_eq!(anchors.take("Other"), "other");
}

#[test]
fn files_and_folders_are_numbered_from_one() {
    assert_eq!(tolearn_core::export::file(0, "intro"), "01-intro.md");
    assert_eq!(tolearn_core::export::file(11, "x"), "12-x.md");
    assert_eq!(tolearn_core::export::folder(2, "child"), "03-child");
}

#[test]
fn flat_text_is_one_line() {
    assert_eq!(flat("  one\n two\t\tthree \r\n"), "one two three");
    assert!(!flat("a\nb https://x.org/\nc").contains('\n'));
}

#[test]
fn a_carriage_return_at_the_very_end_stays() {
    let lines = |s: &str| {
        tolearn_core::text::lines_of(&s.chars().collect::<Vec<char>>())
            .into_iter()
            .map(|l| l.into_iter().collect::<String>())
            .collect::<Vec<String>>()
    };
    assert_eq!(lines("a\r"), vec!["a\r"]);
    assert_eq!(lines("a\r\nb\r"), vec!["a", "b\r"]);
    assert_eq!(lines("a\r\n"), vec!["a"]);
}

#[test]
fn local_links_read_back_to_the_bytes_of_the_path() {
    let path = "é a\u{85}%.png";
    let link = local(path);
    assert_eq!(link, "é%20a%C2%85%25.png");
    let mut bytes: Vec<u8> = Vec::new();
    let chars: Vec<char> = link.chars().collect();
    let mut i = 0;
    while i < chars.len() {
        if chars[i] == '%' {
            let hex: String = chars[i + 1..i + 3].iter().collect();
            bytes.push(u8::from_str_radix(&hex, 16).unwrap());
            i += 3;
        } else {
            let mut buf = [0u8; 4];
            bytes.extend_from_slice(chars[i].encode_utf8(&mut buf).as_bytes());
            i += 1;
        }
    }
    assert_eq!(bytes, path.as_bytes());
}

#[test]
fn flat_text_made_flat_again_is_unchanged() {
    let once = flat("see  https://x.org/a.\n then `code https://y` and\thttps://z.org/b),");
    assert_eq!(once, "see <https://x.org/a>. then `code https://y` and <https://z.org/b>),");
    assert_eq!(flat(&once), once);
}
