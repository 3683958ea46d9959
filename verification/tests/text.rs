use octree_art::text::{chars_of, exponent_words, fix_all, fix_line, has_mark, is_whitespace};
use octree_art::text::{join_chars, split_lines, split_words};

fn chars(s: &str) -> Vec<char> {
    s.chars().collect()
}

fn strings(v: &[Vec<char>]) -> Vec<String> {
    v.iter().map(|w| w.iter().collect()).collect()
}

fn render(word: &str) -> Option<String> {
    match word.parse::<f64>() {
        Ok(v) => Some(format!("{}", v)),
        Err(_) => None,
    }
}

fn fix(t: &str) -> String {
    let plain: Vec<Option<String>> = exponent_words(t).iter().map(|w| render(w)).collect();
    fix_all(t, &plain)
}

#[test]
fn whitespace_is_what_the_standard_library_calls_whitespace() {
    for u in 0..=0x10FFFFu32 {
        if let Some(c) = char::from_u32(u) {
            assert_eq!(is_whitespace(c), c.is_whitespace());
        }
    }
}

#[test]
fn characters_of_a_string() {
    assert_eq!(chars_of(""), Vec::<char>::new());
    assert_eq!(chars_of("a b"), vec!['a', ' ', 'b']);
    assert_eq!(chars_of("\u{e9}\u{3000}z"), vec!['\u{e9}', '\u{3000}', 'z']);
}

#[test]
fn words_are_the_runs_between_whitespace() {
    let samples = [
        "",
        " ",
        "a",
        "a b",
        "  a \t b  ",
        "one\ttwo\rthree\u{3000}four",
        "1.0e-4 2.5 -3e5\r",
        "\u{a0}x\u{2003}y\u{85}",
        "trailing ",
        " leading",
    ];
    for s in samples.iter() {
        let expected: Vec<String> = s.split_whitespace().map(|w| w.to_string()).collect();
        assert_eq!(strings(&split_words(&chars(s))), expected);
    }
    assert_eq!(strings(&split_words(&chars("  a \t b  "))), vec!["a", "b"]);
}

#[test]
fn lines_are_what_stands_between_line_feeds() {
    assert_eq!(strings(&split_lines(&chars(""))), Vec::<String>::new());
    assert_eq!(strings(&split_lines(&chars("a"))), vec!["a"]);
    assert_eq!(strings(&split_lines(&chars("a\n"))), vec!["a"]);
    assert_eq!(strings(&split_lines(&chars("a\nb"))), vec!["a", "b"]);
    assert_eq!(strings(&split_lines(&chars("a\n\nb\n"))), vec!["a", "", "b"]);
    assert_eq!(strings(&split_lines(&chars("\n"))), vec![""]);
    assert_eq!(strings(&split_lines(&chars("\n\n"))), vec!["", ""]);
    assert_eq!(strings(&split_lines(&chars("a\r\nb"))), vec!["a\r", "b"]);
    let samples = ["", "a", "a\n", "a\nb", "a\n\nb\n", "\n", "x y\nz\n\n"];
    for s in samples.iter() {
        let expected: Vec<String> = s.lines().map(|l| l.to_string()).collect();
        assert_eq!(strings(&split_lines(&chars(s))), expected);
    }
}

#[test]
fn mark_is_a_small_e() {
    assert!(has_mark(&chars("1e5")));
    assert!(has_mark(&chars("e")));
    assert!(has_mark(&chars("vertex")));
    assert!(has_mark(&chars("abce")));
    assert!(!has_mark(&chars("1E5")));
    assert!(!has_mark(&chars("123.5")));
    assert!(!has_mark(&chars("")));
}

#[test]
fn pieces_are_joined_with_the_separator_between_them() {
    assert_eq!(join_chars(&vec![], ' '), chars(""));
    assert_eq!(join_chars(&vec![chars("a")], ' '), chars("a"));
    assert_eq!(join_chars(&vec![chars("a"), chars("bc")], ' '), chars("a bc"));
    assert_eq!(join_chars(&vec![chars(""), chars(""), chars("x")], '\n'), chars("\n\nx"));
    assert_eq!(join_chars(&vec![chars("x"), chars("")], '\n'), chars("x\n"));
}

#[test]
fn exponent_words_are_the_words_with_an_e_line_by_line() {
    let text = "element vertex 3\nproperty float x\n1.0e-4 2 -3e5\n\n7 1E3 e\n";
    let expected = vec!["element", "vertex", "property", "1.0e-4", "-3e5", "e"];
    assert_eq!(exponent_words(text), expected);
    assert_eq!(exponent_words(""), Vec::<String>::new());
    assert_eq!(exponent_words("1 2 3\n4 5 6"), Vec::<String>::new());
}

#[test]
fn line_without_renderings_has_its_whitespace_made_plain() {
    assert_eq!(fix_line("  a \t b  ", &vec![]), "a b");
    assert_eq!(fix_line("", &vec![]), "");
    assert_eq!(fix_line("   ", &vec![]), "");
    assert_eq!(fix_line("1.5 2.5 3.5\r", &vec![]), "1.5 2.5 3.5");
    assert_eq!(fix_line("1e5 x", &vec![]), "1e5 x");
    assert_eq!(fix_line("1e5 x", &vec![None]), "1e5 x");
}

#[test]
fn renderings_take_the_places_of_the_marked_words_in_their_order() {
    let plain = vec![Some("AA".to_string()), None, Some("CC".to_string()), Some("DD".to_string())];
    assert_eq!(fix_line("1 2e 3 e4 5 ee 6", &plain), "1 AA 3 e4 5 CC 6");
    assert_eq!(fix_line("e", &plain), "AA");
    assert_eq!(fix_line("x y", &plain), "x y");
    assert_eq!(fix_line("e e e e e e", &plain), "AA e CC DD e e");
}

#[test]
fn lines_share_the_renderings_in_their_order() {
    let plain = vec![Some("AA".to_string()), None, Some("CC".to_string()), Some("DD".to_string())];
    assert_eq!(fix_all("1 2e\n3 e4 5\n\nee 6\n", &plain), "1 AA\n3 e4 5\n\nCC 6");
    assert_eq!(fix_all("", &plain), "");
    assert_eq!(fix_all("\n", &plain), "");
    assert_eq!(fix_all("\n\n", &plain), "\n");
    assert_eq!(fix_all("a b\n", &vec![]), "a b");
    assert_eq!(fix_all("x  y\r\n z", &vec![]), "x y\nz");
}

#[test]
fn numbers_with_an_exponent_become_plain_numbers() {
    assert_eq!(fix("1.0e-4 2 3"), "0.0001 2 3");
    assert_eq!(fix("1.5e3 -2.5e1 +1e2"), "1500 -25 100");
    assert_eq!(fix("0 0 1e0"), "0 0 1");
    assert_eq!(fix("1E3"), "1E3");
    assert_eq!(fix("1e-7"), "0.0000001");
}

#[test]
fn words_that_are_no_numbers_stay() {
    let header = "ply\nformat ascii 1.0\nelement vertex 3\nproperty float x\nend_header\n";
    assert_eq!(fix(header), "ply\nformat ascii 1.0\nelement vertex 3\nproperty float x\nend_header");
    assert_eq!(fix("e 1e 1e+ e5 1.e.5"), "e 1e 1e+ e5 1.e.5");
}

#[test]
fn whole_file_is_rewritten_line_by_line() {
    let text = "element face 1\n0 0 0\n1.0e0 0 0\n0 1e+0 2.5e-1\n3 0 1 2\n";
    assert_eq!(fix(text), "element face 1\n0 0 0\n1 0 0\n0 1 0.25\n3 0 1 2");
}

#[test]
fn rewritten_text_is_settled() {
    let samples = [
        "element face 1\n0 0 0\n1.0e0 0 0\n0 1e+0 2.5e-1\n3 0 1 2\n",
        "  1e5   element \t 2.5e-3\r\n\n x  ",
        "",
        "e e e",
    ];
    for t in samples.iter() {
        let once = fix(t);
        assert_eq!(fix(&once), once);
    }
    let plain = vec![Some("100000".to_string()), None];
    let line = fix_line(" 1e5   element ", &plain);
    assert_eq!(line, "100000 element");
    assert_eq!(fix_line(&line, &vec![]), line);
}
