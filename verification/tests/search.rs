use minigrep::lines::split_lines;
use minigrep::substring::{bytes_contain, contains};
use minigrep::{run, search, search_by_keys, Config};

#[test]
fn without_case_every_line_that_holds_the_query_is_found() {
    let contents = "\
Rust:
safe, fast, productive.
duct three.
Duct tape.";
    assert_eq!(
        vec!["safe, fast, productive.", "duct three.", "Duct tape."],
        search("duct", contents, false)
    );
    assert_eq!(
        vec!["duct three.", "Duct tape."],
        search("duct t", contents, false)
    );
}

#[test]
fn case_sensitive() {
    let query = "duct";
    let contents = "\
Rust:
safe, fast, productive.
Duct tape.";
    assert_eq!(
        vec!["safe, fast, productive."],
        search(query, contents, true)
    );
}

#[test]
fn case_sensitive_skips_other_case() {
    let contents = "Rust:\nsafe, fast, productive.\nduct three.\nDuct tape.";
    assert_eq!(
        vec!["safe, fast, productive.", "duct three."],
        search("duct", contents, true)
    );
    assert_eq!(vec!["Duct tape."], search("Duct", contents, true));
}

#[test]
fn upper_case_query_is_folded() {
    let contents = "Rust:\nsafe, fast, productive.\nduct three.\nDuct tape.";
    assert_eq!(
        vec!["safe, fast, productive.", "duct three.", "Duct tape."],
        search("DUCT", contents, false)
    );
    assert_eq!(Vec::<&str>::new(), search("DUCT", contents, true));
}

#[test]
fn empty_query_matches_all_lines() {
    assert_eq!(vec!["a", "b", "c"], search("", "a\nb\nc", true));
    assert_eq!(vec!["a", "b", "c"], search("", "a\nb\nc", false));
    assert_eq!(vec!["a", "", "c"], search("", "a\n\nc\n", true));
}

#[test]
fn no_match_yields_empty_sequence() {
    assert_eq!(Vec::<&str>::new(), search("zzz", "a\nb\nc", true));
    assert_eq!(Vec::<&str>::new(), search("zzz", "a\nb\nc", false));
}

#[test]
fn empty_contents_yield_nothing() {
    assert_eq!(Vec::<&str>::new(), search("a", "", true));
    assert_eq!(Vec::<&str>::new(), search("a", "", false));
    assert_eq!(Vec::<&str>::new(), search("", "", true));
    assert_eq!(Vec::<&str>::new(), search("", "", false));
}

#[test]
fn repeated_search_gives_the_same_lines() {
    let contents = "one duct\ntwo\nDUCT three\n";
    let first = search("duct", contents, false);
    let second = search("duct", contents, false);
    assert_eq!(first, second);
    assert_eq!(vec!["one duct", "DUCT three"], first);
    assert_eq!(search("duct", contents, true), search("duct", contents, true));
}

#[test]
fn found_lines_keep_their_order_and_their_case() {
    let contents = "B duct\na\nA DUCT\nb Duct\nduct";
    assert_eq!(
        vec!["B duct", "A DUCT", "b Duct", "duct"],
        search("dUcT", contents, false)
    );
}

#[test]
fn found_lines_are_slices_of_the_contents() {
    let contents = String::from("first\nsecond duct\nthird");
    let found = search("duct", &contents, true);
    assert_eq!(1, found.len());
    let start = contents.as_ptr() as usize;
    let at = found[0].as_ptr() as usize;
    assert_eq!(start + 6, at);
    assert_eq!(11, found[0].len());
}

#[test]
fn a_query_does_not_match_across_lines() {
    assert_eq!(Vec::<&str>::new(), search("a\nb", "a\nb", true));
    assert_eq!(Vec::<&str>::new(), search("\n", "a\nb\n", true));
    assert_eq!(vec!["ab"], search("ab", "a\nb\nab", true));
}

#[test]
fn query_is_literal_text() {
    let contents = "a.c\nabc\na*c\n(x)";
    assert_eq!(vec!["a.c"], search("a.c", contents, true));
    assert_eq!(vec!["a*c"], search("a*c", contents, true));
    assert_eq!(vec!["(x)"], search("(x)", contents, true));
    assert_eq!(Vec::<&str>::new(), search(".*", contents, true));
}

#[test]
fn text_beyond_ascii_is_searched_by_characters() {
    let contents = "Grüße aus Köln\nÄPFEL und Birnen\nκόσμος\n日本語のテキスト\n";
    assert_eq!(vec!["Grüße aus Köln"], search("üß", contents, true));
    assert_eq!(vec!["ÄPFEL und Birnen"], search("äpfel", contents, false));
    assert_eq!(Vec::<&str>::new(), search("äpfel", contents, true));
    assert_eq!(vec!["κόσμος"], search("ΚΌΣΜΟΣ", contents, false));
    assert_eq!(vec!["日本語のテキスト"], search("語の", contents, true));
    assert_eq!(vec!["日本語のテキスト"], search("語の", contents, false));
}

#[test]
fn part_of_a_character_is_no_match() {
    // 'é' is the bytes c3 a9 and 'é' alone never holds 'Ã' (c3 83) or '©' (c2 a9).
    assert_eq!(Vec::<&str>::new(), search("Ã", "é", true));
    assert_eq!(Vec::<&str>::new(), search("©", "é", true));
    assert!(!contains("é", "©"));
    assert!(contains("aé©", "é©"));
}

#[test]
fn folding_may_change_the_length_of_a_line() {
    // U+0130 lower-cases to two characters.
    let contents = "\u{130}stanbul\nankara";
    assert_eq!(vec!["\u{130}stanbul"], search("stanbul", contents, false));
    assert_eq!(vec!["\u{130}stanbul"], search("\u{130}", contents, false));
    assert_eq!(vec!["ankara"], search("ANKARA", contents, false));
}

#[test]
fn search_by_keys_reads_the_keys_and_returns_the_contents() {
    let contents = "Alpha\nBeta\nGamma";
    let keys = "x\nyes\nyes and no";
    assert_eq!(vec!["Beta", "Gamma"], search_by_keys("yes", contents, keys));
    assert_eq!(vec!["Gamma"], search_by_keys("no", contents, keys));
    assert_eq!(Vec::<&str>::new(), search_by_keys("Alpha", contents, keys));
    assert_eq!(
        vec!["Alpha", "Beta", "Gamma"],
        search_by_keys("", contents, keys)
    );
}

#[test]
fn search_by_keys_with_fewer_or_more_keys() {
    let contents = "one\ntwo\nthree";
    assert_eq!(vec!["one", "two"], search_by_keys("k", contents, "k\nk"));
    assert_eq!(vec!["one"], search_by_keys("", contents, "k"));
    assert_eq!(Vec::<&str>::new(), search_by_keys("", contents, ""));
    assert_eq!(
        vec!["one", "three"],
        search_by_keys("k", contents, "k\nx\nk\nk\nk")
    );
}

#[test]
fn search_by_keys_with_the_contents_as_keys_is_a_case_sensitive_search() {
    let contents = "Rust:\nsafe, fast, productive.\nDuct tape.";
    assert_eq!(
        search("duct", contents, true),
        search_by_keys("duct", contents, contents)
    );
    assert_eq!(
        search("DUCT", contents, false),
        search_by_keys("duct", contents, &contents.to_lowercase())
    );
}

fn std_lines(text: &str) -> Vec<&str> {
    text.lines().collect()
}

#[test]
fn lines_end_at_line_feeds() {
    assert_eq!(vec!["a", "b", "c"], split_lines("a\nb\nc"));
    assert_eq!(vec!["a", "b", "c"], split_lines("a\nb\nc\n"));
    assert_eq!(vec!["a", "", "b"], split_lines("a\n\nb"));
    assert_eq!(vec!["", "a"], split_lines("\na"));
    assert_eq!(vec![""], split_lines("\n"));
    assert_eq!(vec!["", ""], split_lines("\n\n"));
    assert_eq!(vec!["only"], split_lines("only"));
    assert_eq!(Vec::<&str>::new(), split_lines(""));
}

#[test]
fn carriage_return_before_line_feed_ends_the_line() {
    assert_eq!(vec!["a", "b"], split_lines("a\r\nb\r\n"));
    assert_eq!(vec!["a", "b"], split_lines("a\r\nb"));
    assert_eq!(vec!["a\r"], split_lines("a\r"));
    assert_eq!(vec!["a", "b\r"], split_lines("a\nb\r"));
    assert_eq!(vec!["a\rb"], split_lines("a\rb\n"));
    assert_eq!(vec!["a\r"], split_lines("a\r\r\n"));
    assert_eq!(vec!["", ""], split_lines("\r\n\r\n"));
    assert_eq!(vec!["\r"], split_lines("\r"));
}

#[test]
fn lines_are_those_of_the_standard_library() {
    let texts = [
        "",
        "\n",
        "\r",
        "\r\n",
        "\n\r",
        "a",
        "a\n",
        "a\r\n",
        "a\r",
        "a\n\nb",
        "a\r\n\r\nb\r",
        "\r\r\n\n\r\nx\r\ry\n",
        "Rust:\nsafe, fast, productive.\nduct three.\nDuct tape.",
        "Grüße\r\nκόσμος\n日本語\r\n\u{130}\r",
        "\u{85}a\u{2028}b\u{2029}c\u{b}d\u{c}e\n",
        "trailing spaces  \n\ttab\n",
    ];
    for text in texts {
        assert_eq!(std_lines(text), split_lines(text), "lines of {:?}", text);
    }
}

#[test]
fn contains_is_that_of_the_standard_library() {
    let texts = [
        "", "a", "ab", "aab", "abab", "ababc", "aaa", "aaab", "é", "aé", "éa", "©", "日本語", "本",
        "\n", "a\nb", "ß", "üß", "Grüße",
    ];
    for hay in texts {
        for needle in texts {
            assert_eq!(
                hay.contains(needle),
                contains(hay, needle),
                "{:?} in {:?}",
                needle,
                hay
            );
            assert_eq!(
                hay.contains(needle),
                bytes_contain(hay.as_bytes(), needle.as_bytes())
            );
        }
    }
}

#[test]
fn contains_finds_a_needle_wherever_it_stands() {
    assert!(contains("hello world", "hello"));
    assert!(contains("hello world", "o w"));
    assert!(contains("hello world", "world"));
    assert!(contains("hello world", "hello world"));
    assert!(contains("hello world", ""));
    assert!(contains("", ""));
    assert!(!contains("", "a"));
    assert!(!contains("hello world", "hello world!"));
    assert!(!contains("hello world", "World"));
    assert!(!contains("aaab", "aaaa"));
    assert!(contains("aaab", "aab"));
}

#[test]
fn bytes_contain_any_bytes() {
    assert!(bytes_contain(&[0, 255, 128, 7], &[255, 128]));
    assert!(bytes_contain(&[0, 255, 128, 7], &[7]));
    assert!(bytes_contain(&[0, 255, 128, 7], &[]));
    assert!(bytes_contain(&[], &[]));
    assert!(!bytes_contain(&[0, 255, 128, 7], &[128, 255]));
    assert!(!bytes_contain(&[], &[0]));
    assert!(!bytes_contain(&[1, 2], &[1, 2, 3]));
}

#[test]
fn run_searches_as_the_configuration_says() {
    let args = vec![
        "minigrep".to_string(),
        "duct".to_string(),
        "poem.txt".to_string(),
    ];
    let contents = "Rust:\nsafe, fast, productive.\nduct three.\nDuct tape.";
    let with_case = Config::new(&args, false).unwrap();
    assert_eq!(
        vec!["safe, fast, productive.", "duct three."],
        run(&with_case, contents)
    );
    let without_case = Config::new(&args, true).unwrap();
    assert_eq!(
        vec!["safe, fast, productive.", "duct three.", "Duct tape."],
        run(&without_case, contents)
    );
    assert_eq!(Vec::<&str>::new(), run(&with_case, ""));
}
