use logcompress::lines::split_lines;
use logcompress::text::is_blank;

#[test]
fn split_lines_matches_std_lines() {
    let inputs = [
        "",
        "a",
        "a\n",
        "\n",
        "\n\n",
        "a\nb",
        "a\r\nb\r\n",
        "a\r\nb\r",
        "caf\u{e9}\n\u{1F600}x\r\n\r\n",
        "one\rtwo\nthree",
    ];
    for input in inputs {
        let mine = split_lines(input);
        let std_lines: Vec<&str> = input.lines().collect();
        assert_eq!(mine, std_lines, "input {:?}", input);
    }
}

#[test]
fn split_lines_values() {
    assert_eq!(split_lines("x\r\ny\n\nz"), vec!["x", "y", "", "z"]);
    assert!(split_lines("").is_empty());
}

#[test]
fn blank_strings() {
    assert!(is_blank(""));
    assert!(is_blank(" \t\n\u{a0}\u{2003}"));
    assert!(!is_blank("  x "));
}
