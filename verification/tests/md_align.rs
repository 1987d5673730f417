use rust_kart::md_align::process;

#[test]
fn basic_alignment() {
    let input = "\
| Name | Age | City |
|---|---|---|
| Alice | 30 | New York |
| Bob | 5 | LA |
";
    let expected = "\
| Name  | Age | City     |
| ----- | --- | -------- |
| Alice | 30  | New York |
| Bob   | 5   | LA       |
";
    assert_eq!(process(input), expected);
}

#[test]
fn preserves_alignment_markers() {
    let input = "\
| Left | Center | Right |
|:---|:---:|---:|
| a | b | c |
";
    let expected = "\
| Left | Center | Right |
| :--- | :----: | ----: |
| a    | b      | c     |
";
    assert_eq!(process(input), expected);
}

#[test]
fn non_table_lines_unchanged() {
    let input = "\
# Heading

Some text.

| A | B |
|---|---|
| 1 | 2 |

More text.
";
    let expected = "\
# Heading

Some text.

| A   | B   |
| --- | --- |
| 1   | 2   |

More text.
";
    assert_eq!(process(input), expected);
}

#[test]
fn no_trailing_newline() {
    let input = "| x | y |\n|---|---|\n| 1 | 2 |";
    let result = process(input);
    assert!(!result.ends_with('\n'));
}

#[test]
fn ragged_rows() {
    let input = "\
| A | B | C |
|---|---|---|
| 1 |
| 1 | 2 | 3 |
";
    let result = process(input);
    // Every row should have the same number of pipes.
    let pipe_counts: Vec<usize> = result.lines().map(|l| l.matches('|').count()).collect();
    assert!(pipe_counts.windows(2).all(|w| w[0] == w[1]));
}

#[test]
fn width_counts_utf8_bytes_but_pads_by_chars() {
    // "é" is two bytes long, so its column is two wide, and padding to two
    // characters adds one space.
    let input = "| é | b |\n| xy | c |\n";
    assert_eq!(process(input), "| é  | b |\n| xy | c |\n");
}

#[test]
fn row_without_trailing_pipe_keeps_leading_empty_cell() {
    let input = "| a | b\n";
    assert_eq!(process(input), "|  | a | b |\n");
}

#[test]
fn crlf_lines_are_split() {
    let input = "text\r\n| a |\r\n";
    assert_eq!(process(input), "text\n| a |\n");
}

#[test]
fn empty_input_stays_empty() {
    assert_eq!(process(""), "");
    assert_eq!(process("\n"), "\n");
}

#[test]
fn aligning_twice_changes_nothing() {
    let input = "intro\n| a | bb |\n|:-|--:|\n| ccc | d |\n| é |\ntext\n|x|\n";
    let once = process(input);
    assert_eq!(process(&once), once);
    assert_eq!(once.lines().count(), input.lines().count());
    assert!(once.starts_with("intro\n"));
}

#[test]
fn separator_cells_have_colons_only_at_their_ends() {
    let cell = |s: &str| s.chars().collect::<Vec<char>>();
    assert!(!rust_kart::md_align::is_separator_cell(&cell("-:-")));
    assert!(rust_kart::md_align::is_separator_cell(&cell(" :---: ")));
    assert!(rust_kart::md_align::is_separator_cell(&cell("---:")));
    assert!(rust_kart::md_align::is_separator_cell(&cell("-")));
    assert!(!rust_kart::md_align::is_separator_cell(&cell("  ")));
}

#[test]
fn aligning_text_twice_keeps_crlf_and_missing_final_newline() {
    let input = "x\r\n|a|b|\r\n|-|-|\r\nend\r";
    let once = process(input);
    assert_eq!(once, "x\n| a   | b   |\n| --- | --- |\nend\r");
    assert_eq!(process(&once), once);
    // A line ending in a carriage return that a newline follows loses it when
    // read again.
    let odd = "y\r\r\n";
    assert_eq!(process(odd), "y\r\n");
    assert_eq!(process(&process(odd)), "y\n");
}
