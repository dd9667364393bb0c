use service_utils::{find_space_from, format_content, line_split};

#[test]
fn find_space_position() {
    assert_eq!(find_space_from("123 12321", 3), Some(3));
}

#[test]
fn current_behavior_1() {
        let input = r#"
When reading the label of a beauty product, you may feel like you need a translator to figure out the laundry list of ingredients.

Even products with few ingredients may still have words you’ve never heard of. You may be unable to pronounce them, let alone understand what they do.

Then there’s marketing copy and social media, which speak of newly-trending ingredients that you (apparently) can’t live without. Hyaluronic acid, plant-based ceramides, and CBD are just some of the must-have ingredients that have popped up on feeds recently.

Of course, you can live without any beauty product, but can some of these ingredients actually make a difference in the health of your skin?

Get the scoop on what buzzwords live up to the hype and which you can skip below.
"#;

        let output = r#"
When reading the label of a beauty product, you may feel like you need a
translator to figure out the laundry list of ingredients.
Even products with few ingredients may still have words you’ve never heard of.
You may be unable to pronounce them, let alone understand what they do.
Then there’s marketing copy and social media, which speak of newly-trending
ingredients that you (apparently) can’t live without. Hyaluronic acid,
plant-based ceramides, and CBD are just some of the must-have ingredients that
have popped up on feeds recently.  Of course, you can live without any beauty
product, but can some of these ingredients actually make a difference in the
health of your skin?  Get the scoop on what buzzwords live up to the hype and
which you can skip below.
"#;
        assert_eq!(format_content(input), output.to_string());
}

#[test]
fn short_line_is_not_broken() {
    assert_eq!(find_space_from("abc def", 80), None);
    assert_eq!(line_split("abc def", 80), ("abc def", None));
}

#[test]
fn break_at_last_space_before_width() {
    // spaces at 3 and 7; searching down from 5 finds 3
    assert_eq!(find_space_from("abc def ghi", 5), Some(3));
    assert_eq!(line_split("abc def ghi", 5), ("abc ", Some("def ghi")));
}

#[test]
fn break_at_first_space_after_width() {
    // no space in 1..=3, so the first space at or after 3 is taken
    assert_eq!(find_space_from("abcdefg hij", 3), Some(7));
    assert_eq!(line_split("abcdefg hij", 3), ("abcdefg ", Some("hij")));
}

#[test]
fn no_space_at_all() {
    assert_eq!(find_space_from("abcdefghij", 3), None);
    assert_eq!(line_split("abcdefghij", 3), ("abcdefghij", None));
}

#[test]
fn leading_space_is_not_a_break_point() {
    // position 0 is never a break point unless the width is 0
    assert_eq!(find_space_from(" abcdefgh", 4), None);
    assert_eq!(find_space_from(" abcdefgh", 0), Some(0));
}

#[test]
fn counts_characters_not_bytes() {
    // "\u{e9}" takes two bytes but is one character
    let l = "\u{e9}\u{e9}\u{e9} \u{e9}\u{e9}";
    assert_eq!(find_space_from(l, 4), Some(3));
    assert_eq!(line_split(l, 4), ("\u{e9}\u{e9}\u{e9} ", Some("\u{e9}\u{e9}")));
    assert_eq!(find_space_from("\u{e9}\u{e9}\u{e9}", 4), None);
}

#[test]
fn format_empty_text() {
    assert_eq!(format_content(""), "\n");
}

#[test]
fn format_keeps_short_lines() {
    assert_eq!(format_content("one\ntwo"), "one\ntwo\n");
    assert_eq!(format_content("one\n"), "one\n\n");
}

#[test]
fn format_carries_the_rest_over() {
    let long = format!("{} tail", "a".repeat(78));
    let out = format_content(&format!("{}\nnext", long));
    assert_eq!(out, format!("{}\ntail next\n", "a".repeat(78)));
}

#[test]
fn format_breaks_long_carry_until_done() {
    let word = "w".repeat(50);
    let text = format!("{} {} {}", word, word, word);
    let out = format_content(&text);
    assert_eq!(out, format!("{}\n{}\n{}\n", word, word, word));
    for line in out.lines() {
        assert!(line.chars().count() <= 80);
    }
}

#[test]
fn format_keeps_an_overlong_word_whole() {
    let word = "x".repeat(100);
    assert_eq!(format_content(&format!("{} y", word)), format!("{}\ny\n", word));
}

#[test]
fn format_keeps_every_word() {
    let text = "  alpha beta\tgamma\n\n delta   epsilon zeta eta theta iota kappa lambda mu nu xi omicron pi rho sigma tau upsilon";
    let out = format_content(text);
    let words_in: Vec<&str> = text.split_whitespace().collect();
    let words_out: Vec<&str> = out.split_whitespace().collect();
    assert_eq!(words_in, words_out);
}

#[test]
fn fitting_text_gets_only_a_final_line_feed() {
    let text = "first line\n\nthird line, still short";
    assert_eq!(format_content(text), format!("{}\n", text));
}

#[test]
fn unbroken_lines_keep_their_whitespace() {
    assert_eq!(format_content("end   \nnext"), "end   \nnext\n");
    assert_eq!(format_content(" "), " \n");
    assert_eq!(format_content("a\r\nb\r\n"), "a\r\nb\r\n\n");
}

#[test]
fn carried_text_keeps_its_own_trailing_whitespace() {
    let a = "a".repeat(79);
    assert_eq!(format_content(&format!("{} bb\ncc  ", a)), format!("{}\nbb cc  \n", a));
}

#[test]
fn only_the_spaces_the_formatter_adds_are_left_out() {
    let a = "a".repeat(79);
    // the break space is left out of the head; the joining space before an
    // empty line is left out; blank lines after that are kept
    assert_eq!(format_content(&format!("{} bb\n\n\ncc", a)), format!("{}\nbb\n\ncc\n", a));
    // text broken before its own trailing spaces keeps them
    assert_eq!(format_content(&format!("{}  x", a)), format!("{} \nx\n", a));
}

#[test]
fn joining_space_before_a_blank_line_is_left_out() {
    let a = "a".repeat(78);
    let out = format_content(&format!("{} tail\n\nnext", a));
    assert_eq!(out, format!("{}\ntail\nnext\n", a));
}
