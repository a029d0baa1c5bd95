use the_last_signal::wrap::wrap;

#[test]
fn breaks_at_spaces_not_inside_words() {
    assert_eq!(wrap("The quick brown fox", 10), ["The quick", "brown fox"]);
    assert_eq!(wrap("a b c", 100), ["a b c"]);
}

#[test]
fn long_words_are_broken_and_paragraphs_kept() {
    assert_eq!(wrap("abcdefghij", 4), ["abcd", "efgh", "ij"]);
    assert_eq!(wrap("one\ntwo", 10), ["one", "two"]);
    assert_eq!(wrap("", 10), [""]);
}

#[test]
fn no_line_ever_exceeds_the_width() {
    let text = "Recover the evidence, transmit the last signal, and return to the surface lift. Supercalifragilisticexpialidocious!";
    for width in 1..60 {
        assert!(wrap(text, width).iter().all(|l| l.chars().count() <= width), "width {width}");
    }
}

#[test]
fn handles_multibyte_text() {
    assert!(wrap("naïve café ünïcode wörds", 6).iter().all(|l| l.chars().count() <= 6));
}

#[test]
fn zero_width_wraps_one_character_per_line() {
    assert_eq!(wrap("ab c", 0), ["a", "b", "c"]);
}

#[test]
fn line_endings_follow_str_lines() {
    assert_eq!(wrap("one\r\ntwo\n", 10), ["one", "two"]);
    assert_eq!(wrap("a\n\nb", 10), ["a", "", "b"]);
    assert_eq!(wrap("x\r", 10), ["x\r"]);
}

#[test]
fn leading_spaces_vanish_and_double_spaces_stay() {
    assert_eq!(wrap(" a", 10), ["a"]);
    assert_eq!(wrap("a  b", 10), ["a  b"]);
    assert_eq!(wrap("abc def", 3), ["abc", "def"]);
}
