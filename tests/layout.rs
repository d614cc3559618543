use sprowl::layout::{layout, AdvancedLayout, LayoutParams, WordPos};

fn params(align: i8, max_width: i64) -> LayoutParams {
    LayoutParams { start: (0, 0), align, max_width, char_height: 20, line_height: 25 }
}

fn run(text: &str, p: &LayoutParams) -> Vec<WordPos> {
    let chars: Vec<char> = text.chars().collect();
    let adv = vec![10i64; chars.len()];
    layout(&chars, &adv, p)
}

fn word(start: usize, end: usize, x: i64, y: i64, w: i64) -> WordPos {
    WordPos { start, end, origin: (x, y), size: (w, 20) }
}

#[test]
fn short_line_keeps_words_in_order() {
    let words = run("ab cd", &params(-1, 1000));
    assert_eq!(words, vec![word(0, 2, 0, 0, 20), word(3, 5, 30, 0, 20)]);
    assert!(words[0].origin.0 < words[1].origin.0);
    assert_eq!(words[0].origin.1, words[1].origin.1);
}

#[test]
fn overflowing_word_moves_and_lines_center_separately() {
    let words = run("a bb ccc", &params(0, 60));
    assert_eq!(words, vec![word(0, 1, 10, 0, 10), word(2, 4, 30, 0, 20), word(5, 8, 15, 25, 30)]);
}

#[test]
fn word_closed_past_width_starts_next_line() {
    let words = run("aaa bbb cc", &params(-1, 50));
    assert_eq!(words, vec![word(0, 3, 0, 0, 30), word(4, 7, 0, 25, 30), word(8, 10, 0, 50, 20)]);
}

#[test]
fn trailing_whitespace_adds_no_word() {
    let words = run("ab  ", &params(-1, 1000));
    assert_eq!(words, vec![word(0, 2, 0, 0, 20)]);
}

#[test]
fn blank_lines_advance_without_words() {
    let words = run("a\n\nb", &params(-1, 1000));
    assert_eq!(words, vec![word(0, 1, 0, 0, 10), word(3, 4, 0, 50, 10)]);
}

#[test]
fn long_word_is_never_split() {
    let words = run("abcdefgh", &params(-1, 30));
    assert_eq!(words, vec![word(0, 8, 0, 0, 80)]);
}

#[test]
fn centering_an_overwide_line_rounds_toward_zero() {
    let chars: Vec<char> = "abcdefgh".chars().collect();
    let adv = vec![10, 10, 10, 10, 10, 10, 10, 5];
    let words = layout(&chars, &adv, &params(0, 30));
    assert_eq!(words, vec![word(0, 8, -22, 0, 75)]);
}

#[test]
fn right_alignment_pushes_to_max_width() {
    let words = run("ab", &params(1, 100));
    assert_eq!(words, vec![word(0, 2, 80, 0, 20)]);
}

#[test]
fn newline_realigns_each_line() {
    let words = run("ab\ncd", &params(0, 100));
    assert_eq!(words, vec![word(0, 2, 40, 0, 20), word(3, 5, 40, 25, 20)]);
}

#[test]
fn empty_and_blank_texts_have_no_words() {
    assert!(run("", &params(0, 100)).is_empty());
    assert!(run(" \n\t\n", &params(0, 100)).is_empty());
}

#[test]
fn unicode_whitespace_separates_words() {
    let words = run("a\u{3000}b", &params(-1, 1000));
    assert_eq!(words, vec![word(0, 1, 0, 0, 10), word(2, 3, 20, 0, 10)]);
}

#[test]
fn layout_holder_keeps_words_and_params() {
    let chars: Vec<char> = "ab cd".chars().collect();
    let adv = vec![10i64; chars.len()];
    let p = LayoutParams { start: (5, 7), ..params(-1, 1000) };
    let l = AdvancedLayout::new_str(&chars, &adv, p);
    assert_eq!(l.params(), p);
    assert_eq!(l.iter().to_vec(), vec![word(0, 2, 5, 7, 20), word(3, 5, 35, 7, 20)]);
}
