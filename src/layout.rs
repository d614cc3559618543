use vstd::prelude::*;
use smallvec::SmallVec;

verus! {

/// Largest advance of one character, in length units.
pub const MAX_ADVANCE: i64 = 0x100_0000;

/// Largest line height or character height, in length units.
pub const MAX_LINE: i64 = 0x100_0000;

/// Largest magnitude of a start coordinate or a maximum width, in length units.
pub const MAX_COORD: i64 = 0x100_0000_0000;

/// Longest text, in characters.
pub const MAX_CHARS: usize = 0x10_0000;

/// Bound on every coordinate a layout produces.
pub const MAX_RESULT: i64 = 0x4_0000_0000_0000;

/// The characters with the Unicode White_Space property.
pub open spec fn is_white_space(c: char) -> bool {
    let u = c as u32;
    (0x09 <= u <= 0x0d) || u == 0x20 || u == 0x85 || u == 0xa0 || u == 0x1680 || (0x2000 <= u
        <= 0x200a) || u == 0x2028 || u == 0x2029 || u == 0x202f || u == 0x205f || u == 0x3000
}

/// Relies on `char::is_whitespace`: true for exactly the characters with the
/// Unicode White_Space property.
#[verifier::external_body]
fn char_is_whitespace(c: char) -> (r: bool)
    ensures
        r == is_white_space(c),
{
    c.is_whitespace()
}

/// The position and size of one laid out word: characters `start..end` of
/// the text, whose box has its top-left corner at `origin`.
#[derive(Clone, Copy, Debug, PartialEq, Eq)]
pub struct WordPos {
    pub start: usize,
    pub end: usize,
    pub origin: (i64, i64),
    pub size: (i64, i64),
}

/// The words of a layout, held in a `SmallVec` that stores a few inline.
#[verifier::external_body]
pub struct WordList {
    inner: SmallVec<[WordPos; 16]>,
}

/// The words a list holds, in order.
pub uninterp spec fn word_list(v: WordList) -> Seq<WordPos>;

/// Relies on `SmallVec::new`: the list starts empty.
#[verifier::external_body]
fn words_new() -> (v: WordList)
    ensures
        word_list(v) == Seq::<WordPos>::empty(),
{
    WordList { inner: SmallVec::new() }
}

/// Relies on `SmallVec::len`: the number of words.
#[verifier::external_body]
fn words_len(v: &WordList) -> (r: usize)
    ensures
        r == word_list(*v).len(),
{
    v.inner.len()
}

/// Relies on `SmallVec::push`: the word is appended.
#[verifier::external_body]
fn words_push(v: &mut WordList, w: WordPos)
    ensures
        word_list(*final(v)) == word_list(*old(v)).push(w),
{
    v.inner.push(w)
}

/// Relies on indexing a `SmallVec`: the word at `i`.
#[verifier::external_body]
fn words_get(v: &WordList, i: usize) -> (r: WordPos)
    requires
        i < word_list(*v).len(),
    ensures
        r == word_list(*v)[i as int],
{
    v.inner[i]
}

/// Relies on indexing a `SmallVec` mutably: the word at `i` is replaced.
#[verifier::external_body]
fn words_set(v: &mut WordList, i: usize, w: WordPos)
    requires
        i < word_list(*old(v)).len(),
    ensures
        word_list(*final(v)) == word_list(*old(v)).update(i as int, w),
{
    v.inner[i] = w;
}

/// Relies on `SmallVec::into_vec`: the same words in a `Vec`.
#[verifier::external_body]
fn words_into_vec(v: WordList) -> (r: Vec<WordPos>)
    ensures
        r@ == word_list(v),
{
    v.inner.into_vec()
}

/// Font metrics and placement of one layout, all lengths in one unit.
#[derive(Clone, Copy, Debug, PartialEq, Eq)]
pub struct LayoutParams {
    /// Top-left corner of the first line.
    pub start: (i64, i64),
    /// Negative: left, zero: center, positive: right.
    pub align: i8,
    /// Width past which a word moves to the next line.
    pub max_width: i64,
    /// Ascent minus descent.
    pub char_height: i64,
    /// Ascent minus descent plus line gap.
    pub line_height: i64,
}

impl LayoutParams {
    pub open spec fn in_range(&self) -> bool {
        &&& -MAX_COORD <= self.start.0 <= MAX_COORD
        &&& -MAX_COORD <= self.start.1 <= MAX_COORD
        &&& -MAX_COORD <= self.max_width <= MAX_COORD
        &&& -MAX_LINE <= self.char_height <= MAX_LINE
        &&& 0 <= self.line_height <= MAX_LINE
    }
}

/// The state of the layout after some characters.
pub struct LayoutState {
    pub words: Seq<WordPos>,
    /// Index of the first word of the current line.
    pub beg: int,
    /// Characters of the word being read, if any.
    pub cur: Option<(usize, usize)>,
    /// Cursor, or origin of the word being read.
    pub x: int,
    pub y: int,
    /// Width of the word being read so far.
    pub size_x: int,
}

/// `v / 2` rounded toward zero.
pub open spec fn half_toward_zero(v: int) -> int {
    if v >= 0 {
        v / 2
    } else {
        -((-v) / 2)
    }
}

/// Width of the line made of words `first..end`: from the left edge of the
/// first to the right edge of the last; zero when there is no such word.
pub open spec fn line_width(words: Seq<WordPos>, first: int, end: int) -> int {
    if 0 <= first < end <= words.len() {
        words[end - 1].origin.0 + words[end - 1].size.0 - words[first].origin.0
    } else {
        0
    }
}

/// Horizontal shift that aligns a line `width` wide.
pub open spec fn align_offset(p: LayoutParams, width: int) -> int {
    if p.align == 0 {
        half_toward_zero(p.max_width - width)
    } else {
        p.max_width - width
    }
}

/// Words `first..end` shifted as one line to the requested alignment.
pub open spec fn realign(p: LayoutParams, words: Seq<WordPos>, first: int, end: int) -> Seq<WordPos> {
    if p.align < 0 {
        words
    } else {
        let off = align_offset(p, line_width(words, first, end));
        Seq::new(
            words.len(),
            |k: int|
                if first <= k < end {
                    WordPos { origin: ((words[k].origin.0 + off) as i64, words[k].origin.1), ..words[k] }
                } else {
                    words[k]
                },
        )
    }
}

/// The word being read, closed at the cursor.
pub open spec fn closed_word(p: LayoutParams, st: LayoutState) -> WordPos {
    WordPos {
        start: st.cur.unwrap().0,
        end: st.cur.unwrap().1,
        origin: (st.x as i64, st.y as i64),
        size: (st.size_x as i64, p.char_height),
    }
}

/// The layout state after character `i`, `c`, whose advance (kerning with the
/// previous character included) is `adv`.
pub open spec fn step(p: LayoutParams, st: LayoutState, i: usize, c: char, adv: int) -> LayoutState {
    let ws = is_white_space(c);
    if st.cur.is_some() && ws {
        let w = closed_word(p, st);
        let words1 = st.words.push(w);
        let n1 = words1.len() as int;
        let wrap = line_width(words1, st.beg, n1) >= p.max_width && st.words.len() - st.beg > 0;
        let ny = st.y + p.line_height;
        let words2 = if wrap {
            realign(
                p,
                words1.update(n1 - 1, WordPos { origin: (p.start.0, ny as i64), ..w }),
                st.beg,
                n1 - 1,
            )
        } else {
            words1
        };
        let beg2 = if wrap {
            n1 - 1
        } else {
            st.beg
        };
        let y2 = if wrap {
            ny
        } else {
            st.y
        };
        if c == '\n' {
            LayoutState {
                words: realign(p, words2, beg2, n1),
                beg: n1,
                cur: None,
                x: p.start.0 as int,
                y: y2 + p.line_height,
                size_x: 0,
            }
        } else {
            LayoutState {
                words: words2,
                beg: beg2,
                cur: None,
                x: if wrap {
                    p.start.0 + st.size_x + adv
                } else {
                    st.x + st.size_x + adv
                },
                y: y2,
                size_x: 0,
            }
        }
    } else if ws {
        if c == '\n' {
            LayoutState {
                words: realign(p, st.words, st.beg, st.words.len() as int),
                beg: st.words.len() as int,
                cur: None,
                x: p.start.0 as int,
                y: st.y + p.line_height,
                size_x: 0,
            }
        } else {
            LayoutState { x: st.x + adv, ..st }
        }
    } else {
        let b = if st.cur.is_some() {
            st.cur.unwrap().0
        } else {
            i
        };
        LayoutState { cur: Some((b, (i + 1) as usize)), size_x: st.size_x + adv, ..st }
    }
}

/// The state after the first `n` characters.
pub open spec fn layout_prefix(p: LayoutParams, text: Seq<char>, adv: Seq<i64>, n: nat) -> LayoutState
    decreases n,
{
    if n == 0 {
        LayoutState {
            words: Seq::empty(),
            beg: 0,
            cur: None,
            x: p.start.0 as int,
            y: p.start.1 as int,
            size_x: 0,
        }
    } else {
        let m = (n - 1) as nat;
        step(p, layout_prefix(p, text, adv, m), m as usize, text[m as int], adv[m as int] as int)
    }
}

/// The words once the text has ended: the open word is closed, a last word
/// that overflows a line of two or more words moves to a line of its own,
/// and the remaining lines are aligned.
pub open spec fn finish(p: LayoutParams, st: LayoutState) -> Seq<WordPos> {
    let words1 = if st.cur.is_some() {
        st.words.push(closed_word(p, st))
    } else {
        st.words
    };
    let n1 = words1.len() as int;
    if line_width(words1, st.beg, n1) >= p.max_width && n1 - st.beg >= 2 {
        let moved = words1.update(
            n1 - 1,
            WordPos { origin: (p.start.0, (st.y + p.line_height) as i64), ..words1[n1 - 1] },
        );
        realign(p, realign(p, moved, st.beg, n1 - 1), n1 - 1, n1)
    } else {
        realign(p, words1, st.beg, n1)
    }
}

/// The layout of a whole text.
pub open spec fn layout_of(p: LayoutParams, text: Seq<char>, adv: Seq<i64>) -> Seq<WordPos> {
    finish(p, layout_prefix(p, text, adv, text.len()))
}

/// Bounds on the words of a layout state after `i` characters.
pub open spec fn word_bounded(p: LayoutParams, w: WordPos, i: int) -> bool {
    &&& w.start < w.end <= i
    &&& -i * MAX_ADVANCE <= w.size.0 <= i * MAX_ADVANCE
    &&& w.size.1 == p.char_height
    &&& p.start.1 <= w.origin.1 <= p.start.1 + 2 * i * MAX_LINE
}

/// Bounds that keep every quantity of a layout state in range after `i` characters.
pub open spec fn state_bounded(p: LayoutParams, st: LayoutState, i: int) -> bool {
    &&& 0 <= st.beg <= st.words.len() <= i
    &&& st.cur.is_none() ==> st.size_x == 0
    &&& st.cur.is_some() ==> st.cur.unwrap().0 < st.cur.unwrap().1 <= i
    &&& -i * MAX_ADVANCE <= st.size_x <= i * MAX_ADVANCE
    &&& -i * MAX_ADVANCE <= st.x + st.size_x - p.start.0 <= i * MAX_ADVANCE
    &&& p.start.1 <= st.y <= p.start.1 + 2 * i * MAX_LINE
    &&& forall|k: int| 0 <= k < st.words.len() ==> word_bounded(p, #[trigger] st.words[k], i)
    &&& forall|k: int|
        st.beg <= k < st.words.len() ==> -2 * i * MAX_ADVANCE <= (#[trigger] st.words[k]).origin.0
            - p.start.0 <= 2 * i * MAX_ADVANCE
    &&& forall|k: int|
        0 <= k < st.beg ==> -MAX_RESULT <= (#[trigger] st.words[k]).origin.0 <= MAX_RESULT
}

/// Aligning one line of bounded words keeps the words and moves them into
/// the range of finished lines.
proof fn lemma_realign_bounded(p: LayoutParams, words: Seq<WordPos>, first: int, end: int, i: int)
    requires
        p.in_range(),
        0 <= i <= MAX_CHARS,
        0 <= first <= end <= words.len(),
        forall|k: int| 0 <= k < words.len() ==> word_bounded(p, #[trigger] words[k], i),
        forall|k: int|
            first <= k < end ==> -2 * i * MAX_ADVANCE <= (#[trigger] words[k]).origin.0 - p.start.0
                <= 2 * i * MAX_ADVANCE,
    ensures
        realign(p, words, first, end).len() == words.len(),
        forall|k: int| 0 <= k < words.len() ==> word_bounded(p, #[trigger] realign(p, words, first, end)[k], i),
        forall|k: int|
            first <= k < end ==> -MAX_RESULT <= (#[trigger] realign(p, words, first, end)[k]).origin.0
                <= MAX_RESULT,
        forall|k: int|
            0 <= k < words.len() && !(first <= k < end) ==> #[trigger] realign(p, words, first, end)[k]
                == words[k],
{
    if first < end {
        assert(word_bounded(p, words[end - 1], i));
        assert(-2 * i * MAX_ADVANCE <= words[first].origin.0 - p.start.0 <= 2 * i * MAX_ADVANCE);
        assert(-2 * i * MAX_ADVANCE <= words[end - 1].origin.0 - p.start.0 <= 2 * i * MAX_ADVANCE);
    }
}

/// One step keeps the layout state bounded.
proof fn lemma_step_bounded(p: LayoutParams, st: LayoutState, i: usize, c: char, adv: int)
    requires
        p.in_range(),
        i < MAX_CHARS,
        -MAX_ADVANCE <= adv <= MAX_ADVANCE,
        state_bounded(p, st, i as int),
    ensures
        state_bounded(p, step(p, st, i, c, adv), i + 1),
{
    let j = i as int;
    assert forall|k: int| 0 <= k < st.words.len() implies word_bounded(p, #[trigger] st.words[k], j + 1) by {
        assert(word_bounded(p, st.words[k], j));
    }
    if st.cur.is_some() && is_white_space(c) {
        let w = closed_word(p, st);
        let words1 = st.words.push(w);
        let n1 = words1.len() as int;
        assert(word_bounded(p, w, j + 1));
        assert forall|k: int| 0 <= k < words1.len() implies word_bounded(p, #[trigger] words1[k], j + 1) by {
            if k < st.words.len() {
                assert(words1[k] == st.words[k]);
            }
        }
        let wrap = line_width(words1, st.beg, n1) >= p.max_width && st.words.len() - st.beg > 0;
        let ny = st.y + p.line_height;
        if wrap {
            let moved = words1.update(n1 - 1, WordPos { origin: (p.start.0, ny as i64), ..w });
            assert forall|k: int| 0 <= k < moved.len() implies word_bounded(p, #[trigger] moved[k], j + 1) by {
                assert(word_bounded(p, words1[k], j + 1));
            }
            assert forall|k: int| st.beg <= k < n1 - 1 implies -2 * (j + 1) * MAX_ADVANCE <= (
            #[trigger] moved[k]).origin.0 - p.start.0 <= 2 * (j + 1) * MAX_ADVANCE by {
                assert(moved[k] == st.words[k]);
            }
            lemma_realign_bounded(p, moved, st.beg, n1 - 1, j + 1);
            let words2 = realign(p, moved, st.beg, n1 - 1);
            if c == '\n' {
                lemma_realign_bounded(p, words2, n1 - 1, n1, j + 1);
                let words3 = realign(p, words2, n1 - 1, n1);
                assert forall|k: int| 0 <= k < n1 implies -MAX_RESULT <= (#[trigger] words3[k]).origin.0
                    <= MAX_RESULT by {
                    if k < st.beg {
                        assert(words3[k] == st.words[k]);
                    }
                }
            } else {
                assert forall|k: int| 0 <= k < n1 - 1 implies -MAX_RESULT <= (#[trigger] words2[k]).origin.0
                    <= MAX_RESULT by {
                    if k < st.beg {
                        assert(words2[k] == st.words[k]);
                    }
                }
                assert(words2[n1 - 1] == moved[n1 - 1]);
            }
        } else {
            assert forall|k: int| st.beg <= k < n1 implies -2 * (j + 1) * MAX_ADVANCE <= (
            #[trigger] words1[k]).origin.0 - p.start.0 <= 2 * (j + 1) * MAX_ADVANCE by {
                if k < n1 - 1 {
                    assert(words1[k] == st.words[k]);
                }
            }
            assert forall|k: int| 0 <= k < st.beg implies -MAX_RESULT <= (#[trigger] words1[k]).origin.0
                <= MAX_RESULT by {
                assert(words1[k] == st.words[k]);
            }
            if c == '\n' {
                lemma_realign_bounded(p, words1, st.beg, n1, j + 1);
                let words3 = realign(p, words1, st.beg, n1);
                assert forall|k: int| 0 <= k < n1 implies -MAX_RESULT <= (#[trigger] words3[k]).origin.0
                    <= MAX_RESULT by {
                    if k < st.beg {
                        assert(words3[k] == words1[k]);
                    }
                }
            }
        }
    } else if is_white_space(c) {
        if c == '\n' {
            assert forall|k: int| st.beg <= k < st.words.len() implies -2 * (j + 1) * MAX_ADVANCE <= (
            #[trigger] st.words[k]).origin.0 - p.start.0 <= 2 * (j + 1) * MAX_ADVANCE by {}
            lemma_realign_bounded(p, st.words, st.beg, st.words.len() as int, j + 1);
            let words3 = realign(p, st.words, st.beg, st.words.len() as int);
            assert forall|k: int| 0 <= k < st.words.len() implies -MAX_RESULT <= (
            #[trigger] words3[k]).origin.0 <= MAX_RESULT by {
                if k < st.beg {
                    assert(words3[k] == st.words[k]);
                }
            }
        }
    }
}

/// Bounds that keep the words `first..end` of one line in range while it is aligned.
pub open spec fn line_in_range(words: Seq<WordPos>, first: int, end: int) -> bool {
    forall|k: int|
        first <= k < end ==> -0x8000_0000_0000 <= (#[trigger] words[k]).origin.0 <= 0x8000_0000_0000
            && -0x8000_0000_0000 <= words[k].size.0 <= 0x8000_0000_0000
}

fn line_width_of(words: &WordList, first: usize, end: usize) -> (r: i64)
    requires
        line_in_range(word_list(*words), first as int, end as int),
    ensures
        r == line_width(word_list(*words), first as int, end as int),
{
    if first < end && end <= words_len(words) {
        let last = words_get(words, end - 1);
        let head = words_get(words, first);
        last.origin.0 + last.size.0 - head.origin.0
    } else {
        0
    }
}

/// Shifts the words `first..end`, one line, to the requested alignment.
fn realign_words(words: &mut WordList, first: usize, end: usize, p: &LayoutParams)
    requires
        p.in_range(),
        first <= end <= word_list(*old(words)).len(),
        line_in_range(word_list(*old(words)), first as int, end as int),
    ensures
        word_list(*final(words)) == realign(*p, word_list(*old(words)), first as int, end as int),
{
    if p.align < 0 {
        return;
    }
    let width = line_width_of(words, first, end);
    let off: i64 = if p.align == 0 {
        let v = p.max_width - width;
        if v >= 0 {
            v / 2
        } else {
            -((-v) / 2)
        }
    } else {
        p.max_width - width
    };
    let ghost orig = word_list(*words);
    let mut k = first;
    while k < end
        invariant
            first <= k <= end <= orig.len(),
            word_list(*words).len() == orig.len(),
            off == align_offset(*p, line_width(orig, first as int, end as int)),
            -0x2_0000_0000_0000 <= off <= 0x2_0000_0000_0000,
            line_in_range(orig, first as int, end as int),
            forall|q: int|
                0 <= q < orig.len() ==> #[trigger] word_list(*words)[q] == if first <= q < k {
                    WordPos { origin: ((orig[q].origin.0 + off) as i64, orig[q].origin.1), ..orig[q] }
                } else {
                    orig[q]
                },
        decreases end - k,
    {
        let w = words_get(words, k);
        proof {
            assert(word_list(*words)[k as int] == orig[k as int]);
        }
        let moved = WordPos { origin: (w.origin.0 + off, w.origin.1), ..w };
        words_set(words, k, moved);
        k += 1;
    }
    proof {
        assert(word_list(*words) =~= realign(*p, orig, first as int, end as int));
    }
}

/// Lays out a text word by word: greedy wrapping at `max_width` (a word is
/// never split) and per-line alignment.
///
/// `adv[i]` is the horizontal advance of character `i`, its kerning with the
/// previous character included. Words are maximal runs of characters without
/// the White_Space property; a newline ends the line.
pub fn layout(text: &Vec<char>, adv: &Vec<i64>, p: &LayoutParams) -> (r: Vec<WordPos>)
    requires
        text@.len() == adv@.len(),
        text@.len() <= MAX_CHARS,
        p.in_range(),
        forall|i: int| 0 <= i < adv@.len() ==> -MAX_ADVANCE <= #[trigger] adv@[i] <= MAX_ADVANCE,
    ensures
        r@ == layout_of(*p, text@, adv@),
        spans(r@) == word_spans(text@),
{
    proof {
        law_words_are_runs(*p, text@, adv@);
    }
    let mut words = words_new();
    let mut beg: usize = 0;
    let mut cur: Option<(usize, usize)> = None;
    let mut x: i64 = p.start.0;
    let mut y: i64 = p.start.1;
    let mut size_x: i64 = 0;
    let mut i: usize = 0;
    while i < text.len()
        invariant
            i <= text@.len(),
            text@.len() == adv@.len(),
            text@.len() <= MAX_CHARS,
            p.in_range(),
            forall|q: int| 0 <= q < adv@.len() ==> -MAX_ADVANCE <= #[trigger] adv@[q] <= MAX_ADVANCE,
            layout_prefix(*p, text@, adv@, i as nat) == (LayoutState {
                words: word_list(words),
                beg: beg as int,
                cur,
                x: x as int,
                y: y as int,
                size_x: size_x as int,
            }),
            state_bounded(*p, layout_prefix(*p, text@, adv@, i as nat), i as int),
        decreases text@.len() - i,
    {
        let ghost st = layout_prefix(*p, text@, adv@, i as nat);
        let c = text[i];
        let a = adv[i];
        proof {
            lemma_step_bounded(*p, st, i, c, a as int);
        }
        let ws = char_is_whitespace(c);
        if cur.is_some() && ws {
            let (b, e) = cur.unwrap();
            let w = WordPos { start: b, end: e, origin: (x, y), size: (size_x, p.char_height) };
            let words_in_line = words_len(&words) - beg;
            words_push(&mut words, w);
            let n1 = words_len(&words);
            proof {
                assert(word_bounded(*p, w, i as int));
                assert forall|k: int| beg <= k < n1 implies -0x8000_0000_0000 <= (#[trigger] word_list(words)[k]).origin.0
                    <= 0x8000_0000_0000 && -0x8000_0000_0000 <= word_list(words)[k].size.0 <= 0x8000_0000_0000 by {
                    if k < n1 - 1 {
                        assert(word_list(words)[k] == st.words[k]);
                        assert(word_bounded(*p, st.words[k], i as int));
                    }
                }
            }
            let wrap = line_width_of(&words, beg, n1) >= p.max_width && words_in_line > 0;
            if wrap {
                let ny = y + p.line_height;
                words_set(&mut words, n1 - 1, WordPos { origin: (p.start.0, ny), ..w });
                proof {
                    assert forall|k: int| beg <= k < n1 - 1 implies -0x8000_0000_0000 <= (#[trigger] word_list(words)[k]).origin.0
                        <= 0x8000_0000_0000 && -0x8000_0000_0000 <= word_list(words)[k].size.0 <= 0x8000_0000_0000 by {
                        assert(word_list(words)[k] == st.words[k]);
                        assert(word_bounded(*p, st.words[k], i as int));
                    }
                }
                realign_words(&mut words, beg, n1 - 1, p);
                beg = n1 - 1;
                y = ny;
                x = p.start.0 + size_x;
            }
            if c == '\n' {
                proof {
                    let nst = step(*p, st, i, c, a as int);
                    assert(state_bounded(*p, nst, i + 1));
                }
                realign_words(&mut words, beg, n1, p);
                beg = n1;
                x = p.start.0;
                y = y + p.line_height;
            } else {
                x = if wrap {
                    x + a
                } else {
                    x + size_x + a
                };
            }
            size_x = 0;
            cur = None;
        } else if ws {
            if c == '\n' {
                let n = words_len(&words);
                realign_words(&mut words, beg, n, p);
                beg = n;
                x = p.start.0;
                y = y + p.line_height;
            } else {
                x = x + a;
            }
        } else {
            let b = match cur {
                Some(be) => be.0,
                None => i,
            };
            cur = Some((b, i + 1));
            size_x = size_x + a;
        }
        proof {
            let nst = step(*p, st, i, c, a as int);
            assert(word_list(words) =~= nst.words);
        }
        i += 1;
    }
    let ghost st = layout_prefix(*p, text@, adv@, text@.len());
    if cur.is_some() {
        let (b, e) = cur.unwrap();
        words_push(&mut words, WordPos { start: b, end: e, origin: (x, y), size: (size_x, p.char_height) });
    }
    let n1 = words_len(&words);
    let words_in_line = n1 - beg;
    if line_width_of(&words, beg, n1) >= p.max_width && words_in_line >= 2 {
        let last = words_get(&words, n1 - 1);
        words_set(&mut words, n1 - 1, WordPos { origin: (p.start.0, y + p.line_height), ..last });
        realign_words(&mut words, beg, n1 - 1, p);
        realign_words(&mut words, n1 - 1, n1, p);
    } else {
        realign_words(&mut words, beg, n1, p);
    }
    words_into_vec(words)
}

/// Start of the run of characters without White_Space that ends at `k` (exclusive).
pub open spec fn run_start(text: Seq<char>, k: int) -> int
    decreases k,
{
    if k <= 0 || is_white_space(text[k - 1]) {
        k
    } else {
        run_start(text, k - 1)
    }
}

/// The runs of characters without White_Space that whitespace ends within
/// the first `n` characters, as `(start, end)`.
pub open spec fn closed_runs(text: Seq<char>, n: int) -> Seq<(int, int)>
    decreases n,
{
    if n <= 0 {
        Seq::empty()
    } else {
        let prev = closed_runs(text, n - 1);
        if is_white_space(text[n - 1]) && n >= 2 && !is_white_space(text[n - 2]) {
            prev.push((run_start(text, n - 1), n - 1))
        } else {
            prev
        }
    }
}

/// The words of a text: its maximal runs of characters without White_Space.
pub open spec fn word_spans(text: Seq<char>) -> Seq<(int, int)> {
    let n = text.len() as int;
    if n > 0 && !is_white_space(text[n - 1]) {
        closed_runs(text, n).push((run_start(text, n), n))
    } else {
        closed_runs(text, n)
    }
}

/// The character ranges of laid out words.
pub open spec fn spans(words: Seq<WordPos>) -> Seq<(int, int)> {
    words.map_values(|w: WordPos| (w.start as int, w.end as int))
}

/// The word being read after the first `n` characters, if any.
pub open spec fn open_run(text: Seq<char>, n: int) -> Option<(usize, usize)> {
    if n > 0 && !is_white_space(text[n - 1]) {
        Some((run_start(text, n) as usize, n as usize))
    } else {
        None
    }
}

proof fn lemma_spans_realign(p: LayoutParams, words: Seq<WordPos>, first: int, end: int)
    ensures
        spans(realign(p, words, first, end)) == spans(words),
{
    assert(spans(realign(p, words, first, end)) =~= spans(words));
}

proof fn lemma_spans_move(words: Seq<WordPos>, i: int, origin: (i64, i64))
    requires
        0 <= i < words.len(),
    ensures
        spans(words.update(i, WordPos { origin, ..words[i] })) == spans(words),
{
    assert(spans(words.update(i, WordPos { origin, ..words[i] })) =~= spans(words));
}

proof fn lemma_run_start_bounds(text: Seq<char>, k: int)
    requires
        k >= 0,
    ensures
        0 <= run_start(text, k) <= k,
    decreases k,
{
    if k > 0 && !is_white_space(text[k - 1]) {
        lemma_run_start_bounds(text, k - 1);
    }
}

/// After `n` characters the closed words are the closed runs and the word
/// being read is the open run.
proof fn lemma_prefix_spans(p: LayoutParams, text: Seq<char>, adv: Seq<i64>, n: nat)
    requires
        n <= text.len(),
        text.len() <= MAX_CHARS,
    ensures
        spans(layout_prefix(p, text, adv, n).words) == closed_runs(text, n as int),
        layout_prefix(p, text, adv, n).cur == open_run(text, n as int),
        layout_prefix(p, text, adv, n).beg >= 0,
    decreases n,
{
    if n > 0 {
        let m = (n - 1) as nat;
        lemma_prefix_spans(p, text, adv, m);
        lemma_run_start_bounds(text, m as int);
        lemma_run_start_bounds(text, n as int);
        let st = layout_prefix(p, text, adv, m);
        let c = text[m as int];
        if st.cur.is_some() && is_white_space(c) {
            let w = closed_word(p, st);
            let words1 = st.words.push(w);
            let n1 = words1.len() as int;
            assert(spans(words1) =~= spans(st.words).push((w.start as int, w.end as int)));
            let ny = st.y + p.line_height;
            let moved = words1.update(n1 - 1, WordPos { origin: (p.start.0, ny as i64), ..w });
            lemma_spans_move(words1, n1 - 1, (p.start.0, ny as i64));
            lemma_spans_realign(p, moved, st.beg, n1 - 1);
            let wrap = line_width(words1, st.beg, n1) >= p.max_width && st.words.len() - st.beg > 0;
            let words2 = if wrap {
                realign(p, moved, st.beg, n1 - 1)
            } else {
                words1
            };
            let beg2 = if wrap {
                n1 - 1
            } else {
                st.beg
            };
            lemma_spans_realign(p, words2, beg2, n1);
        } else if is_white_space(c) {
            lemma_spans_realign(p, st.words, st.beg, st.words.len() as int);
        }
    }
}

/// The laid out words are the text's maximal runs of characters without
/// White_Space, in order: no word is split, none is empty, none is missing.
pub proof fn law_words_are_runs(p: LayoutParams, text: Seq<char>, adv: Seq<i64>)
    requires
        text.len() <= MAX_CHARS,
    ensures
        spans(layout_of(p, text, adv)) == word_spans(text),
{
    let n = text.len();
    lemma_prefix_spans(p, text, adv, n);
    lemma_run_start_bounds(text, n as int);
    let st = layout_prefix(p, text, adv, n);
    let words1 = if st.cur.is_some() {
        st.words.push(closed_word(p, st))
    } else {
        st.words
    };
    if st.cur.is_some() {
        assert(spans(words1) =~= spans(st.words).push(
            (closed_word(p, st).start as int, closed_word(p, st).end as int),
        ));
    }
    let n1 = words1.len() as int;
    if st.cur.is_some() {
        assert(closed_word(p, st).start as int == run_start(text, n as int));
        assert(closed_word(p, st).end as int == n as int);
    }
    assert(spans(words1) == word_spans(text));
    assert(layout_of(p, text, adv) == finish(p, st));
    if line_width(words1, st.beg, n1) >= p.max_width && n1 - st.beg >= 2 {
        let moved = words1.update(
            n1 - 1,
            WordPos { origin: (p.start.0, (st.y + p.line_height) as i64), ..words1[n1 - 1] },
        );
        lemma_spans_move(words1, n1 - 1, (p.start.0, (st.y + p.line_height) as i64));
        lemma_spans_realign(p, moved, st.beg, n1 - 1);
        lemma_spans_realign(p, realign(p, moved, st.beg, n1 - 1), n1 - 1, n1);
        assert(finish(p, st) == realign(p, realign(p, moved, st.beg, n1 - 1), n1 - 1, n1));
    } else {
        lemma_spans_realign(p, words1, st.beg, n1);
        assert(finish(p, st) == realign(p, words1, st.beg, n1));
    }
}

/// A text laid out word by word.
pub struct AdvancedLayout {
    params: LayoutParams,
    layout: Vec<WordPos>,
}

impl AdvancedLayout {
    pub closed spec fn spec_params(&self) -> LayoutParams {
        self.params
    }

    /// The parameters the text was laid out with.
    pub fn params(&self) -> (r: LayoutParams)
        ensures
            r == self.spec_params(),
    {
        self.params
    }

    /// The laid out words, in text order.
    pub closed spec fn words(&self) -> Seq<WordPos> {
        self.layout@
    }

    /// Lays out `text`, whose characters advance by `adv`, with `params`.
    pub fn new_str(text: &Vec<char>, adv: &Vec<i64>, params: LayoutParams) -> (r: AdvancedLayout)
        requires
            text@.len() == adv@.len(),
            text@.len() <= MAX_CHARS,
            params.in_range(),
            forall|i: int| 0 <= i < adv@.len() ==> -MAX_ADVANCE <= #[trigger] adv@[i] <= MAX_ADVANCE,
        ensures
            r.spec_params() == params,
            r.words() == layout_of(params, text@, adv@),
    {
        let layout = layout(text, adv, &params);
        AdvancedLayout { params, layout }
    }

    /// The laid out words, in text order.
    pub fn iter(&self) -> (r: &[WordPos])
        ensures
            r@ == self.words(),
    {
        self.layout.as_slice()
    }
}

} // verus!
