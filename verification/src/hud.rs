//! The text the screens show: zero-padded scores and the rows of the
//! leaderboard on the title screen.

use vstd::prelude::*;
use crate::scores::{EntryView, Scores};
use crate::text::{
    all_digits, chars_of, decimal, digit_value, digits_value, is_digit, lemma_decimal, push_decimal,
    string_from_range,
};

verus! {

/// Digits a score shows at least.
pub const SCORE_DIGITS: usize = 6;

/// Rows the leaderboard shows, filled or not.
pub const LEADERBOARD_ROWS: usize = 5;

/// Width of the name column.
pub const NAME_COLUMN: usize = 8;

/// `s` with `c` put in front until it is `width` long (`{:0>width}`-style).
pub open spec fn pad_left(s: Seq<char>, width: nat, c: char) -> Seq<char> {
    if s.len() >= width {
        s
    } else {
        Seq::new((width - s.len()) as nat, |i: int| c) + s
    }
}

/// `s` with spaces after it until it is `width` long (`{:<width}`).
pub open spec fn pad_right(s: Seq<char>, width: nat) -> Seq<char> {
    if s.len() >= width {
        s
    } else {
        s + Seq::new((width - s.len()) as nat, |i: int| ' ')
    }
}

/// A score as the screens print it (`{:06}`): its decimal numeral with
/// zeros in front up to six digits.
pub open spec fn score_digits(score: u32) -> Seq<char> {
    pad_left(decimal(score as nat), SCORE_DIGITS as nat, '0')
}

/// One leaderboard row (`{rank}. {name:<8} {score:>06}`).
pub open spec fn leaderboard_line(rank: nat, name: Seq<char>, score: u32) -> Seq<char> {
    decimal(rank) + seq!['.', ' '] + pad_right(name, NAME_COLUMN as nat) + seq![' '] + score_digits(
        score,
    )
}

/// The name and score shown in row `i` (from 0): the board's row when it has
/// one, `---` with 0 otherwise.
pub open spec fn leaderboard_row(es: Seq<EntryView>, i: int) -> (Seq<char>, u32) {
    if i < es.len() {
        (es[i].name, es[i].score)
    } else {
        (seq!['-', '-', '-'], 0u32)
    }
}

/// Row `i` of the leaderboard shows the board's row `i` whenever the board
/// has one, and the `---` / 0 placeholder only past the board's end.
pub proof fn lemma_leaderboard_shows_board(es: Seq<EntryView>, i: int)
    requires
        0 <= i < LEADERBOARD_ROWS,
    ensures
        i < es.len() ==> leaderboard_row(es, i).0 == es[i].name && leaderboard_row(es, i).1
            == es[i].score,
        i >= es.len() ==> leaderboard_row(es, i).0 == seq!['-', '-', '-'] && leaderboard_row(
            es,
            i,
        ).1 == 0,
{
}

/// A printed score is all digits, spells the score, and is six characters
/// long unless the score needs more digits.
pub proof fn lemma_score_digits(score: u32)
    ensures
        all_digits(score_digits(score)),
        digits_value(score_digits(score)) == score,
        score_digits(score).len() == if decimal(score as nat).len() > SCORE_DIGITS {
            decimal(score as nat).len()
        } else {
            SCORE_DIGITS as nat
        },
{
    let d = decimal(score as nat);
    lemma_decimal(score as nat);
    if d.len() < SCORE_DIGITS {
        let k = (SCORE_DIGITS - d.len()) as nat;
        let z = Seq::new(k, |i: int| '0');
        lemma_zeros_prefix(k, d);
        assert(score_digits(score) == z + d);
        assert forall|i: int| 0 <= i < (z + d).len() implies is_digit(#[trigger] (z + d)[i]) by {
            if i >= k {
                assert((z + d)[i] == d[i - k]);
            }
        }
    }
}

/// Zeros in front do not change the value of a numeral.
proof fn lemma_zeros_prefix(k: nat, d: Seq<char>)
    ensures
        digits_value(Seq::new(k, |i: int| '0') + d) == digits_value(d),
    decreases k,
{
    if k > 0 {
        let z = Seq::new(k, |i: int| '0');
        let z1 = Seq::new((k - 1) as nat, |i: int| '0');
        assert(z + d =~= seq!['0'] + (z1 + d));
        lemma_zeros_prefix((k - 1) as nat, d);
        lemma_leading_zero(z1 + d);
    }
}

/// One zero in front does not change the value of a numeral.
proof fn lemma_leading_zero(d: Seq<char>)
    ensures
        digits_value(seq!['0'] + d) == digits_value(d),
    decreases d.len(),
{
    let t = seq!['0'] + d;
    if d.len() == 0 {
        assert(t.drop_last() =~= Seq::<char>::empty());
        assert(t.last() == '0');
        assert(digit_value('0') == 0);
        assert(digits_value(t) == digits_value(t.drop_last()) * 10 + digit_value(t.last()));
    } else {
        assert(t.drop_last() =~= seq!['0'] + d.drop_last());
        assert(t.last() == d.last());
        lemma_leading_zero(d.drop_last());
        assert(digits_value(t) == digits_value(t.drop_last()) * 10 + digit_value(t.last()));
        assert(digits_value(d) == digits_value(d.drop_last()) * 10 + digit_value(d.last()));
    }
}

/// Append `width - count` copies of `c` (nothing when `count >= width`).
fn push_fill(out: &mut Vec<char>, count: usize, width: usize, c: char)
    ensures
        final(out)@ == old(out)@ + Seq::new(
            (if count >= width {
                0
            } else {
                width - count
            }) as nat,
            |i: int| c,
        ),
{
    let mut k = count;
    let ghost start = out@;
    while k < width
        invariant
            count <= width ==> count <= k <= width,
            count > width ==> k == count,
            out@ == start + Seq::new((k - count) as nat, |i: int| c),
        decreases width - k,
    {
        out.push(c);
        k = k + 1;
        assert(out@ =~= start + Seq::new((k - count) as nat, |i: int| c));
    }
    assert(out@ =~= start + Seq::new(
        (if count >= width {
            0
        } else {
            width - count
        }) as nat,
        |i: int| c,
    ));
}

/// Append the score zero-padded to six digits.
fn push_score(out: &mut Vec<char>, score: u32)
    ensures
        final(out)@ == old(out)@ + score_digits(score),
{
    let mut digits: Vec<char> = Vec::new();
    push_decimal(&mut digits, score);
    assert(digits@ =~= decimal(score as nat));
    let ghost start = out@;
    push_fill(out, digits.len(), SCORE_DIGITS, '0');
    out.append(&mut digits);
    assert(out@ =~= start + score_digits(score));
}

/// A score as the screens print it, zero-padded to six digits (`{:06}`).
pub fn score_text(score: u32) -> (s: String)
    ensures
        s@ == score_digits(score),
{
    let mut out: Vec<char> = Vec::new();
    push_score(&mut out, score);
    assert(out@ =~= score_digits(score));
    string_from_range(&out, 0, out.len())
}

/// The five leaderboard rows of the title screen, best first; rows the board
/// lacks show `---` and a zero score.
pub fn leaderboard_lines(scores: &Scores) -> (lines: Vec<String>)
    ensures
        lines.len() == LEADERBOARD_ROWS,
        forall|i: int|
            0 <= i < LEADERBOARD_ROWS ==> (#[trigger] lines@[i])@ == leaderboard_line(
                (i + 1) as nat,
                leaderboard_row(scores@, i).0,
                leaderboard_row(scores@, i).1,
            ),
{
    let mut lines: Vec<String> = Vec::new();
    for rank in 0..LEADERBOARD_ROWS
        invariant
            lines.len() == rank,
            forall|i: int|
                0 <= i < rank ==> (#[trigger] lines@[i])@ == leaderboard_line(
                    (i + 1) as nat,
                    leaderboard_row(scores@, i).0,
                    leaderboard_row(scores@, i).1,
                ),
    {
        let (name, score) = if rank < scores.entries.len() {
            (chars_of(scores.entries[rank].name.as_str()), scores.entries[rank].score)
        } else {
            (vec!['-', '-', '-'], 0u32)
        };
        let mut out: Vec<char> = Vec::new();
        push_decimal(&mut out, (rank + 1) as u32);
        out.push('.');
        out.push(' ');
        let mut name = name;
        let name_len = name.len();
        out.append(&mut name);
        push_fill(&mut out, name_len, NAME_COLUMN, ' ');
        out.push(' ');
        push_score(&mut out, score);
        proof {
            let row = leaderboard_row(scores@, rank as int);
            if rank < scores.entries.len() {
                assert(scores@[rank as int] == scores.entries@[rank as int]@);
            }
            assert(out@ =~= leaderboard_line((rank + 1) as nat, row.0, row.1));
        }
        lines.push(string_from_range(&out, 0, out.len()));
    }
    lines
}

} // verus!
