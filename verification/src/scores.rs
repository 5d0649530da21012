//! The high-score board: its rows, the order it keeps, the rule for a
//! score that earns a place, and the plain-text form it is stored in
//! (one `name|score` line per row).

use vstd::prelude::*;
use crate::text::{
    chars_of, decimal, find_char, index_of, is_digit, lemma_decimal, lemma_index_of_at, parse_u32,
    parse_u32_in, push_decimal, str_lines, string_from_range, strip_cr,
};

verus! {

/// One row of the high-score board.
pub struct Entry {
    pub name: String,
    pub score: u32,
}

/// What an entry holds, as plain values.
#[verifier::ext_equal]
pub struct EntryView {
    pub name: Seq<char>,
    pub score: u32,
}

impl View for Entry {
    type V = EntryView;

    open spec fn view(&self) -> EntryView {
        EntryView { name: self.name@, score: self.score }
    }
}

/// Rows the board keeps.
pub const BOARD_SIZE: usize = 5;

/// `e` placed after every leading entry whose score is at least its own.
pub open spec fn insert_sorted(t: Seq<EntryView>, e: EntryView) -> Seq<EntryView>
    decreases t.len(),
{
    if t.len() == 0 {
        seq![e]
    } else if t[0].score >= e.score {
        seq![t[0]] + insert_sorted(t.drop_first(), e)
    } else {
        seq![e] + t
    }
}

/// The stable sort of `s` by descending score: entries with equal scores keep
/// their order.
pub open spec fn sort_desc(s: Seq<EntryView>) -> Seq<EntryView>
    decreases s.len(),
{
    if s.len() == 0 {
        seq![]
    } else {
        insert_sorted(sort_desc(s.drop_last()), s.last())
    }
}

/// The board after adding `e`: all rows stably sorted by descending score,
/// then cut to the first `BOARD_SIZE`.
pub open spec fn board_after_insert(es: Seq<EntryView>, e: EntryView) -> Seq<EntryView> {
    let s = sort_desc(es.push(e));
    if s.len() > BOARD_SIZE {
        s.take(BOARD_SIZE as int)
    } else {
        s
    }
}

/// A score earns a place: the board has free rows, or the score beats the
/// last row.
pub open spec fn qualifies(es: Seq<EntryView>, score: u32) -> bool {
    es.len() < BOARD_SIZE || score > es.last().score
}

/// Scores never rise from one row to the next.
pub open spec fn sorted_desc(es: Seq<EntryView>) -> bool {
    forall|i: int, j: int| 0 <= i < j < es.len() ==> es[i].score >= es[j].score
}

proof fn lemma_insert_sorted_at(t: Seq<EntryView>, e: EntryView, k: int)
    requires
        0 <= k <= t.len(),
        forall|j: int| 0 <= j < k ==> t[j].score >= e.score,
        k == t.len() || t[k].score < e.score,
    ensures
        insert_sorted(t, e) == t.insert(k, e),
    decreases k,
{
    if k == 0 {
        assert(insert_sorted(t, e) =~= t.insert(k, e));
    } else {
        let r = t.drop_first();
        assert forall|j: int| 0 <= j < k - 1 implies r[j].score >= e.score by {
            assert(r[j] == t[j + 1]);
        }
        if k < t.len() {
            assert(r[k - 1] == t[k]);
        }
        lemma_insert_sorted_at(r, e, k - 1);
        assert(insert_sorted(t, e) =~= t.insert(k, e));
    }
}

/// Where `insert_sorted` puts `e`: after the leading rows whose score is at
/// least its own.
proof fn lemma_insert_sorted_position(t: Seq<EntryView>, e: EntryView) -> (k: int)
    ensures
        0 <= k <= t.len(),
        forall|j: int| 0 <= j < k ==> t[j].score >= e.score,
        k == t.len() || t[k].score < e.score,
        insert_sorted(t, e) == t.insert(k, e),
    decreases t.len(),
{
    if t.len() == 0 || t[0].score < e.score {
        lemma_insert_sorted_at(t, e, 0);
        0
    } else {
        let r = t.drop_first();
        let k1 = lemma_insert_sorted_position(r, e);
        assert forall|j: int| 0 <= j < k1 + 1 implies t[j].score >= e.score by {
            if j > 0 {
                assert(t[j] == r[j - 1]);
            }
        }
        if k1 < r.len() {
            assert(t[k1 + 1] == r[k1]);
        }
        lemma_insert_sorted_at(t, e, k1 + 1);
        k1 + 1
    }
}

proof fn lemma_insert_sorted_keeps_order(t: Seq<EntryView>, e: EntryView)
    requires
        sorted_desc(t),
    ensures
        sorted_desc(insert_sorted(t, e)),
        insert_sorted(t, e).len() == t.len() + 1,
        insert_sorted(t, e).to_multiset() == t.to_multiset().insert(e),
{
    broadcast use vstd::seq_lib::group_to_multiset_ensures;
    let k = lemma_insert_sorted_position(t, e);
    let u = t.insert(k, e);
    assert forall|i: int, j: int| 0 <= i < j < u.len() implies u[i].score >= u[j].score by {
        if j < k {
        } else if j == k {
            assert(u[i] == t[i]);
        } else if i == k {
            assert(u[j] == t[j - 1]);
            if k < t.len() {
                assert(t[k].score >= t[j - 1].score);
            }
        } else if i < k {
            assert(u[i] == t[i]);
            assert(u[j] == t[j - 1]);
        } else {
            assert(u[i] == t[i - 1]);
            assert(u[j] == t[j - 1]);
        }
    }
    assert(u.remove(k) =~= t);
    assert(u.to_multiset().remove(u[k]) == t.to_multiset());
    assert(u.to_multiset().count(e) > 0);
    assert(u.to_multiset() =~= t.to_multiset().insert(e));
}

/// Sorting gives the same rows, ordered by descending score.
pub proof fn lemma_sort_desc(s: Seq<EntryView>)
    ensures
        sorted_desc(sort_desc(s)),
        sort_desc(s).len() == s.len(),
        sort_desc(s).to_multiset() == s.to_multiset(),
    decreases s.len(),
{
    broadcast use vstd::seq_lib::group_to_multiset_ensures;
    if s.len() > 0 {
        lemma_sort_desc(s.drop_last());
        lemma_insert_sorted_keeps_order(sort_desc(s.drop_last()), s.last());
        assert(s.drop_last().push(s.last()) =~= s);
    }
}

/// A board already in order sorts to itself.
proof fn lemma_sort_desc_sorted(s: Seq<EntryView>)
    requires
        sorted_desc(s),
    ensures
        sort_desc(s) == s,
    decreases s.len(),
{
    if s.len() > 0 {
        let d = s.drop_last();
        assert(sorted_desc(d));
        lemma_sort_desc_sorted(d);
        lemma_insert_sorted_at(d, s.last(), d.len() as int);
        assert(d.insert(d.len() as int, s.last()) =~= s);
    }
}

/// The first position whose score is below `score`, or the end.
fn insertion_point(rows: &Vec<Entry>, score: u32) -> (k: usize)
    ensures
        k <= rows.len(),
        forall|j: int| 0 <= j < k ==> rows@[j].score >= score,
        k == rows.len() || rows@[k as int].score < score,
{
    let mut k: usize = 0;
    while k < rows.len() && rows[k].score >= score
        invariant
            k <= rows.len(),
            forall|j: int| 0 <= j < k ==> rows@[j].score >= score,
        decreases rows.len() - k,
    {
        k = k + 1;
    }
    k
}

/// Place `e` into `rows` where `insert_sorted` puts it.
fn insert_in_order(rows: &mut Vec<Entry>, e: Entry)
    ensures
        final(rows)@.map_values(|x: Entry| x@) == insert_sorted(
            old(rows)@.map_values(|x: Entry| x@),
            e@,
        ),
{
    let k = insertion_point(rows, e.score);
    let ghost t = rows@.map_values(|x: Entry| x@);
    proof {
        lemma_insert_sorted_at(t, e@, k as int);
    }
    rows.insert(k, e);
    assert(rows@.map_values(|x: Entry| x@) =~= t.insert(k as int, e@));
}

/// After any insertion the board is in descending order, holds
/// `min(rows + 1, BOARD_SIZE)` rows, and every row comes from the old board
/// or is the new one.
pub proof fn lemma_insert_ordered(es: Seq<EntryView>, e: EntryView)
    ensures
        sorted_desc(board_after_insert(es, e)),
        board_after_insert(es, e).len() == if es.len() + 1 > BOARD_SIZE {
            BOARD_SIZE as int
        } else {
            es.len() + 1int
        },
        forall|x: EntryView|
            board_after_insert(es, e).contains(x) ==> es.contains(x) || x == e,
{
    broadcast use vstd::seq_lib::group_to_multiset_ensures;
    let s = sort_desc(es.push(e));
    lemma_sort_desc(es.push(e));
    let b = board_after_insert(es, e);
    assert forall|x: EntryView| b.contains(x) implies es.contains(x) || x == e by {
        let i = choose|i: int| 0 <= i < b.len() && b[i] == x;
        assert(s[i] == x);
        assert(s.to_multiset().count(x) > 0);
        assert(es.push(e).to_multiset().count(x) > 0);
        let j = choose|j: int| 0 <= j < es.push(e).len() && es.push(e)[j] == x;
        if j < es.len() {
            assert(es[j] == x);
        }
    }
}

/// On a board in order with at most `BOARD_SIZE` rows, a qualifying score
/// lands on the board, and a score that does not qualify leaves the board as
/// it was.
pub proof fn lemma_insert_qualifying(es: Seq<EntryView>, e: EntryView)
    requires
        sorted_desc(es),
        es.len() <= BOARD_SIZE,
    ensures
        qualifies(es, e.score) ==> board_after_insert(es, e).contains(e),
        !qualifies(es, e.score) ==> board_after_insert(es, e) == es,
{
    lemma_sort_desc_sorted(es);
    assert(es.push(e).drop_last() =~= es);
    let k = lemma_insert_sorted_position(es, e);
    let u = es.insert(k, e);
    assert(sort_desc(es.push(e)) == u);
    if qualifies(es, e.score) {
        if es.len() == BOARD_SIZE {
            assert(k < BOARD_SIZE) by {
                if k == BOARD_SIZE {
                    assert(es[BOARD_SIZE - 1].score >= e.score);
                }
            }
            assert(board_after_insert(es, e)[k] == e);
        } else {
            assert(u[k] == e);
        }
    } else {
        assert(k == BOARD_SIZE) by {
            if k < BOARD_SIZE {
                assert(es[k].score >= es[BOARD_SIZE - 1].score);
            }
        }
        assert(u.take(BOARD_SIZE as int) =~= es);
    }
}

/// An insert keeps the best rows of the old board together with the new
/// one: the result is in descending order and holds `min(rows + 1,
/// BOARD_SIZE)` rows, each taken (with multiplicity) from the old rows and
/// the new one, and no row left out scores above a row that was kept.
pub proof fn lemma_insert_keeps_top_rows(es: Seq<EntryView>, e: EntryView)
    ensures
        sorted_desc(board_after_insert(es, e)),
        board_after_insert(es, e).len() == if es.len() + 1 > BOARD_SIZE {
            BOARD_SIZE as int
        } else {
            es.len() + 1int
        },
        board_after_insert(es, e).to_multiset().subset_of(es.push(e).to_multiset()),
        forall|x: EntryView, y: EntryView|
            #![trigger board_after_insert(es, e).contains(x), es.push(e).to_multiset().count(y)]
            board_after_insert(es, e).contains(x) && es.push(e).to_multiset().count(y)
                > board_after_insert(es, e).to_multiset().count(y) ==> y.score <= x.score,
{
    broadcast use vstd::seq_lib::group_to_multiset_ensures;
    let all = es.push(e);
    let s = sort_desc(all);
    lemma_sort_desc(all);
    let b = board_after_insert(es, e);
    let m = b.len() as int;
    assert(b =~= s.take(m));
    let rest = s.skip(m);
    assert(s =~= b + rest);
    vstd::seq_lib::lemma_multiset_commutative(b, rest);
    assert(s.to_multiset() == b.to_multiset().add(rest.to_multiset()));
    assert forall|v: EntryView| b.to_multiset().count(v) <= all.to_multiset().count(v) by {}
    assert forall|x: EntryView, y: EntryView|
        b.contains(x) && all.to_multiset().count(y) > b.to_multiset().count(y) implies y.score
        <= x.score by {
        assert(rest.to_multiset().count(y) > 0);
        assert(rest.contains(y));
        let j = choose|j: int| 0 <= j < rest.len() && rest[j] == y;
        let i = choose|i: int| 0 <= i < b.len() && b[i] == x;
        assert(s[m + j] == y);
        assert(s[i] == x);
    }
}

/// On a board in descending order, the new row goes in after every row
/// whose score is at least its own and before the first lower one; the old
/// rows keep their order, and the board is then cut to `BOARD_SIZE`.
pub proof fn lemma_insert_into_ordered(es: Seq<EntryView>, e: EntryView)
    requires
        sorted_desc(es),
    ensures
        exists|k: int|
            {
                &&& 0 <= k <= es.len()
                &&& forall|j: int| 0 <= j < k ==> es[j].score >= e.score
                &&& k < es.len() ==> es[k].score < e.score
                &&& board_after_insert(es, e) == if es.len() + 1 > BOARD_SIZE {
                    #[trigger] es.insert(k, e).take(BOARD_SIZE as int)
                } else {
                    es.insert(k, e)
                }
            },
{
    lemma_sort_desc_sorted(es);
    assert(es.push(e).drop_last() =~= es);
    let k = lemma_insert_sorted_position(es, e);
    assert(sort_desc(es.push(e)) == es.insert(k, e));
    let _ = es.insert(k, e).take(BOARD_SIZE as int);
}

/// Inserting a row whose name holds neither `|` nor a line break into a
/// board whose names hold neither keeps the board storable.
pub proof fn lemma_insert_keeps_storable(es: Seq<EntryView>, e: EntryView)
    requires
        names_storable(es),
        !e.name.contains('|'),
        !e.name.contains('\n'),
    ensures
        names_storable(board_after_insert(es, e)),
{
    lemma_insert_ordered(es, e);
    let b = board_after_insert(es, e);
    assert forall|i: int| 0 <= i < b.len() implies !(#[trigger] b[i]).name.contains('|')
        && !b[i].name.contains('\n') by {
        assert(b.contains(b[i]));
        if es.contains(b[i]) {
            let j = choose|j: int| 0 <= j < es.len() && es[j] == b[i];
            assert(!es[j].name.contains('|') && !es[j].name.contains('\n'));
        }
    }
}

/// The high-score board.
pub struct Scores {
    pub entries: Vec<Entry>,
}

impl View for Scores {
    type V = Seq<EntryView>;

    open spec fn view(&self) -> Seq<EntryView> {
        self.entries@.map_values(|e: Entry| e@)
    }
}

/// The stored line of one entry: `name|score`.
pub open spec fn line_of(e: EntryView) -> Seq<char> {
    e.name + seq!['|'] + decimal(e.score as nat)
}

/// Each line preceded by a newline.
pub open spec fn newline_prefixed(ls: Seq<Seq<char>>) -> Seq<char>
    decreases ls.len(),
{
    if ls.len() == 0 {
        seq![]
    } else {
        seq!['\n'] + ls[0] + newline_prefixed(ls.drop_first())
    }
}

/// The lines joined with `\n` between them.
pub open spec fn join_lines(ls: Seq<Seq<char>>) -> Seq<char> {
    if ls.len() == 0 {
        seq![]
    } else {
        ls[0] + newline_prefixed(ls.drop_first())
    }
}

/// The stored text of a board: one `name|score` line per entry, in order,
/// joined with `\n`.
pub open spec fn serialize_board(es: Seq<EntryView>) -> Seq<char> {
    join_lines(es.map_values(|e: EntryView| line_of(e)))
}

/// The entry a stored line holds: the text before the first `|` is the name
/// and the text after it must be a `u32` numeral.
pub open spec fn parse_line(l: Seq<char>) -> Option<EntryView> {
    let p = index_of(l, '|');
    if 0 <= p < l.len() {
        match parse_u32(l.skip(p + 1)) {
            Some(v) => Some(EntryView { name: l.take(p), score: v }),
            None => None,
        }
    } else {
        None
    }
}

/// The entries of the lines that hold one, in order; other lines are skipped.
pub open spec fn parse_lines(ls: Seq<Seq<char>>) -> Seq<EntryView>
    decreases ls.len(),
{
    if ls.len() == 0 {
        seq![]
    } else {
        match parse_line(ls[0]) {
            Some(e) => seq![e] + parse_lines(ls.drop_first()),
            None => parse_lines(ls.drop_first()),
        }
    }
}

/// The board that a stored text holds.
pub open spec fn parse_board(s: Seq<char>) -> Seq<EntryView> {
    parse_lines(str_lines(s))
}

proof fn lemma_newline_prefixed_push(ls: Seq<Seq<char>>, x: Seq<char>)
    ensures
        newline_prefixed(ls.push(x)) == newline_prefixed(ls) + seq!['\n'] + x,
    decreases ls.len(),
{
    if ls.len() > 0 {
        lemma_newline_prefixed_push(ls.drop_first(), x);
        assert(ls.push(x).drop_first() =~= ls.drop_first().push(x));
        assert(ls.push(x)[0] == ls[0]);
        let t = newline_prefixed(ls.drop_first());
        assert(newline_prefixed(ls.push(x)) == seq!['\n'] + ls[0] + (t + seq!['\n'] + x));
        assert(newline_prefixed(ls) == seq!['\n'] + ls[0] + t);
        let a = seq!['\n'] + ls[0];
        assert(a + (t + seq!['\n'] + x) =~= (a + t) + seq!['\n'] + x);
    } else {
        assert(ls.push(x).drop_first() =~= Seq::<Seq<char>>::empty());
        assert(ls.push(x)[0] == x);
        assert(newline_prefixed(ls.push(x).drop_first()) == Seq::<char>::empty());
        assert(newline_prefixed(ls) == Seq::<char>::empty());
        assert(newline_prefixed(ls.push(x)) =~= newline_prefixed(ls) + seq!['\n'] + x);
    }
}

proof fn lemma_join_lines_push(ls: Seq<Seq<char>>, x: Seq<char>)
    ensures
        join_lines(ls.push(x)) == if ls.len() == 0 {
            x
        } else {
            join_lines(ls) + seq!['\n'] + x
        },
{
    if ls.len() == 0 {
        assert(ls.push(x).drop_first() =~= Seq::<Seq<char>>::empty());
        assert(join_lines(ls.push(x)) =~= x);
    } else {
        lemma_newline_prefixed_push(ls.drop_first(), x);
        assert(ls.push(x).drop_first() =~= ls.drop_first().push(x));
        assert(join_lines(ls.push(x)) =~= join_lines(ls) + seq!['\n'] + x);
    }
}

/// No name holds a `|` or a line break, the two characters that frame an
/// entry in the stored text.
pub open spec fn names_storable(es: Seq<EntryView>) -> bool {
    forall|i: int|
        0 <= i < es.len() ==> !(#[trigger] es[i]).name.contains('|') && !es[i].name.contains('\n')
}

proof fn lemma_decimal_numeral(n: nat)
    ensures
        parse_u32(decimal(n)) == (if n <= u32::MAX { Some(n as u32) } else { None::<u32> }),
        !decimal(n).contains('\n'),
        decimal(n).last() != '\r',
{
    lemma_decimal(n);
    let d = decimal(n);
    assert(is_digit(d[0]));
    assert(is_digit(d.last()));
    if d.contains('\n') {
        let k = choose|k: int| 0 <= k < d.len() && d[k] == '\n';
        assert(is_digit(d[k]));
    }
}

proof fn lemma_line_of(e: EntryView)
    requires
        !e.name.contains('|'),
        !e.name.contains('\n'),
    ensures
        line_of(e).len() > 0,
        !line_of(e).contains('\n'),
        line_of(e).last() != '\r',
        parse_line(line_of(e)) == Some(e),
{
    let l = line_of(e);
    let d = decimal(e.score as nat);
    lemma_decimal_numeral(e.score as nat);
    lemma_decimal(e.score as nat);
    let p = e.name.len() as int;
    assert forall|j: int| 0 <= j < p implies l[j] != '|' by {
        assert(l[j] == e.name[j]);
    }
    assert(l[p] == '|');
    lemma_index_of_at(l, '|', p);
    assert(l.skip(p + 1) =~= d);
    assert(l.take(p) =~= e.name);
    assert(l.last() == d.last());
    if l.contains('\n') {
        let k = choose|k: int| 0 <= k < l.len() && l[k] == '\n';
        if k < p {
            assert(e.name[k] == '\n');
        } else if k > p {
            assert(d[k - p - 1] == '\n');
        }
    }
    assert(parse_line(l) =~= Some(e));
}

proof fn lemma_str_lines_join(ls: Seq<Seq<char>>)
    requires
        forall|i: int|
            0 <= i < ls.len() ==> (#[trigger] ls[i]).len() > 0 && !ls[i].contains('\n')
                && ls[i].last() != '\r',
    ensures
        str_lines(join_lines(ls)) == ls,
    decreases ls.len(),
{
    if ls.len() == 0 {
        assert(str_lines(join_lines(ls)) =~= ls);
    } else {
        let l0 = ls[0];
        let rest = ls.drop_first();
        let s = join_lines(ls);
        assert(ls[0].len() > 0);
        assert forall|j: int| 0 <= j < l0.len() implies s[j] != '\n' by {
            assert(s[j] == l0[j]);
            assert(!l0.contains('\n'));
        }
        if rest.len() == 0 {
            assert(newline_prefixed(rest) =~= Seq::<char>::empty());
            assert(s =~= l0);
            lemma_index_of_at(s, '\n', l0.len() as int);
            assert(str_lines(s) =~= ls);
        } else {
            assert forall|i: int| 0 <= i < rest.len() implies (#[trigger] rest[i]).len() > 0
                && !rest[i].contains('\n') && rest[i].last() != '\r' by {
                assert(rest[i] == ls[i + 1]);
            }
            lemma_str_lines_join(rest);
            assert(newline_prefixed(rest) == seq!['\n'] + rest[0] + newline_prefixed(
                rest.drop_first(),
            ));
            assert(newline_prefixed(rest) =~= seq!['\n'] + join_lines(rest));
            let i = l0.len() as int;
            assert(s =~= l0 + (seq!['\n'] + join_lines(rest)));
            assert(s[i] == '\n');
            lemma_index_of_at(s, '\n', i);
            assert(s.take(i) =~= l0);
            assert(strip_cr(l0) == l0);
            assert(s.skip(i + 1) =~= join_lines(rest));
            assert(str_lines(s) =~= seq![l0] + rest);
            assert(seq![l0] + rest =~= ls);
        }
    }
}

proof fn lemma_parse_lines_of(es: Seq<EntryView>)
    requires
        names_storable(es),
    ensures
        parse_lines(es.map_values(|e: EntryView| line_of(e))) == es,
    decreases es.len(),
{
    let ls = es.map_values(|e: EntryView| line_of(e));
    if es.len() == 0 {
        assert(parse_lines(ls) =~= es);
    } else {
        let rest = es.drop_first();
        assert(names_storable(rest)) by {
            assert forall|i: int| 0 <= i < rest.len() implies !(#[trigger] rest[i]).name.contains('|')
                && !rest[i].name.contains('\n') by {
                assert(rest[i] == es[i + 1]);
            }
        }
        lemma_parse_lines_of(rest);
        assert(ls.drop_first() =~= rest.map_values(|e: EntryView| line_of(e)));
        assert(!es[0].name.contains('|') && !es[0].name.contains('\n'));
        lemma_line_of(es[0]);
        assert(parse_lines(ls) =~= seq![es[0]] + rest);
        assert(seq![es[0]] + rest =~= es);
    }
}

/// Reading back what was stored gives the board again, for every board whose
/// names hold neither `|` nor a line break (the name prompt admits neither).
pub proof fn lemma_round_trip(es: Seq<EntryView>)
    requires
        names_storable(es),
    ensures
        parse_board(serialize_board(es)) == es,
{
    let ls = es.map_values(|e: EntryView| line_of(e));
    assert forall|i: int| 0 <= i < ls.len() implies (#[trigger] ls[i]).len() > 0 && !ls[i].contains(
        '\n',
    ) && ls[i].last() != '\r' by {
        assert(!es[i].name.contains('|') && !es[i].name.contains('\n'));
        lemma_line_of(es[i]);
    }
    lemma_str_lines_join(ls);
    lemma_parse_lines_of(es);
}

impl Scores {
    /// An empty board.
    pub fn new() -> (s: Self)
        ensures
            s@ == Seq::<EntryView>::empty(),
    {
        Scores { entries: Vec::new() }
    }

    /// Whether `score` earns a place on the board: there are fewer than
    /// `BOARD_SIZE` rows, or it beats the last row.
    pub fn is_high_score(&self, score: u32) -> (r: bool)
        ensures
            r == qualifies(self@, score),
    {
        self.entries.len() < BOARD_SIZE || score > self.entries[self.entries.len() - 1].score
    }

    /// Add a row, sort all rows stably by descending score and keep the
    /// first `BOARD_SIZE`.
    pub fn insert(&mut self, name: String, score: u32)
        ensures
            final(self)@ == board_after_insert(old(self)@, EntryView { name: name@, score }),
    {
        let mut rest: Vec<Entry> = Vec::new();
        std::mem::swap(&mut rest, &mut self.entries);
        let ghost orig = rest@.map_values(|x: Entry| x@);
        let mut sorted: Vec<Entry> = Vec::new();
        let ghost mut i: int = 0;
        assert(orig.take(0) =~= Seq::<EntryView>::empty());
        assert(orig.skip(0) =~= orig);
        while rest.len() > 0
            invariant
                0 <= i <= orig.len(),
                sorted@.map_values(|x: Entry| x@) == sort_desc(orig.take(i)),
                rest@.map_values(|x: Entry| x@) == orig.skip(i),
            decreases rest.len(),
        {
            let ghost before = rest@.map_values(|x: Entry| x@);
            let ghost raw = rest@;
            let e = rest.remove(0);
            proof {
                assert(before.len() > 0);
                assert(before[0] == e@);
                assert(orig.skip(i)[0] == orig[i]);
                assert(rest@ =~= raw.drop_first());
                assert(rest@.map_values(|x: Entry| x@) =~= before.drop_first());
                assert(orig[i] == e@);
                assert(rest@.map_values(|x: Entry| x@) =~= orig.skip(i + 1));
                assert(orig.take(i + 1).drop_last() =~= orig.take(i));
                assert(orig.take(i + 1).last() == e@);
            }
            insert_in_order(&mut sorted, e);
            proof {
                i = i + 1;
            }
        }
        proof {
            assert(orig.skip(i).len() == 0);
            assert(orig.take(i) =~= orig);
        }
        let ghost new_row = EntryView { name: name@, score };
        insert_in_order(&mut sorted, Entry { name, score });
        proof {
            assert(orig.push(new_row).drop_last() =~= orig);
        }
        sorted.truncate(BOARD_SIZE);
        proof {
            let s = sort_desc(orig.push(new_row));
            assert(sorted@.map_values(|x: Entry| x@) =~= (if s.len() > BOARD_SIZE {
                s.take(BOARD_SIZE as int)
            } else {
                s
            }));
        }
        self.entries = sorted;
    }

    /// The rows, best first.
    pub fn entries(&self) -> (r: &[Entry])
        ensures
            r@ == self.entries@,
    {
        self.entries.as_slice()
    }

    /// The board as stored text: `name|score` per entry, joined with `\n`
    /// (the empty board gives the empty string).
    pub fn serialize(&self) -> (s: String)
        ensures
            s@ == serialize_board(self@),
    {
        let mut out: Vec<char> = Vec::new();
        let n = self.entries.len();
        let ghost lines = self@.map_values(|e: EntryView| line_of(e));
        for i in 0..n
            invariant
                n == self.entries.len(),
                lines == self@.map_values(|e: EntryView| line_of(e)),
                out@ == join_lines(lines.take(i as int)),
        {
            let ghost before = out@;
            if i > 0 {
                out.push('\n');
            }
            let mut name = chars_of(self.entries[i].name.as_str());
            out.append(&mut name);
            out.push('|');
            push_decimal(&mut out, self.entries[i].score);
            proof {
                assert(lines[i as int] == line_of(self.entries@[i as int]@));
                lemma_join_lines_push(lines.take(i as int), lines[i as int]);
                assert(lines.take(i + 1) =~= lines.take(i as int).push(lines[i as int]));
                if i > 0 {
                    assert(out@ =~= before + seq!['\n'] + lines[i as int]);
                } else {
                    assert(out@ =~= lines[i as int]);
                }
            }
        }
        assert(lines.take(n as int) =~= lines);
        string_from_range(&out, 0, out.len())
    }

    /// The board that a stored text holds: every line of the form
    /// `name|score` with a numeral `u32::from_str` accepts becomes an entry,
    /// in order; other lines are skipped.
    pub fn parse(s: &str) -> (r: Self)
        ensures
            r@ == parse_board(s@),
    {
        let chars = chars_of(s);
        let n = chars.len();
        let mut entries: Vec<Entry> = Vec::new();
        let mut start: usize = 0;
        assert(chars@.skip(0) =~= chars@);
        assert(entries@.map_values(|e: Entry| e@) =~= Seq::<EntryView>::empty());
        while start < n
            invariant
                start <= n == chars.len(),
                chars@ == s@,
                entries@.map_values(|e: Entry| e@) + parse_board(chars@.skip(start as int))
                    == parse_board(chars@),
            decreases n - start,
        {
            let ghost before = entries@.map_values(|e: Entry| e@);
            let ghost t = chars@.skip(start as int);
            let nl = find_char(&chars, start, n, '\n');
            let end = if nl < n && nl > start && chars[nl - 1] == '\r' {
                nl - 1
            } else {
                nl
            };
            let ghost line = chars@.subrange(start as int, end as int);
            let ghost rest = chars@.skip(if nl < n { nl + 1 } else { n as int });
            proof {
                assert(chars@.subrange(start as int, n as int) =~= t);
                let i = nl - start;
                if nl < n {
                    assert(t.take(i) =~= chars@.subrange(start as int, nl as int));
                    assert(t.skip(i + 1) =~= rest);
                    if nl > start && chars@[nl - 1] == '\r' {
                        assert(strip_cr(t.take(i)) =~= line);
                    } else {
                        assert(strip_cr(t.take(i)) =~= line);
                    }
                    assert(str_lines(t) == seq![line] + str_lines(rest));
                } else {
                    assert(t =~= line);
                    assert(rest =~= Seq::<char>::empty());
                    assert(str_lines(rest) =~= Seq::<Seq<char>>::empty());
                    assert(str_lines(t) =~= seq![line] + str_lines(rest));
                }
                assert((seq![line] + str_lines(rest))[0] == line);
                assert((seq![line] + str_lines(rest)).drop_first() =~= str_lines(rest));
            }
            let bar = find_char(&chars, start, end, '|');
            let mut found: Option<EntryView> = None;
            if bar < end {
                match parse_u32_in(&chars, bar + 1, end) {
                    Some(v) => {
                        let name = string_from_range(&chars, start, bar);
                        entries.push(Entry { name, score: v });
                    },
                    None => {},
                }
            }
            proof {
                let p = bar - start;
                if bar < end {
                    assert(line.skip(p + 1) =~= chars@.subrange(bar + 1, end as int));
                    assert(line.take(p) =~= chars@.subrange(start as int, bar as int));
                }
                let after = entries@.map_values(|e: Entry| e@);
                match parse_line(line) {
                    Some(e) => {
                        assert(after =~= before.push(e));
                        assert(after + parse_lines(str_lines(rest)) =~= before + (seq![e]
                            + parse_lines(str_lines(rest))));
                    },
                    None => {
                        assert(after =~= before);
                    },
                }
            }
            start = if nl < n {
                nl + 1
            } else {
                n
            };
        }
        proof {
            assert(chars@.skip(n as int) =~= Seq::<char>::empty());
            assert(entries@.map_values(|e: Entry| e@) + parse_board(chars@.skip(n as int))
                =~= entries@.map_values(|e: Entry| e@));
        }
        Scores { entries }
    }
}

} // verus!
