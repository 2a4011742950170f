//! Working on one row: which cells are open, which digits are missing, and
//! what a row looks like once a candidate has been written into it.

use crate::grid::Grid;
use crate::rules::{is_board, lemma_duplicates_push, placed};
use vstd::prelude::*;

verus! {

/// The columns of the empty cells of a row, left to right.
pub open spec fn open_cells(row: Seq<u8>) -> Seq<usize>
    decreases row.len(),
{
    if row.len() == 0 {
        Seq::empty()
    } else if row.last() == 0 {
        open_cells(row.drop_last()).push((row.len() - 1) as usize)
    } else {
        open_cells(row.drop_last())
    }
}

/// The digits `1` to `9`, ascending.
pub open spec fn digits() -> Seq<u8> {
    Seq::new(9, |i: int| (i + 1) as u8)
}

/// The test that keeps the digits `present` does not hold.
pub open spec fn absent_from(present: Seq<u8>) -> spec_fn(u8) -> bool {
    |d: u8| !present.contains(d)
}

/// The digits `1` to `9` that do not occur in `present`, ascending.
pub open spec fn missing(present: Seq<u8>) -> Seq<u8> {
    digits().filter(absent_from(present))
}

/// How many cells a candidate fills: one for each open cell, as far as the
/// candidate reaches.
pub open spec fn pairs(open: Seq<usize>, candidate: Seq<u8>) -> nat {
    if open.len() <= candidate.len() {
        open.len()
    } else {
        candidate.len()
    }
}

/// A row after its first `k` open cells have received the first `k` digits
/// of a candidate.
pub open spec fn fill(row: Seq<u8>, open: Seq<usize>, candidate: Seq<u8>, k: nat) -> Seq<u8>
    decreases k,
{
    if k == 0 {
        row
    } else {
        fill(row, open, candidate, (k - 1) as nat).update(open[k - 1] as int, candidate[k - 1])
    }
}

/// A board after a candidate has been written into the open cells of one row.
pub open spec fn with_row_filled(
    g: Seq<Seq<u8>>,
    r: int,
    open: Seq<usize>,
    candidate: Seq<u8>,
) -> Seq<Seq<u8>> {
    g.update(r, fill(g[r], open, candidate, pairs(open, candidate)))
}

/// The open cells of a row are exactly its empty cells, each listed once,
/// left to right; together with the placed digits they account for the row.
pub proof fn lemma_open_cells(row: Seq<u8>)
    requires
        row.len() <= usize::MAX,
    ensures
        forall|k: int|
            0 <= k < open_cells(row).len() ==> (#[trigger] open_cells(row)[k]) < row.len()
                && row[open_cells(row)[k] as int] == 0,
        forall|i: int, j: int|
            0 <= i < j < open_cells(row).len() ==> open_cells(row)[i] < open_cells(row)[j],
        forall|c: int|
            0 <= c < row.len() && #[trigger] row[c] == 0 ==> open_cells(row).contains(c as usize),
        open_cells(row).len() + placed(row).len() == row.len(),
    decreases row.len(),
{
    if row.len() == 0 {
        assert(placed(row).len() <= row.len()) by {
            lemma_duplicates_push(row, 0);
        }
    } else {
        let front = row.drop_last();
        lemma_open_cells(front);
        lemma_duplicates_push(front, row.last());
        assert(front.push(row.last()) =~= row);
        let open = open_cells(row);
        if row.last() == 0 {
            let last = (row.len() - 1) as usize;
            assert(open == open_cells(front).push(last));
            assert(open[open.len() - 1] == last);
            assert forall|c: int| 0 <= c < row.len() && #[trigger] row[c] == 0 implies open.contains(
                c as usize,
            ) by {
                if c < front.len() {
                    assert(front[c] == 0);
                    let k = choose|k: int|
                        0 <= k < open_cells(front).len() && open_cells(front)[k] == c as usize;
                    assert(open[k] == c as usize);
                } else {
                    assert(open[open.len() - 1] == c as usize);
                }
            }
        } else {
            assert forall|c: int| 0 <= c < row.len() && #[trigger] row[c] == 0 implies open.contains(
                c as usize,
            ) by {
                assert(front[c] == 0);
            }
        }
    }
}

/// Filling writes each candidate digit into its open cell and leaves every
/// other cell as it was.
pub proof fn lemma_fill(row: Seq<u8>, open: Seq<usize>, candidate: Seq<u8>, k: nat)
    requires
        k <= open.len(),
        k <= candidate.len(),
        forall|j: int| 0 <= j < open.len() ==> (#[trigger] open[j]) < row.len(),
        forall|i: int, j: int| 0 <= i < j < open.len() ==> open[i] < open[j],
    ensures
        fill(row, open, candidate, k).len() == row.len(),
        forall|j: int|
            0 <= j < k ==> fill(row, open, candidate, k)[#[trigger] open[j] as int] == candidate[j],
        forall|c: int|
            0 <= c < row.len() && (forall|j: int| 0 <= j < k ==> open[j] != c) ==> fill(
                row,
                open,
                candidate,
                k,
            )[c] == #[trigger] row[c],
    decreases k,
{
    if k > 0 {
        lemma_fill(row, open, candidate, (k - 1) as nat);
        let before = fill(row, open, candidate, (k - 1) as nat);
        assert forall|j: int| 0 <= j < k implies fill(row, open, candidate, k)[#[trigger] open[j] as int]
            == candidate[j] by {
            if j < k - 1 {
                assert(open[j] < open[k - 1]);
            }
        }
    }
}

/// The missing digits among the first `k` digits.
pub open spec fn missing_below(present: Seq<u8>, k: int) -> Seq<u8> {
    digits().take(k).filter(absent_from(present))
}

/// Looking at one more digit adds it to the missing ones exactly when it
/// does not occur in `present`.
pub proof fn lemma_missing_step(present: Seq<u8>, k: int)
    requires
        0 <= k < 9,
    ensures
        missing_below(present, k + 1) == if present.contains((k + 1) as u8) {
            missing_below(present, k)
        } else {
            missing_below(present, k).push((k + 1) as u8)
        },
        missing_below(present, 0) == Seq::<u8>::empty(),
{
    let d = (k + 1) as u8;
    assert(digits().take(k + 1) =~= digits().take(k).push(d));
    digits().take(k).lemma_filter_push(d, absent_from(present));
    assert(digits().take(0) =~= Seq::<u8>::empty());
    assert(missing_below(present, 0) =~= Seq::<u8>::empty()) by {
        Seq::<u8>::empty().lemma_filter_len(absent_from(present));
    }
}

/// The missing digits among the first `k` are ascending digits up to `k`
/// that do not occur in `present`, and none of those is left out.
pub proof fn lemma_missing_below(present: Seq<u8>, k: int)
    requires
        0 <= k <= 9,
    ensures
        missing_below(present, k).len() <= k,
        forall|j: int|
            0 <= j < missing_below(present, k).len() ==> 1 <= (#[trigger] missing_below(
                present,
                k,
            )[j]) <= k && !present.contains(missing_below(present, k)[j]),
        forall|i: int, j: int|
            0 <= i < j < missing_below(present, k).len() ==> missing_below(present, k)[i]
                < missing_below(present, k)[j],
        forall|d: u8|
            1 <= d <= k && !present.contains(d) ==> missing_below(present, k).contains(d),
    decreases k,
{
    if k == 0 {
        lemma_missing_step(present, 0);
    } else {
        lemma_missing_below(present, k - 1);
        lemma_missing_step(present, k - 1);
        let before = missing_below(present, k - 1);
        let now = missing_below(present, k);
        assert forall|d: u8| 1 <= d <= k && !present.contains(d) implies now.contains(d) by {
            if d < k {
                let j = choose|j: int| 0 <= j < before.len() && before[j] == d;
                assert(now[j] == d);
            } else {
                assert(now[now.len() - 1] == d);
            }
        }
    }
}

/// One more digit in `present` takes at most one digit away from the
/// missing ones.
pub proof fn lemma_missing_shrinks_slowly(present: Seq<u8>, d: u8, k: int)
    requires
        0 <= k <= 9,
    ensures
        missing_below(present.push(d), k).len() + if 1 <= d <= k {
            1int
        } else {
            0int
        } >= missing_below(present, k).len(),
    decreases k,
{
    if k == 0 {
        lemma_missing_step(present, 0);
        lemma_missing_step(present.push(d), 0);
    } else {
        lemma_missing_shrinks_slowly(present, d, k - 1);
        lemma_missing_step(present, k - 1);
        lemma_missing_step(present.push(d), k - 1);
        let x = k as u8;
        assert(present.push(d).contains(x) <==> present.contains(x) || x == d) by {
            if present.contains(x) {
                let i = choose|i: int| 0 <= i < present.len() && present[i] == x;
                assert(present.push(d)[i] == x);
            }
            if x == d {
                assert(present.push(d)[present.len() as int] == x);
            }
        }
    }
}

/// Every digit in `present` rules out at most one of the nine digits, so the
/// missing digits and `present` together number at least nine.
pub proof fn lemma_missing_len(present: Seq<u8>)
    ensures
        missing(present).len() + present.len() >= 9,
    decreases present.len(),
{
    assert(digits().take(9) =~= digits());
    if present.len() == 0 {
        lemma_missing_below(present, 9);
        let m = missing(present);
        assert forall|d: u8| 1 <= d <= 9 implies m.contains(d) by {
            assert(!present.contains(d));
        }
        lemma_nine_ascending_digits(m);
    } else {
        let front = present.drop_last();
        lemma_missing_len(front);
        assert(front.push(present.last()) =~= present);
        lemma_missing_shrinks_slowly(front, present.last(), 9);
    }
}

/// An ascending sequence that holds each of the digits `1` to `9` has at
/// least nine entries.
proof fn lemma_nine_ascending_digits(m: Seq<u8>)
    requires
        forall|d: u8| 1 <= d <= 9 ==> m.contains(d),
        forall|i: int, j: int| 0 <= i < j < m.len() ==> m[i] < m[j],
    ensures
        m.len() >= 9,
{
    lemma_ascending_reaches(m, 9);
}

/// In an ascending sequence that holds each of the digits `1` to `d`, the
/// digit `d` stands at position `d - 1` or later.
proof fn lemma_ascending_reaches(m: Seq<u8>, d: u8) -> (at: int)
    requires
        1 <= d <= 9,
        forall|x: u8| 1 <= x <= d ==> m.contains(x),
        forall|i: int, j: int| 0 <= i < j < m.len() ==> m[i] < m[j],
    ensures
        d - 1 <= at < m.len(),
        m[at] == d,
    decreases d,
{
    assert(m.contains(d));
    let here = choose|i: int| 0 <= i < m.len() && m[i] == d;
    if d > 1 {
        let below = lemma_ascending_reaches(m, (d - 1) as u8);
        if here <= below {
            if here < below {
                assert(m[here] < m[below]);
            }
        }
    }
    here
}

/// What `missing` promises: digits from `1` to `9`, none of them in
/// `present`, none of them twice, and enough of them.
pub proof fn lemma_missing(present: Seq<u8>)
    ensures
        forall|j: int|
            0 <= j < missing(present).len() ==> 1 <= (#[trigger] missing(present)[j]) <= 9
                && !present.contains(missing(present)[j]),
        forall|d: u8| 1 <= d <= 9 && !present.contains(d) ==> missing(present).contains(d),
        missing(present).no_duplicates(),
        missing(present).len() <= 9,
        missing(present).len() + present.len() >= 9,
{
    assert(digits().take(9) =~= digits());
    lemma_missing_below(present, 9);
    lemma_missing_len(present);
    let m = missing(present);
    assert forall|i: int, j: int| 0 <= i < m.len() && 0 <= j < m.len() && i != j implies m[i]
        != m[j] by {
        if i < j {
            assert(m[i] < m[j]);
        } else {
            assert(m[j] < m[i]);
        }
    }
}

/// Filling keeps the length of a row.
pub proof fn lemma_fill_len(row: Seq<u8>, open: Seq<usize>, candidate: Seq<u8>, k: nat)
    requires
        k <= open.len(),
        k <= candidate.len(),
        forall|j: int| 0 <= j < open.len() ==> (#[trigger] open[j]) < row.len(),
    ensures
        fill(row, open, candidate, k).len() == row.len(),
    decreases k,
{
    if k > 0 {
        lemma_fill_len(row, open, candidate, (k - 1) as nat);
    }
}

/// Splits a row of the board into the columns of its open cells and its
/// placed digits, both left to right.
pub fn row_slots(board: &Grid, row: usize) -> (slots: (Vec<usize>, Vec<u8>))
    requires
        is_board(board@),
        row < 9,
    ensures
        slots.0@ == open_cells(board@[row as int]),
        slots.1@ == placed(board@[row as int]),
{
    let ghost cells_of_row = board@[row as int];
    let mut open: Vec<usize> = Vec::new();
    let mut present: Vec<u8> = Vec::new();
    let mut c: usize = 0;
    proof {
        assert(cells_of_row.take(0) =~= Seq::<u8>::empty());
        lemma_duplicates_push(Seq::<u8>::empty(), 0);
    }
    while c < 9
        invariant
            is_board(board@),
            row < 9,
            c <= 9,
            cells_of_row == board@[row as int],
            open@ == open_cells(cells_of_row.take(c as int)),
            present@ == placed(cells_of_row.take(c as int)),
        decreases 9 - c,
    {
        let d = board.get(row, c);
        proof {
            let front = cells_of_row.take(c as int);
            let more = cells_of_row.take(c as int + 1);
            assert(more.drop_last() =~= front);
            assert(more =~= front.push(d));
            lemma_duplicates_push(front, d);
        }
        if d == 0 {
            open.push(c);
        } else {
            present.push(d);
        }
        c = c + 1;
    }
    proof {
        assert(cells_of_row.take(9) =~= cells_of_row);
    }
    (open, present)
}

/// Whether `d` occurs in `list`.
fn occurs(list: &Vec<u8>, d: u8) -> (found: bool)
    ensures
        found == list@.contains(d),
{
    let mut i: usize = 0;
    while i < list.len()
        invariant
            i <= list.len(),
            forall|j: int| 0 <= j < i ==> list@[j] != d,
        decreases list.len() - i,
    {
        if list[i] == d {
            return true;
        }
        i = i + 1;
    }
    false
}

/// The digits `1` to `9` that do not occur in `present`, ascending.
pub fn missing_digits(present: &Vec<u8>) -> (absent: Vec<u8>)
    ensures
        absent@ == missing(present@),
{
    let mut absent: Vec<u8> = Vec::new();
    let mut k: u8 = 0;
    proof {
        lemma_missing_step(present@, 0);
    }
    while k < 9
        invariant
            k <= 9,
            absent@ == missing_below(present@, k as int),
        decreases 9 - k,
    {
        proof {
            lemma_missing_step(present@, k as int);
        }
        k = k + 1;
        if !occurs(present, k) {
            absent.push(k);
        }
    }
    proof {
        assert(digits().take(9) =~= digits());
    }
    absent
}

/// Writes a candidate into the open cells of a row: the first digit into the
/// first open cell, the second into the second, and so on until the open
/// cells or the digits run out. No other cell of the board changes.
pub fn fill_row(board: &mut Grid, row: usize, open: &Vec<usize>, candidate: &Vec<u8>)
    requires
        is_board(old(board)@),
        row < 9,
        forall|j: int| 0 <= j < open@.len() ==> (#[trigger] open@[j]) < 9,
    ensures
        final(board)@ == with_row_filled(old(board)@, row as int, open@, candidate@),
        is_board(final(board)@),
{
    let ghost start = board@;
    let mut k: usize = 0;
    assert(board@ =~= start.update(row as int, fill(start[row as int], open@, candidate@, 0)));
    while k < open.len() && k < candidate.len()
        invariant
            is_board(start),
            row < 9,
            forall|j: int| 0 <= j < open@.len() ==> (#[trigger] open@[j]) < 9,
            k <= open@.len(),
            k <= candidate@.len(),
            board@ == start.update(
                row as int,
                fill(start[row as int], open@, candidate@, k as nat),
            ),
        decreases open@.len() - k,
    {
        proof {
            lemma_fill_len(start[row as int], open@, candidate@, k as nat);
        }
        board.put(row, open[k], candidate[k]);
        k = k + 1;
        assert(board@ =~= start.update(
            row as int,
            fill(start[row as int], open@, candidate@, k as nat),
        ));
    }
    proof {
        lemma_fill_len(start[row as int], open@, candidate@, k as nat);
    }
}

} // verus!
