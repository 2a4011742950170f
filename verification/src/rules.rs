//! What counts as a collision on a board, and the counter that scores one.
//!
//! A board has 27 groups: nine rows, nine columns and nine 3x3 blocks. A
//! group scores one collision for every placed digit that repeats a digit
//! already placed earlier in the same group. Empty cells never collide.

use crate::grid::{is_rectangle, Grid};
use std::collections::HashSet;
use vstd::prelude::*;

verus! {

/// A board is nine rows of nine cells.
pub open spec fn is_board(g: Seq<Seq<u8>>) -> bool {
    is_rectangle(g, 9, 9)
}

/// The placed digits of a group, in order: its cells without the empty ones.
pub open spec fn placed(group: Seq<u8>) -> Seq<u8> {
    group.filter(holds_digit())
}

/// The test that tells placed digits from empty cells.
pub open spec fn holds_digit() -> spec_fn(u8) -> bool {
    |d: u8| d != 0
}

/// The number of collisions within one group: how many digits are placed,
/// less how many different digits are placed.
pub open spec fn duplicates(group: Seq<u8>) -> nat {
    (placed(group).len() - placed(group).to_set().len()) as nat
}

/// Column `c` of a board, top to bottom.
pub open spec fn column(g: Seq<Seq<u8>>, c: int) -> Seq<u8> {
    Seq::new(9, |r: int| g[r][c])
}

/// Block `b` of a board, row by row. Blocks are numbered left to right, then
/// top to bottom, so block `b` starts at row `3 * (b / 3)` and column
/// `3 * (b % 3)`.
pub open spec fn block(g: Seq<Seq<u8>>, b: int) -> Seq<u8> {
    Seq::new(9, |k: int| g[3 * (b / 3) + k / 3][3 * (b % 3) + k % 3])
}

/// The nine columns of a board.
pub open spec fn columns(g: Seq<Seq<u8>>) -> Seq<Seq<u8>> {
    Seq::new(9, |c: int| column(g, c))
}

/// The nine blocks of a board.
pub open spec fn blocks(g: Seq<Seq<u8>>) -> Seq<Seq<u8>> {
    Seq::new(9, |b: int| block(g, b))
}

/// The collisions of several groups, added up.
pub open spec fn total(groups: Seq<Seq<u8>>) -> nat
    decreases groups.len(),
{
    if groups.len() == 0 {
        0
    } else {
        total(groups.drop_last()) + duplicates(groups.last())
    }
}

/// Collisions within the columns of a board.
pub open spec fn column_collisions(g: Seq<Seq<u8>>) -> nat {
    total(columns(g))
}

/// Collisions within the blocks of a board.
pub open spec fn block_collisions(g: Seq<Seq<u8>>) -> nat {
    total(blocks(g))
}

/// Collisions within the rows of a board.
pub open spec fn row_collisions(g: Seq<Seq<u8>>) -> nat {
    total(g)
}

/// The score of a board: the collisions of its columns and blocks, and of its
/// rows too when `check_rows` is set.
pub open spec fn collisions(g: Seq<Seq<u8>>, check_rows: bool) -> nat {
    column_collisions(g) + block_collisions(g) + if check_rows {
        row_collisions(g)
    } else {
        0
    }
}

/// Without `check_rows` the score is made of column and block collisions
/// alone: no duplicate within a row enters it. With `check_rows` the row
/// collisions are added to that score and nothing else changes.
pub proof fn lemma_rows_count_only_on_request(g: Seq<Seq<u8>>)
    ensures
        collisions(g, false) == column_collisions(g) + block_collisions(g),
        collisions(g, true) == collisions(g, false) + row_collisions(g),
        collisions(g, true) == 0 ==> collisions(g, false) == 0,
{
}

/// Adding a cell to a group adds one collision exactly when the cell holds a
/// digit that the group already has.
pub proof fn lemma_duplicates_push(group: Seq<u8>, d: u8)
    ensures
        duplicates(group.push(d)) == duplicates(group) + if d != 0 && group.contains(d) {
            1nat
        } else {
            0nat
        },
        placed(group.push(d)) == if d != 0 {
            placed(group).push(d)
        } else {
            placed(group)
        },
        placed(group).len() <= group.len(),
        placed(group).to_set().len() <= placed(group).len(),
        d != 0 ==> (placed(group).contains(d) <==> group.contains(d)),
        d != 0 ==> placed(group.push(d)).to_set() == placed(group).to_set().insert(d),
{
    let keep = holds_digit();
    group.lemma_filter_push(d, keep);
    group.lemma_filter_len(keep);
    placed(group).lemma_cardinality_of_set();
    if d != 0 {
        placed(group).lemma_push_to_set_commute(d);
        if group.contains(d) {
            let i = choose|i: int| 0 <= i < group.len() && group[i] == d;
            group.lemma_filter_contains(keep, i);
        }
        if placed(group).contains(d) {
            group.lemma_filter_contains_rev(keep, d);
        }
    }
}

/// A group never has more collisions than cells.
pub proof fn lemma_duplicates_bound(group: Seq<u8>)
    ensures
        duplicates(group) <= group.len(),
{
    group.lemma_filter_len(holds_digit());
    placed(group).lemma_cardinality_of_set();
}

/// Scores one group.
pub fn duplicates_in(group: &Vec<u8>) -> (count: usize)
    ensures
        count == duplicates(group@),
{
    broadcast use vstd::std_specs::hash::group_hash_axioms;

    let mut digits: usize = 0;
    let mut seen: HashSet<u8> = HashSet::new();
    let mut i: usize = 0;
    assert(group@.take(0) =~= Seq::<u8>::empty());
    while i < group.len()
        invariant
            i <= group.len(),
            digits == placed(group@.take(i as int)).len(),
            digits <= i,
            seen@ == placed(group@.take(i as int)).to_set(),
        decreases group.len() - i,
    {
        let d = group[i];
        proof {
            lemma_duplicates_push(group@.take(i as int), d);
            assert(group@.take(i as int + 1) =~= group@.take(i as int).push(d));
        }
        if d != 0 {
            digits = digits + 1;
            seen.insert(d);
        }
        i = i + 1;
    }
    proof {
        assert(group@.take(i as int) =~= group@);
        placed(group@).lemma_cardinality_of_set();
    }
    digits - seen.len()
}

/// The collisions of the first `i + 1` groups are those of the first `i`
/// groups and those of group `i`; no group has more collisions than cells.
pub proof fn lemma_total_step(groups: Seq<Seq<u8>>, i: int)
    requires
        0 <= i < groups.len(),
    ensures
        total(groups.take(i + 1)) == total(groups.take(i)) + duplicates(groups[i]),
        duplicates(groups[i]) <= groups[i].len(),
{
    assert(groups.take(i + 1).drop_last() =~= groups.take(i));
    lemma_duplicates_bound(groups[i]);
}

/// Copies row `r` out of a board.
fn row_of(board: &Grid, r: usize) -> (group: Vec<u8>)
    requires
        is_board(board@),
        r < 9,
    ensures
        group@ == board@[r as int],
{
    let mut group: Vec<u8> = Vec::new();
    let mut c: usize = 0;
    while c < 9
        invariant
            is_board(board@),
            r < 9,
            c <= 9,
            group@ == board@[r as int].take(c as int),
        decreases 9 - c,
    {
        group.push(board.get(r, c));
        c = c + 1;
    }
    group
}

/// Copies column `c` out of a board.
fn column_of(board: &Grid, c: usize) -> (group: Vec<u8>)
    requires
        is_board(board@),
        c < 9,
    ensures
        group@ == column(board@, c as int),
{
    let mut group: Vec<u8> = Vec::new();
    let mut r: usize = 0;
    while r < 9
        invariant
            is_board(board@),
            c < 9,
            r <= 9,
            group@ == column(board@, c as int).take(r as int),
        decreases 9 - r,
    {
        group.push(board.get(r, c));
        r = r + 1;
    }
    group
}

/// Copies block `b` out of a board.
fn block_of(board: &Grid, b: usize) -> (group: Vec<u8>)
    requires
        is_board(board@),
        b < 9,
    ensures
        group@ == block(board@, b as int),
{
    let top: usize = 3 * (b / 3);
    let left: usize = 3 * (b % 3);
    let mut group: Vec<u8> = Vec::new();
    let mut k: usize = 0;
    while k < 9
        invariant
            is_board(board@),
            b < 9,
            top == 3 * (b / 3),
            left == 3 * (b % 3),
            k <= 9,
            group@ == block(board@, b as int).take(k as int),
        decreases 9 - k,
    {
        group.push(board.get(top + k / 3, left + k % 3));
        k = k + 1;
    }
    group
}

/// Scores a board: counts the collisions in its nine columns and its nine
/// blocks, and in its nine rows as well when `check_rows` is set.
///
/// The board is only read, and the score is a function of its cells alone,
/// so scoring the same board again gives the same score.
pub fn count_collisions(board: &Grid, check_rows: bool) -> (count: usize)
    requires
        is_board(board@),
    ensures
        count == collisions(board@, check_rows),
        !check_rows ==> count == column_collisions(board@) + block_collisions(board@),
        check_rows ==> count == collisions(board@, false) + row_collisions(board@),
        count <= 243,
{
    let mut count: usize = 0;
    let mut c: usize = 0;
    while c < 9
        invariant
            is_board(board@),
            c <= 9,
            count == total(columns(board@).take(c as int)),
            count <= 9 * c,
        decreases 9 - c,
    {
        let group = column_of(board, c);
        proof {
            lemma_total_step(columns(board@), c as int);
        }
        count = count + duplicates_in(&group);
        c = c + 1;
    }
    assert(columns(board@).take(9) =~= columns(board@));
    if check_rows {
        let ghost in_columns = count;
        let mut r: usize = 0;
        while r < 9
            invariant
                is_board(board@),
                r <= 9,
                in_columns <= 81,
                count == in_columns + total(board@.take(r as int)),
                count <= 81 + 9 * r,
            decreases 9 - r,
        {
            let group = row_of(board, r);
            proof {
                lemma_total_step(board@, r as int);
            }
            count = count + duplicates_in(&group);
            r = r + 1;
        }
        assert(board@.take(9) =~= board@);
    }
    let ghost before_blocks = count;
    let mut b: usize = 0;
    while b < 9
        invariant
            is_board(board@),
            b <= 9,
            before_blocks <= 162,
            count == before_blocks + total(blocks(board@).take(b as int)),
            count <= 162 + 9 * b,
        decreases 9 - b,
    {
        let group = block_of(board, b);
        proof {
            lemma_total_step(blocks(board@), b as int);
        }
        count = count + duplicates_in(&group);
        b = b + 1;
    }
    assert(blocks(board@).take(9) =~= blocks(board@));
    count
}

} // verus!
