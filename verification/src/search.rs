//! The search worker: fills a board row by row with random candidates and
//! starts over whenever a row cannot be placed.

use crate::arrange::{
    arrangements, is_arrangement, is_candidate_list, lemma_factorial_positive, lemma_shuffled,
    shuffle,
};
use crate::grid::Grid;
use crate::row::{
    fill, fill_row, lemma_fill, lemma_missing, lemma_open_cells, missing, missing_digits,
    open_cells, pairs, row_slots, with_row_filled,
};
use crate::rules::{
    collisions, count_collisions, duplicates, is_board, lemma_duplicates_push, placed,
    row_collisions, total,
};
use crate::signal::{is_poll_due, is_raised, poll_due, raise};
use std::sync::atomic::AtomicBool;
use vstd::prelude::*;

verus! {

/// Row `done` completes row `start`: every placed digit is kept, every empty
/// cell has received a digit from `1` to `9`, and the row has exactly the
/// collisions it started with.
pub open spec fn completes(start: Seq<u8>, done: Seq<u8>) -> bool {
    &&& done.len() == start.len()
    &&& forall|c: int|
        0 <= c < start.len() ==> if start[c] != 0 {
            #[trigger] done[c] == start[c]
        } else {
            1 <= done[c] <= 9
        }
    &&& duplicates(done) == duplicates(start)
}

/// No cell of the board is empty.
pub open spec fn is_filled(g: Seq<Seq<u8>>) -> bool {
    forall|r: int, c: int| 0 <= r < 9 && 0 <= c < 9 ==> #[trigger] g[r][c] != 0
}

/// Every digit placed on `puzzle` stands in the same cell of `other`.
pub open spec fn keeps_clues(puzzle: Seq<Seq<u8>>, other: Seq<Seq<u8>>) -> bool {
    forall|r: int, c: int|
        0 <= r < 9 && 0 <= c < 9 && puzzle[r][c] != 0 ==> #[trigger] other[r][c] == puzzle[r][c]
}

/// `solution` is what a search of `puzzle` hands back: a board that completes
/// every row of the puzzle and has no collision in any column or block.
pub open spec fn solves(puzzle: Seq<Seq<u8>>, solution: Seq<Seq<u8>>) -> bool {
    &&& is_board(solution)
    &&& forall|r: int| 0 <= r < 9 ==> completes(puzzle[r], #[trigger] solution[r])
    &&& collisions(solution, false) == 0
}

/// Giving the empty cells of a row digits that occur nowhere else in the row
/// neither adds nor removes a collision, counted over the first `m` cells.
proof fn lemma_fresh_digits_prefix(start: Seq<u8>, done: Seq<u8>, m: int)
    requires
        done.len() == start.len(),
        0 <= m <= start.len(),
        forall|c: int| 0 <= c < start.len() && start[c] != 0 ==> #[trigger] done[c] == start[c],
        forall|c: int, e: int|
            0 <= c < start.len() && 0 <= e < start.len() && c != e && start[c] == 0 ==> done[c]
                != done[e],
    ensures
        duplicates(done.take(m)) == duplicates(start.take(m)),
    decreases m,
{
    if m == 0 {
        assert(done.take(0) =~= start.take(0));
    } else {
        lemma_fresh_digits_prefix(start, done, m - 1);
        let i = m - 1;
        let s = start.take(i);
        let d = done.take(i);
        assert(start.take(m) =~= s.push(start[i]));
        assert(done.take(m) =~= d.push(done[i]));
        lemma_duplicates_push(s, start[i]);
        lemma_duplicates_push(d, done[i]);
        if start[i] == 0 {
            if d.contains(done[i]) {
                let j = choose|j: int| 0 <= j < d.len() && d[j] == done[i];
                assert(done[i] != done[j]);
            }
        } else {
            let x = start[i];
            assert(done[i] == x);
            if d.contains(x) {
                let j = choose|j: int| 0 <= j < d.len() && d[j] == x;
                if start[j] == 0 {
                    assert(done[j] != done[i]);
                }
                assert(done[j] == start[j]);
                assert(s[j] == x);
            }
            if s.contains(x) {
                let j = choose|j: int| 0 <= j < s.len() && s[j] == x;
                assert(done[j] == start[j]);
                assert(d[j] == x);
            }
        }
    }
}

/// Giving the empty cells of a row digits that occur nowhere else in the row
/// neither adds nor removes a collision.
pub proof fn lemma_fresh_digits(start: Seq<u8>, done: Seq<u8>)
    requires
        done.len() == start.len(),
        forall|c: int| 0 <= c < start.len() && start[c] != 0 ==> #[trigger] done[c] == start[c],
        forall|c: int, e: int|
            0 <= c < start.len() && 0 <= e < start.len() && c != e && start[c] == 0 ==> done[c]
                != done[e],
    ensures
        duplicates(done) == duplicates(start),
{
    lemma_fresh_digits_prefix(start, done, start.len() as int);
    assert(start.take(start.len() as int) =~= start);
    assert(done.take(done.len() as int) =~= done);
}

/// What an arrangement shares with the items it arranges.
pub proof fn lemma_arrangement(p: Seq<u8>, items: Seq<u8>)
    requires
        is_arrangement(p, items),
    ensures
        p.len() == items.len(),
        forall|j: int| 0 <= j < p.len() ==> items.contains(#[trigger] p[j]),
        items.no_duplicates() ==> p.no_duplicates(),
{
    broadcast use vstd::seq_lib::group_to_multiset_ensures;

    vstd::seq_lib::to_multiset_len(p);
    vstd::seq_lib::to_multiset_len(items);
    assert forall|j: int| 0 <= j < p.len() implies items.contains(#[trigger] p[j]) by {
        assert(p.contains(p[j]));
        assert(p.to_multiset().count(p[j]) > 0);
    }
    if items.no_duplicates() {
        items.lemma_multiset_has_no_duplicates();
        p.lemma_multiset_has_no_duplicates_conv();
    }
}

/// Writing an arrangement of a row's missing digits into its open cells
/// completes the row, whatever earlier attempts left in those cells.
pub proof fn lemma_attempt_completes(start: Seq<u8>, current: Seq<u8>, candidate: Seq<u8>)
    requires
        start.len() == 9,
        current.len() == 9,
        forall|c: int| 0 <= c < 9 && start[c] != 0 ==> #[trigger] current[c] == start[c],
        is_arrangement(candidate, missing(placed(start))),
    ensures
        pairs(open_cells(start), candidate) == open_cells(start).len(),
        completes(start, fill(current, open_cells(start), candidate, open_cells(start).len())),
{
    let open = open_cells(start);
    let absent = missing(placed(start));
    lemma_open_cells(start);
    lemma_missing(placed(start));
    lemma_arrangement(candidate, absent);
    lemma_fill(current, open, candidate, open.len());
    let done = fill(current, open, candidate, open.len());
    assert forall|c: int| 0 <= c < 9 && start[c] != 0 implies #[trigger] done[c] == start[c] by {
        assert(current[c] == start[c]);
    }
    assert forall|c: int| 0 <= c < 9 && start[c] == 0 implies 1 <= #[trigger] done[c] <= 9 by {
        let j = choose|j: int| 0 <= j < open.len() && open[j] == c as usize;
        assert(done[open[j] as int] == candidate[j]);
        let a = choose|a: int| 0 <= a < absent.len() && absent[a] == candidate[j];
    }
    assert forall|c: int, e: int|
        0 <= c < 9 && 0 <= e < 9 && c != e && start[c] == 0 implies done[c] != done[e] by {
        let j = choose|j: int| 0 <= j < open.len() && open[j] == c as usize;
        assert(done[open[j] as int] == candidate[j]);
        let a = choose|a: int| 0 <= a < absent.len() && absent[a] == candidate[j];
        if start[e] != 0 {
            assert(done[e] == start[e]);
            lemma_duplicates_push(start, start[e]);
            assert(start.contains(start[e]));
        } else {
            let i = choose|i: int| 0 <= i < open.len() && open[i] == e as usize;
            assert(done[open[i] as int] == candidate[i]);
        }
    }
    lemma_fresh_digits(start, done);
}

/// Boards whose rows have the same collisions, row for row, have the same
/// row collisions in all.
pub proof fn lemma_total_matches(a: Seq<Seq<u8>>, b: Seq<Seq<u8>>)
    requires
        a.len() == b.len(),
        forall|r: int| 0 <= r < a.len() ==> duplicates(#[trigger] a[r]) == duplicates(b[r]),
    ensures
        total(a) == total(b),
    decreases a.len(),
{
    if a.len() > 0 {
        lemma_total_matches(a.drop_last(), b.drop_last());
    }
}

/// A solution keeps every clue of its puzzle, leaves no cell empty, and has
/// the row collisions of the puzzle: none at all when the puzzle had none.
pub proof fn lemma_solution(puzzle: Seq<Seq<u8>>, solution: Seq<Seq<u8>>)
    requires
        is_board(puzzle),
        solves(puzzle, solution),
    ensures
        keeps_clues(puzzle, solution),
        is_filled(solution),
        row_collisions(solution) == row_collisions(puzzle),
        row_collisions(puzzle) == 0 ==> collisions(solution, true) == 0,
{
    assert forall|r: int, c: int| 0 <= r < 9 && 0 <= c < 9 implies (puzzle[r][c] != 0
        ==> #[trigger] solution[r][c] == puzzle[r][c]) && solution[r][c] != 0 by {
        assert(completes(puzzle[r], solution[r]));
    }
    assert forall|r: int| 0 <= r < 9 implies duplicates(#[trigger] solution[r]) == duplicates(
        puzzle[r],
    ) by {
        assert(completes(puzzle[r], solution[r]));
    }
    lemma_total_matches(solution, puzzle);
}

/// The board after the first `k` candidates have been written into a row,
/// one after the other.
pub open spec fn after_attempts(
    g: Seq<Seq<u8>>,
    row: int,
    open: Seq<usize>,
    candidates: Seq<Vec<u8>>,
    k: nat,
) -> Seq<Seq<u8>>
    decreases k,
{
    if k == 0 {
        g
    } else {
        with_row_filled(
            after_attempts(g, row, open, candidates, (k - 1) as nat),
            row,
            open,
            candidates[k - 1]@,
        )
    }
}

/// The `k`-th candidate fits: with it in place no column and no block has a
/// collision.
pub open spec fn fits(
    g: Seq<Seq<u8>>,
    row: int,
    open: Seq<usize>,
    candidates: Seq<Vec<u8>>,
    k: nat,
) -> bool {
    collisions(after_attempts(g, row, open, candidates, k), false) == 0
}

/// How the work on one row ended.
#[derive(Clone, Copy, Debug)]
pub enum RowOutcome {
    /// A candidate fits and is in place.
    Placed,
    /// Every candidate was tried and none fits.
    Stuck,
    /// The worker stopped before it had tried every candidate.
    Stopped,
}

/// Writes one candidate into the open cells of a row and says whether the
/// board then has no collision in any column or block.
pub fn try_candidate(board: &mut Grid, row: usize, open: &Vec<usize>, candidate: &Vec<u8>) -> (ok:
    bool)
    requires
        is_board(old(board)@),
        row < 9,
        forall|j: int| 0 <= j < open@.len() ==> (#[trigger] open@[j]) < 9,
    ensures
        final(board)@ == with_row_filled(old(board)@, row as int, open@, candidate@),
        is_board(final(board)@),
        ok == (collisions(final(board)@, false) == 0),
{
    fill_row(board, row, open, candidate);
    count_collisions(board, false) == 0
}

/// One step of the work on a row, given what the look at the signal showed.
///
/// `stop` says that a look at the signal was due and that the signal then
/// read as set. With `stop`, and likewise when the attempt counter cannot
/// count any further, the step touches nothing and yields nothing. Otherwise
/// it writes the candidate into the open cells of the row, adds one to
/// `attempts` and yields the score of the board: its collisions in columns
/// and blocks.
pub fn attempt(
    board: &mut Grid,
    row: usize,
    open: &Vec<usize>,
    candidate: &Vec<u8>,
    attempts: &mut usize,
    stop: bool,
) -> (score: Option<usize>)
    requires
        is_board(old(board)@),
        row < 9,
        forall|j: int| 0 <= j < open@.len() ==> (#[trigger] open@[j]) < 9,
    ensures
        is_board(final(board)@),
        score is None <==> stop || *old(attempts) == usize::MAX,
        score is None ==> final(board)@ == old(board)@ && *final(attempts) == *old(attempts),
        score matches Some(found) ==> {
            &&& final(board)@ == with_row_filled(old(board)@, row as int, open@, candidate@)
            &&& *final(attempts) == *old(attempts) + 1
            &&& found == collisions(final(board)@, false)
        },
{
    if stop || *attempts == usize::MAX {
        return None;
    }
    *attempts = *attempts + 1;
    fill_row(board, row, open, candidate);
    Some(count_collisions(board, false))
}

/// Tries the candidates for one row in the order given and stops at the
/// first that fits.
///
/// Before an attempt the worker looks at the signal if a look is due, and
/// stops if it reads as set. It also stops when the attempt counter cannot
/// count any further. Each attempt adds one to `attempts`.
pub fn place_row(
    board: &mut Grid,
    row: usize,
    open: &Vec<usize>,
    candidates: &Vec<Vec<u8>>,
    shared: &AtomicBool,
    attempts: &mut usize,
) -> (outcome: RowOutcome)
    requires
        is_board(old(board)@),
        row < 9,
        forall|j: int| 0 <= j < open@.len() ==> (#[trigger] open@[j]) < 9,
    ensures
        *old(attempts) <= *final(attempts) <= *old(attempts) + candidates@.len(),
        final(board)@ == after_attempts(
            old(board)@,
            row as int,
            open@,
            candidates@,
            (*final(attempts) - *old(attempts)) as nat,
        ),
        is_board(final(board)@),
        forall|j: nat|
            1 <= j < *final(attempts) - *old(attempts) ==> !fits(
                old(board)@,
                row as int,
                open@,
                candidates@,
                j,
            ),
        outcome is Placed <==> *final(attempts) > *old(attempts) && fits(
            old(board)@,
            row as int,
            open@,
            candidates@,
            (*final(attempts) - *old(attempts)) as nat,
        ),
        outcome is Stuck ==> *final(attempts) == *old(attempts) + candidates@.len(),
        outcome is Stopped ==> *final(attempts) < *old(attempts) + candidates@.len() && (poll_due(
            *final(attempts) as nat,
        ) || *final(attempts) == usize::MAX),
{
    let ghost start = board@;
    let ghost first = *attempts;
    let mut best: usize = 81;
    let mut k: usize = 0;
    while k < candidates.len()
        invariant
            start == old(board)@,
            first == *old(attempts),
            is_board(start),
            is_board(board@),
            row < 9,
            forall|j: int| 0 <= j < open@.len() ==> (#[trigger] open@[j]) < 9,
            k <= candidates@.len(),
            *attempts == first + k,
            board@ == after_attempts(start, row as int, open@, candidates@, k as nat),
            forall|j: nat| 1 <= j <= k ==> !fits(start, row as int, open@, candidates@, j),
            best > 0,
        decreases candidates@.len() - k,
    {
        let stop = is_poll_due(*attempts) && is_raised(shared);
        match attempt(board, row, open, &candidates[k], attempts, stop) {
            None => {
                return RowOutcome::Stopped;
            },
            Some(score) => {
                k = k + 1;
                if score < best {
                    best = score;
                }
                if best == 0 {
                    return RowOutcome::Placed;
                }
            },
        }
    }
    RowOutcome::Stuck
}

/// However many arrangements of a row's missing digits have been tried on
/// it, the rest of the board and the clues of the row are as they were, and
/// after at least one attempt the row is complete.
pub proof fn lemma_after_attempts(g: Seq<Seq<u8>>, row: int, candidates: Seq<Vec<u8>>, k: nat)
    requires
        is_board(g),
        0 <= row < 9,
        k <= candidates.len(),
        forall|j: int|
            0 <= j < candidates.len() ==> is_arrangement(
                #[trigger] candidates[j]@,
                missing(placed(g[row])),
            ),
    ensures
        is_board(after_attempts(g, row, open_cells(g[row]), candidates, k)),
        forall|r: int|
            0 <= r < 9 && r != row ==> #[trigger] after_attempts(
                g,
                row,
                open_cells(g[row]),
                candidates,
                k,
            )[r] == g[r],
        forall|c: int|
            0 <= c < 9 && g[row][c] != 0 ==> #[trigger] after_attempts(
                g,
                row,
                open_cells(g[row]),
                candidates,
                k,
            )[row][c] == g[row][c],
        k >= 1 ==> completes(g[row], after_attempts(g, row, open_cells(g[row]), candidates, k)[row]),
    decreases k,
{
    if k > 0 {
        let open = open_cells(g[row]);
        let before = after_attempts(g, row, open, candidates, (k - 1) as nat);
        lemma_after_attempts(g, row, candidates, (k - 1) as nat);
        assert(is_arrangement(candidates[k - 1]@, missing(placed(g[row]))));
        lemma_attempt_completes(g[row], before[row], candidates[k - 1]@);
        let done = fill(before[row], open, candidates[k - 1]@, open.len());
        assert(after_attempts(g, row, open, candidates, k) == before.update(row, done));
        assert forall|c: int| 0 <= c < 9 && g[row][c] != 0 implies done[c] == g[row][c] by {
            assert(completes(g[row], done));
        }
    }
}

/// Every attempt overwrites what the attempt before it wrote: after any
/// number of attempts with arrangements of the row's missing digits, the
/// board is the board as the visit found it with the last candidate alone
/// written into the row. Whether a candidate fits therefore depends on that
/// candidate only, not on the candidates tried before it.
pub proof fn lemma_last_attempt_counts(
    g: Seq<Seq<u8>>,
    row: int,
    candidates: Seq<Vec<u8>>,
    k: nat,
)
    requires
        is_board(g),
        0 <= row < 9,
        1 <= k <= candidates.len(),
        forall|j: int|
            0 <= j < candidates.len() ==> is_arrangement(
                #[trigger] candidates[j]@,
                missing(placed(g[row])),
            ),
    ensures
        after_attempts(g, row, open_cells(g[row]), candidates, k) == with_row_filled(
            g,
            row,
            open_cells(g[row]),
            candidates[k - 1]@,
        ),
{
    let open = open_cells(g[row]);
    let candidate = candidates[k - 1]@;
    let before = after_attempts(g, row, open, candidates, (k - 1) as nat);
    lemma_after_attempts(g, row, candidates, (k - 1) as nat);
    assert(is_arrangement(candidates[k - 1]@, missing(placed(g[row]))));
    lemma_attempt_completes(g[row], before[row], candidate);
    lemma_attempt_completes(g[row], g[row], candidate);
    lemma_open_cells(g[row]);
    lemma_fill(before[row], open, candidate, open.len());
    lemma_fill(g[row], open, candidate, open.len());
    let over = fill(before[row], open, candidate, open.len());
    let fresh = fill(g[row], open, candidate, open.len());
    assert forall|c: int| 0 <= c < 9 implies over[c] == fresh[c] by {
        if g[row][c] == 0 {
            let j = choose|j: int| 0 <= j < open.len() && open[j] == c as usize;
            assert(over[open[j] as int] == candidate[j]);
            assert(fresh[open[j] as int] == candidate[j]);
        } else {
            assert(before[row][c] == g[row][c]);
            assert forall|j: int| 0 <= j < open.len() implies open[j] != c by {
                assert(g[row][open[j] as int] == 0);
            }
        }
    }
    assert(over =~= fresh);
    assert(before.update(row, over) =~= g.update(row, fresh));
}

/// On a row without empty cells an attempt changes nothing.
pub proof fn lemma_attempt_on_full_row(g: Seq<Seq<u8>>, row: int, candidates: Seq<Vec<u8>>)
    requires
        is_board(g),
        0 <= row < 9,
        forall|c: int| 0 <= c < 9 ==> #[trigger] g[row][c] != 0,
        candidates.len() >= 1,
    ensures
        open_cells(g[row]).len() == 0,
        after_attempts(g, row, open_cells(g[row]), candidates, 1) == g,
{
    lemma_open_cells(g[row]);
    let open = open_cells(g[row]);
    if open.len() > 0 {
        assert(g[row][open[0] as int] == 0);
    }
    assert(after_attempts(g, row, open, candidates, 0) == g);
    assert(after_attempts(g, row, open, candidates, 1) =~= g);
}

/// One visit of the worker to a row: the row, the board as the visit found
/// it, the candidates in the order in which they were tried, and how many of
/// them were tried.
pub struct Visit {
    pub row: int,
    pub before: Seq<Seq<u8>>,
    pub candidates: Seq<Vec<u8>>,
    pub tried: nat,
}

impl Visit {
    /// The columns of the cells that the visit fills.
    pub open spec fn open(self) -> Seq<usize> {
        open_cells(self.before[self.row])
    }

    /// The board as the visit left it.
    pub open spec fn after(self) -> Seq<Seq<u8>> {
        after_attempts(self.before, self.row, self.open(), self.candidates, self.tried)
    }

    /// The visit placed the row: the last candidate it tried fits.
    pub open spec fn placed(self) -> bool {
        fits(self.before, self.row, self.open(), self.candidates, self.tried)
    }

    /// The visit went by the rules. Its candidates are those of the digits
    /// missing from the row. It tried them in order, at least one, and none
    /// before the last fits. It ended with the first candidate that fits, or
    /// else after the last candidate.
    pub open spec fn by_the_rules(self) -> bool {
        &&& 0 <= self.row < 9
        &&& is_board(self.before)
        &&& is_candidate_list(self.candidates, missing(placed(self.before[self.row])))
        &&& 1 <= self.tried <= self.candidates.len()
        &&& forall|j: nat|
            1 <= j < self.tried ==> !fits(self.before, self.row, self.open(), self.candidates, j)
        &&& self.placed() || self.tried == self.candidates.len()
    }
}

/// Where the worker goes after a visit: on to the next row of the board as
/// it stands once the row is placed, and back to the first row of the puzzle
/// as given once the row is stuck.
pub open spec fn follows(puzzle: Seq<Seq<u8>>, last: Visit, next: Visit) -> bool {
    if last.placed() {
        next.row == last.row + 1 && next.before == last.after()
    } else {
        next.row == 0 && next.before == puzzle
    }
}

/// The visits are the start of a search of `puzzle`: the first is to row `0`
/// of the puzzle, every visit goes by the rules, and each follows the one
/// before.
pub open spec fn is_trail(puzzle: Seq<Seq<u8>>, visits: Seq<Visit>) -> bool {
    &&& forall|i: int| 0 <= i < visits.len() ==> (#[trigger] visits[i]).by_the_rules()
    &&& visits.len() > 0 ==> visits[0].row == 0 && visits[0].before == puzzle
    &&& forall|i: int|
        0 < i < visits.len() ==> follows(puzzle, visits[i - 1], #[trigger] visits[i])
}

/// The visits are a whole search of `puzzle` that ends with `solution`: a
/// trail whose last visit places the last row and leaves `solution`.
pub open spec fn is_run(puzzle: Seq<Seq<u8>>, visits: Seq<Visit>, solution: Seq<Seq<u8>>) -> bool {
    &&& is_trail(puzzle, visits)
    &&& visits.len() > 0
    &&& visits.last().row == 8
    &&& visits.last().placed()
    &&& visits.last().after() == solution
}

/// The attempts made over a series of visits.
pub open spec fn tried_in_all(visits: Seq<Visit>) -> nat
    decreases visits.len(),
{
    if visits.len() == 0 {
        0
    } else {
        tried_in_all(visits.drop_last()) + visits.last().tried
    }
}

/// Some whole search of `puzzle` ends with `solution`, and the attempts made
/// over its visits number `attempts`.
pub open spec fn found_by_search(
    puzzle: Seq<Seq<u8>>,
    solution: Seq<Seq<u8>>,
    attempts: nat,
) -> bool {
    exists|visits: Seq<Visit>|
        #![trigger is_run(puzzle, visits, solution)]
        is_run(puzzle, visits, solution) && attempts == tried_in_all(visits)
}

/// Where the worker stands after some visits: the row it turns to next and
/// the board it finds there.
pub open spec fn stands_at(
    puzzle: Seq<Seq<u8>>,
    visits: Seq<Visit>,
    row: int,
    board: Seq<Seq<u8>>,
) -> bool {
    if visits.len() > 0 && visits.last().placed() {
        row == visits.last().row + 1 && board == visits.last().after()
    } else {
        row == 0 && board == puzzle
    }
}

/// A visit that goes by the rules, made where the worker stands, extends the
/// trail and adds its attempts to the count.
pub proof fn lemma_trail_grows(puzzle: Seq<Seq<u8>>, visits: Seq<Visit>, visit: Visit)
    requires
        is_trail(puzzle, visits),
        visit.by_the_rules(),
        stands_at(puzzle, visits, visit.row, visit.before),
    ensures
        is_trail(puzzle, visits.push(visit)),
        tried_in_all(visits.push(visit)) == tried_in_all(visits) + visit.tried,
{
    let longer = visits.push(visit);
    assert(longer.drop_last() =~= visits);
    assert forall|i: int| 0 < i < longer.len() implies follows(
        puzzle,
        longer[i - 1],
        #[trigger] longer[i],
    ) by {
        if i < visits.len() {
            assert(follows(puzzle, visits[i - 1], visits[i]));
        }
    }
}

/// Acts on the outcome of a visit to row `n`. With the row placed the worker
/// goes on to the next row and the board stays as it is. With the row stuck
/// the board is put back to the puzzle as given and the worker starts over at
/// the first row. A worker that stopped goes nowhere.
pub fn advance(board: &mut Grid, puzzle: &Grid, n: usize, outcome: RowOutcome) -> (next: Option<
    usize,
>)
    requires
        n < 9,
    ensures
        outcome is Placed ==> next == Some((n + 1) as usize) && final(board)@ == old(board)@,
        outcome is Stuck ==> next == Some(0usize) && final(board)@ == puzzle@,
        outcome is Stopped ==> next is None && final(board)@ == old(board)@,
{
    match outcome {
        RowOutcome::Placed => Some(n + 1),
        RowOutcome::Stuck => {
            *board = puzzle.clone();
            Some(0)
        },
        RowOutcome::Stopped => None,
    }
}

/// Searches for a completion of `board`: fills the rows in turn, each with
/// the first of its shuffled candidates that leaves no collision in any
/// column or block, and starts over from the board as given whenever a row
/// has no such candidate.
///
/// A candidate for a row is an arrangement of the digits missing from it,
/// written into its empty cells. The worker looks at `shared` before its
/// first attempt and after every 500 more; it gives up, with `None`, when the
/// signal then reads as set, and also when `usize::MAX` attempts have not
/// been enough. On success it sets the signal and returns the completed
/// board with the number of attempts made.
///
/// A returned board is the end of a run of visits: the first to row `0` of
/// the board as given, each next one where [`advance`] leads, the last one
/// placing row `8`. The number returned is the attempts of all those visits
/// together, the visits to rows that got stuck included.
///
/// `worker_id` tells workers apart for whoever runs them; the search does
/// not depend on it.
pub fn search(board: Grid, shared: &AtomicBool, worker_id: u8) -> (found: Option<(Grid, usize)>)
    requires
        is_board(board@),
    ensures
        found matches Some((solved, attempts)) ==> {
            &&& solves(board@, solved@)
            &&& keeps_clues(board@, solved@)
            &&& is_filled(solved@)
            &&& row_collisions(solved@) == row_collisions(board@)
            &&& row_collisions(board@) == 0 ==> collisions(solved@, true) == 0
            &&& attempts >= 9
        },
        found matches Some((solved, attempts)) ==> found_by_search(
            board@,
            solved@,
            attempts as nat,
        ),
        is_filled(board@) && collisions(board@, false) == 0 ==> (found matches Some(
            (solved, attempts),
        ) ==> solved@ == board@ && attempts == 9),
{
    let ghost puzzle = board@;
    let ghost easy = is_filled(puzzle) && collisions(puzzle, false) == 0;
    let original = board.clone();
    let mut board = board;
    let mut n: usize = 0;
    let mut counter: usize = 0;
    let ghost mut trail: Seq<Visit> = Seq::empty();
    while n < 9
        invariant
            is_trail(puzzle, trail),
            stands_at(puzzle, trail, n as int, board@),
            counter == tried_in_all(trail),
            is_board(puzzle),
            original@ == puzzle,
            easy == (is_filled(puzzle) && collisions(puzzle, false) == 0),
            is_board(board@),
            n <= 9,
            n <= counter,
            forall|r: int| n <= r < 9 ==> #[trigger] board@[r] == puzzle[r],
            forall|r: int| 0 <= r < n ==> completes(puzzle[r], #[trigger] board@[r]),
            n > 0 ==> collisions(board@, false) == 0,
            easy ==> board@ == puzzle && counter == n,
        decreases usize::MAX - counter,
    {
        let ghost base = board@;
        let (open, present) = row_slots(&board, n);
        let absent = missing_digits(&present);
        proof {
            lemma_open_cells(puzzle[n as int]);
            lemma_missing(present@);
            lemma_factorial_positive(absent@.len());
        }
        let mut candidates = arrangements(&absent);
        let ghost in_order = candidates@;
        shuffle(&mut candidates);
        proof {
            lemma_shuffled(in_order, candidates@, absent@);
            lemma_after_attempts(base, n as int, candidates@, 0);
            if easy {
                assert forall|c: int| 0 <= c < 9 implies #[trigger] base[n as int][c] != 0 by {}
                lemma_attempt_on_full_row(base, n as int, candidates@);
            }
        }
        let ghost before = counter;
        let outcome = place_row(&mut board, n, &open, &candidates, shared, &mut counter);
        proof {
            let tried = (counter - before) as nat;
            lemma_after_attempts(base, n as int, candidates@, tried);
            if easy {
                assert(fits(base, n as int, open@, candidates@, 1nat));
                if tried > 1 {
                    assert(!fits(base, n as int, open@, candidates@, 1nat));
                }
            }
        }
        proof {
            if !(outcome is Stopped) {
                let visit = Visit {
                    row: n as int,
                    before: base,
                    candidates: candidates@,
                    tried: (counter - before) as nat,
                };
                lemma_trail_grows(puzzle, trail, visit);
                trail = trail.push(visit);
            }
        }
        match advance(&mut board, &original, n, outcome) {
            Some(next) => {
                n = next;
            },
            None => {
                return None;
            },
        }
    }
    proof {
        lemma_solution(puzzle, board@);
        assert(is_run(puzzle, trail, board@) && counter == tried_in_all(trail));
        assert(found_by_search(puzzle, board@, counter as nat));
    }
    raise(shared);
    Some((board, counter))
}

} // verus!
