use crate::random::{gen_range, gen_ratio};
use crate::text::{
    decimal, decimal_string, digits_in, is_ascii_digit, join, join_strings, lemma_decimal_is_digits,
    lemma_digits_in_none,
};
use crate::ui::block_grid::{is_data_cell, BlockGrid, Cell};
use rand::rngs::ThreadRng;
use vstd::prelude::*;

verus! {

/// A cluster that is being moved: read from `source`, written to `target`.
#[derive(Clone, Copy, PartialEq, Eq, Structural, Debug)]
pub struct Transfer {
    pub source: usize,
    pub target: usize,
}

// ---------------------------------------------------------------------------
// Counting cells
// ---------------------------------------------------------------------------

/// Number of cells of `s` that satisfy `p`.
pub open spec fn count_cells(s: Seq<Cell>, p: spec_fn(Cell) -> bool) -> nat
    decreases s.len(),
{
    if s.len() == 0 {
        0
    } else {
        count_cells(s.drop_last(), p) + (if p(s.last()) {
            1nat
        } else {
            0nat
        })
    }
}

/// Number of clusters that hold file data.
pub open spec fn count_data(s: Seq<Cell>) -> nat {
    count_cells(s, |c: Cell| is_data_cell(c))
}

/// Number of free clusters.
pub open spec fn count_free(s: Seq<Cell>) -> nat {
    count_cells(s, |c: Cell| c == Cell::Free)
}

/// Overwriting one cell changes the count by that cell alone.
pub proof fn lemma_count_update(s: Seq<Cell>, i: int, c: Cell, p: spec_fn(Cell) -> bool)
    requires
        0 <= i < s.len(),
    ensures
        count_cells(s.update(i, c), p) + (if p(s[i]) {
            1int
        } else {
            0int
        }) == count_cells(s, p) + (if p(c) {
            1int
        } else {
            0int
        }),
    decreases s.len(),
{
    if i == s.len() - 1 {
        assert(s.update(i, c).drop_last() =~= s.drop_last());
    } else {
        lemma_count_update(s.drop_last(), i, c, p);
        assert(s.update(i, c).drop_last() =~= s.drop_last().update(i, c));
    }
}

/// A count is zero exactly when no cell satisfies the predicate.
pub proof fn lemma_count_zero(s: Seq<Cell>, p: spec_fn(Cell) -> bool)
    ensures
        count_cells(s, p) == 0 <==> forall|i: int| 0 <= i < s.len() ==> !p(#[trigger] s[i]),
    decreases s.len(),
{
    if s.len() > 0 {
        lemma_count_zero(s.drop_last(), p);
        if count_cells(s, p) == 0 {
            assert forall|i: int| 0 <= i < s.len() implies !p(#[trigger] s[i]) by {
                if i < s.len() - 1 {
                    assert(s[i] == s.drop_last()[i]);
                }
            }
        }
        if forall|i: int| 0 <= i < s.len() ==> !p(#[trigger] s[i]) {
            assert(!p(s[s.len() - 1]));
            assert forall|i: int| 0 <= i < s.drop_last().len() implies !p(
                #[trigger] s.drop_last()[i],
            ) by {
                assert(s.drop_last()[i] == s[i]);
            }
        }
    }
}

// ---------------------------------------------------------------------------
// Settled grids and pending work
// ---------------------------------------------------------------------------

/// No free cluster lies before a cluster holding data: the disk is compacted.
pub open spec fn settled(s: Seq<Cell>) -> bool {
    forall|i: int, j: int|
        0 <= i < j < s.len() && #[trigger] s[i] == Cell::Free ==> !is_data_cell(#[trigger] s[j])
}

/// `h` is the index of the first free cluster.
pub open spec fn is_first_free(s: Seq<Cell>, h: int) -> bool {
    &&& 0 <= h < s.len()
    &&& s[h] == Cell::Free
    &&& forall|j: int| 0 <= j < h ==> #[trigger] s[j] != Cell::Free
}

/// The clusters of data that still lie behind the first free cluster; zero
/// when no cluster is free.
pub open spec fn pending_work(s: Seq<Cell>) -> nat {
    if exists|h: int| is_first_free(s, h) {
        count_data(s.subrange(choose|h: int| is_first_free(s, h), s.len() as int))
    } else {
        0
    }
}

proof fn lemma_first_free_unique(s: Seq<Cell>, a: int, b: int)
    requires
        is_first_free(s, a),
        is_first_free(s, b),
    ensures
        a == b,
{
    if a < b {
        assert(s[a] != Cell::Free);
    }
    if b < a {
        assert(s[b] != Cell::Free);
    }
}

/// Nothing is pending exactly when the grid is settled.
pub proof fn lemma_pending_zero_iff_settled(s: Seq<Cell>)
    ensures
        pending_work(s) == 0 <==> settled(s),
{
    let p = |c: Cell| is_data_cell(c);
    if exists|h: int| is_first_free(s, h) {
        let h = choose|h: int| is_first_free(s, h);
        let tail = s.subrange(h, s.len() as int);
        lemma_count_zero(tail, p);
        if settled(s) {
            assert forall|i: int| 0 <= i < tail.len() implies !p(#[trigger] tail[i]) by {
                if i > 0 {
                    assert(s[h] == Cell::Free);
                    assert(tail[i] == s[h + i]);
                    assert(!is_data_cell(s[h + i]));
                } else {
                    assert(tail[0] == s[h]);
                }
            }
        }
        if pending_work(s) == 0 {
            assert forall|i: int, j: int|
                0 <= i < j < s.len() && #[trigger] s[i] == Cell::Free implies !is_data_cell(
                #[trigger] s[j],
            ) by {
                if !(i < h) {
                    assert(tail[j - h] == s[j]);
                    assert(!p(tail[j - h]));
                }
            }
        }
    } else {
        assert forall|i: int, j: int|
            0 <= i < j < s.len() && #[trigger] s[i] == Cell::Free implies !is_data_cell(
            #[trigger] s[j],
        ) by {
            lemma_first_free_exists(s, i);
        }
    }
}

/// When some cluster is free, a first free cluster exists.
pub proof fn lemma_first_free_exists(s: Seq<Cell>, i: int)
    requires
        0 <= i < s.len(),
        s[i] == Cell::Free,
    ensures
        exists|h: int| is_first_free(s, h),
    decreases i,
{
    if forall|j: int| 0 <= j < i ==> #[trigger] s[j] != Cell::Free {
        assert(is_first_free(s, i));
    } else {
        let j = choose|j: int| 0 <= j < i && #[trigger] s[j] == Cell::Free;
        lemma_first_free_exists(s, j);
    }
}

/// Pending work counts every data cluster at or after the first free
/// cluster, one by one.
pub proof fn lemma_pending_counts_each(s: Seq<Cell>, h: int)
    requires
        is_first_free(s, h),
    ensures
        pending_work(s) == count_data(s.subrange(h, s.len() as int)),
{
    let c = choose|c: int| is_first_free(s, c);
    lemma_first_free_unique(s, c, h);
}

/// Freeing one data cluster that lies behind the first free cluster lowers
/// the pending work by exactly one.
pub proof fn lemma_pending_drops_by_one(s: Seq<Cell>, h: int, i: int)
    requires
        is_first_free(s, h),
        h < i < s.len(),
        is_data_cell(s[i]),
    ensures
        pending_work(s.update(i, Cell::Free)) + 1 == pending_work(s),
{
    let t = s.update(i, Cell::Free);
    assert(is_first_free(t, h));
    lemma_pending_counts_each(s, h);
    lemma_pending_counts_each(t, h);
    let sub = s.subrange(h, s.len() as int);
    assert(t.subrange(h, s.len() as int) =~= sub.update(i - h, Cell::Free));
    lemma_count_update(sub, i - h, Cell::Free, |c: Cell| is_data_cell(c));
}

/// Pending work never counts a cluster that does not hold data: it is at
/// most the number of clusters behind the first free one.
pub proof fn lemma_pending_at_most_tail(s: Seq<Cell>, h: int)
    requires
        is_first_free(s, h),
    ensures
        pending_work(s) <= s.len() - h,
{
    lemma_pending_counts_each(s, h);
    lemma_count_at_most_len(s.subrange(h, s.len() as int), |c: Cell| is_data_cell(c));
}

/// A count never exceeds the length.
pub proof fn lemma_count_at_most_len(s: Seq<Cell>, p: spec_fn(Cell) -> bool)
    ensures
        count_cells(s, p) <= s.len(),
    decreases s.len(),
{
    if s.len() > 0 {
        lemma_count_at_most_len(s.drop_last(), p);
    }
}

/// Whether a cluster is free.
fn is_free(cell: Cell) -> (b: bool)
    ensures
        b == (cell == Cell::Free),
{
    cell == Cell::Free
}

/// The number of data clusters that still lie behind the first free cluster.
pub fn pending(grid: &BlockGrid) -> (n: usize)
    ensures
        n == pending_work(grid@),
{
    match grid.find(0, is_free) {
        Some(head) => {
            proof {
                assert(is_first_free(grid@, head as int));
                let h = choose|h: int| is_first_free(grid@, h);
                lemma_first_free_unique(grid@, h, head as int);
            }
            let n = grid.len();
            let mut count: usize = 0;
            let mut i = head;
            while i < n
                invariant
                    head <= i <= n,
                    n == grid@.len(),
                    count == count_data(grid@.subrange(head as int, i as int)),
                    count <= i - head,
                decreases n - i,
            {
                proof {
                    assert(grid@.subrange(head as int, i + 1).drop_last() =~= grid@.subrange(
                        head as int,
                        i as int,
                    ));
                }
                if grid.get(i).is_data() {
                    count = count + 1;
                }
                i = i + 1;
            }
            count
        },
        None => {
            proof {
                if exists|h: int| is_first_free(grid@, h) {
                    let h = choose|h: int| is_first_free(grid@, h);
                    assert(grid@[h] == Cell::Free);
                }
            }
            0
        },
    }
}

// ---------------------------------------------------------------------------
// Moving clusters
// ---------------------------------------------------------------------------

/// `s` with each move applied in order: its source becomes `at_source` and
/// its target `at_target`, the target first when `target_first` holds.
pub open spec fn paint_moves(
    s: Seq<Cell>,
    ts: Seq<Transfer>,
    at_source: Cell,
    at_target: Cell,
    target_first: bool,
) -> Seq<Cell>
    decreases ts.len(),
{
    if ts.len() == 0 {
        s
    } else {
        let t = ts.last();
        let prev = paint_moves(s, ts.drop_last(), at_source, at_target, target_first);
        if target_first {
            prev.update(t.target as int, at_target).update(t.source as int, at_source)
        } else {
            prev.update(t.source as int, at_source).update(t.target as int, at_target)
        }
    }
}

/// The grid once the moves are under way: in order, each move marks its
/// source Reading and then its target Writing.
pub open spec fn mark_moves(s: Seq<Cell>, ts: Seq<Transfer>) -> Seq<Cell> {
    paint_moves(s, ts, Cell::Reading, Cell::Writing, false)
}

/// The grid once the moves are done: in order, each move marks its target
/// Used and then its source Free.
pub open spec fn commit_moves(s: Seq<Cell>, ts: Seq<Transfer>) -> Seq<Cell> {
    paint_moves(s, ts, Cell::Free, Cell::Used, true)
}

/// The grid once the moves are called off: in order, each move marks its
/// source Fragmented and then its target Free.
pub open spec fn abort_moves(s: Seq<Cell>, ts: Seq<Transfer>) -> Seq<Cell> {
    paint_moves(s, ts, Cell::Fragmented, Cell::Free, false)
}

/// Each move takes a data cluster to a free cluster before it; targets rise
/// and sources fall from one move to the next.
pub open spec fn valid_moves(s: Seq<Cell>, ts: Seq<Transfer>) -> bool {
    &&& forall|i: int|
        #![trigger ts[i]]
        0 <= i < ts.len() ==> {
            &&& ts[i].target < ts[i].source < s.len()
            &&& s[ts[i].target as int] == Cell::Free
            &&& is_data_cell(s[ts[i].source as int])
        }
    &&& forall|i: int, j: int|
        #![trigger ts[i], ts[j]]
        0 <= i < j < ts.len() ==> ts[i].target < ts[j].target && ts[j].source < ts[i].source
}

/// `ts` are the moves that the greedy planner makes on `old` with at most
/// `moves` moves, and `new` is the grid it leaves: each move fills the first
/// free cluster with the last data cluster, and planning stops early only
/// once the grid is settled.
pub open spec fn planned(old: Seq<Cell>, new: Seq<Cell>, ts: Seq<Transfer>, moves: nat) -> bool {
    &&& ts.len() <= moves
    &&& valid_moves(old, ts)
    &&& new == mark_moves(old, ts)
    &&& ts.len() > 0 ==> {
        &&& forall|p: int| 0 <= p < ts.last().target ==> #[trigger] new[p] != Cell::Free
        &&& forall|p: int|
            ts.last().source < p < new.len() ==> !is_data_cell(#[trigger] new[p])
    }
    &&& ts.len() < moves ==> settled(new)
}

/// Plans up to `moves` moves: each one takes the last cluster of data to the
/// first free cluster, marking it Reading and the target Writing, until the
/// disk is compacted.
pub fn plan_transfers(grid: &mut BlockGrid, moves: usize) -> (ts: Vec<Transfer>)
    ensures
        planned(old(grid)@, final(grid)@, ts@, moves as nat),
        final(grid).spec_width() == old(grid).spec_width(),
        final(grid).spec_last_frame() == old(grid).spec_last_frame(),
{
    let ghost g0 = grid@;
    let mut ts: Vec<Transfer> = Vec::new();
    while ts.len() < moves
        invariant
            ts.len() <= moves,
            grid@.len() == g0.len(),
            grid.spec_width() == old(grid).spec_width(),
            grid.spec_last_frame() == old(grid).spec_last_frame(),
            g0 == old(grid)@,
            valid_moves(g0, ts@),
            grid@ == mark_moves(g0, ts@),
            forall|p: int|
                0 <= p < grid@.len() ==> #[trigger] grid@[p] == g0[p] || grid@[p] == Cell::Reading
                    || grid@[p] == Cell::Writing,
            ts.len() > 0 ==> {
                &&& grid@[ts@.last().target as int] == Cell::Writing
                &&& grid@[ts@.last().source as int] == Cell::Reading
                &&& forall|p: int| 0 <= p < ts@.last().target ==> #[trigger] grid@[p] != Cell::Free
                &&& forall|p: int|
                    ts@.last().source < p < grid@.len() ==> !is_data_cell(#[trigger] grid@[p])
            },
        ensures
            ts.len() < moves ==> settled(grid@),
        decreases moves - ts.len(),
    {
        let target = match grid.find(0, is_free) {
            Some(t) => t,
            None => {
                break;
            },
        };
        let n = grid.len();
        let source = match grid.rfind(n, Cell::is_data) {
            Some(s) => s,
            None => {
                break;
            },
        };
        if source < target {
            break;
        }
        let ghost before = grid@;
        let ghost old_ts = ts@;
        grid.set(source, Cell::Reading);
        grid.set(target, Cell::Writing);
        let t = Transfer { source, target };
        ts.push(t);
        proof {
            assert(ts@.drop_last() =~= old_ts);
            assert(before[target as int] == Cell::Free);
            assert(is_data_cell(before[source as int]));
            if old_ts.len() > 0 {
                let last = old_ts.last();
                assert(before[last.target as int] == Cell::Writing);
                assert(before[last.source as int] == Cell::Reading);
                assert(last.target < target);
                assert(source < last.source);
            }
            assert forall|i: int, j: int|
                #![trigger ts@[i], ts@[j]]
                0 <= i < j < ts@.len() implies ts@[i].target < ts@[j].target && ts@[j].source
                < ts@[i].source by {
                if j == ts@.len() - 1 && i < j - 1 {
                    assert(ts@[i] == old_ts[i]);
                    assert(old_ts[j - 1] == old_ts.last());
                }
            }
        }
    }
    ts
}

/// Carries out the moves: each target becomes Used and each source Free, in
/// order; the list is emptied.
pub fn commit_transfers(grid: &mut BlockGrid, transfers: &mut Vec<Transfer>)
    requires
        moves_in_bounds(old(transfers)@, old(grid)@.len()),
    ensures
        final(grid)@ == commit_moves(old(grid)@, old(transfers)@),
        final(transfers)@.len() == 0,
        final(grid).spec_width() == old(grid).spec_width(),
        final(grid).spec_last_frame() == old(grid).spec_last_frame(),
{
    let ghost g0 = grid@;
    let mut i: usize = 0;
    while i < transfers.len()
        invariant
            i <= transfers@.len(),
            transfers@ == old(transfers)@,
            g0 == old(grid)@,
            moves_in_bounds(transfers@, g0.len()),
            grid@ == commit_moves(g0, transfers@.take(i as int)),
            grid@.len() == g0.len(),
            grid.spec_width() == old(grid).spec_width(),
            grid.spec_last_frame() == old(grid).spec_last_frame(),
        decreases transfers@.len() - i,
    {
        let t = transfers[i];
        proof {
            assert(transfers@.take(i + 1).drop_last() =~= transfers@.take(i as int));
            assert(transfers@.take(i + 1).last() == t);
            assert(t == transfers@[i as int]);
        }
        grid.set(t.target, Cell::Used);
        grid.set(t.source, Cell::Free);
        i = i + 1;
    }
    proof {
        assert(transfers@.take(i as int) =~= transfers@);
    }
    transfers.clear();
}

/// Calls the moves off: each source becomes Fragmented and each target Free,
/// in order; the list is emptied.
pub fn abort_transfers(grid: &mut BlockGrid, transfers: &mut Vec<Transfer>)
    requires
        moves_in_bounds(old(transfers)@, old(grid)@.len()),
    ensures
        final(grid)@ == abort_moves(old(grid)@, old(transfers)@),
        final(transfers)@.len() == 0,
        final(grid).spec_width() == old(grid).spec_width(),
        final(grid).spec_last_frame() == old(grid).spec_last_frame(),
{
    let ghost g0 = grid@;
    let mut i: usize = 0;
    while i < transfers.len()
        invariant
            i <= transfers@.len(),
            transfers@ == old(transfers)@,
            g0 == old(grid)@,
            moves_in_bounds(transfers@, g0.len()),
            grid@ == abort_moves(g0, transfers@.take(i as int)),
            grid@.len() == g0.len(),
            grid.spec_width() == old(grid).spec_width(),
            grid.spec_last_frame() == old(grid).spec_last_frame(),
        decreases transfers@.len() - i,
    {
        let t = transfers[i];
        proof {
            assert(transfers@.take(i + 1).drop_last() =~= transfers@.take(i as int));
            assert(transfers@.take(i + 1).last() == t);
            assert(t == transfers@[i as int]);
        }
        grid.set(t.source, Cell::Fragmented);
        grid.set(t.target, Cell::Free);
        i = i + 1;
    }
    proof {
        assert(transfers@.take(i as int) =~= transfers@);
    }
    transfers.clear();
}

/// Every move names clusters of a grid of `n` clusters.
pub open spec fn moves_in_bounds(ts: Seq<Transfer>, n: nat) -> bool {
    forall|i: int| #![trigger ts[i]] 0 <= i < ts.len() ==> ts[i].target < n && ts[i].source < n
}

/// No cluster takes part in two moves, nor twice in one.
pub open spec fn moves_disjoint(ts: Seq<Transfer>) -> bool {
    forall|i: int, j: int|
        #![trigger ts[i], ts[j]]
        0 <= i < ts.len() && 0 <= j < ts.len() ==> ts[i].target != ts[j].source && (i != j ==> (
        ts[i].target != ts[j].target && ts[i].source != ts[j].source))
}

/// Some move writes cluster `p`.
pub open spec fn is_move_target(ts: Seq<Transfer>, p: int) -> bool {
    exists|i: int| 0 <= i < ts.len() && ts[i].target == p
}

/// Some move reads cluster `p`.
pub open spec fn is_move_source(ts: Seq<Transfer>, p: int) -> bool {
    exists|i: int| 0 <= i < ts.len() && ts[i].source == p
}

/// Valid moves are in bounds and touch each cluster at most once.
pub proof fn lemma_valid_moves_disjoint(s: Seq<Cell>, ts: Seq<Transfer>)
    requires
        valid_moves(s, ts),
    ensures
        moves_in_bounds(ts, s.len()),
        moves_disjoint(ts),
{
    assert forall|i: int, j: int|
        #![trigger ts[i], ts[j]]
        0 <= i < ts.len() && 0 <= j < ts.len() implies ts[i].target != ts[j].source && (i != j
        ==> (ts[i].target != ts[j].target && ts[i].source != ts[j].source)) by {
        assert(ts[i].target < ts[i].source);
        assert(ts[j].target < ts[j].source);
        if i < j {
            assert(ts[i].target < ts[j].target && ts[j].source < ts[i].source);
        } else if j < i {
            assert(ts[j].target < ts[i].target && ts[i].source < ts[j].source);
        }
    }
}

/// With disjoint moves, each cluster ends as its last painter left it: a
/// target as `at_target`, a source as `at_source`, any other unchanged.
pub proof fn lemma_paint_at(
    s: Seq<Cell>,
    ts: Seq<Transfer>,
    at_source: Cell,
    at_target: Cell,
    target_first: bool,
)
    requires
        moves_in_bounds(ts, s.len()),
        moves_disjoint(ts),
    ensures
        paint_moves(s, ts, at_source, at_target, target_first).len() == s.len(),
        forall|p: int|
            0 <= p < s.len() ==> #[trigger] paint_moves(
                s,
                ts,
                at_source,
                at_target,
                target_first,
            )[p] == if is_move_target(ts, p) {
                at_target
            } else if is_move_source(ts, p) {
                at_source
            } else {
                s[p]
            },
    decreases ts.len(),
{
    if ts.len() > 0 {
        let pre = ts.drop_last();
        let t = ts.last();
        let k = ts.len() - 1;
        assert forall|i: int| #![trigger pre[i]] 0 <= i < pre.len() implies pre[i] == ts[i] by {}
        assert(moves_in_bounds(pre, s.len()));
        assert forall|i: int, j: int|
            #![trigger pre[i], pre[j]]
            0 <= i < pre.len() && 0 <= j < pre.len() implies pre[i].target != pre[j].source && (i
            != j ==> (pre[i].target != pre[j].target && pre[i].source != pre[j].source)) by {
            assert(pre[i] == ts[i] && pre[j] == ts[j]);
        }
        lemma_paint_at(s, pre, at_source, at_target, target_first);
        let res = paint_moves(s, ts, at_source, at_target, target_first);
        assert(t == ts[k]);
        assert(t.target < s.len() && t.source < s.len());
        assert forall|p: int| 0 <= p < s.len() implies #[trigger] res[p] == if is_move_target(
            ts,
            p,
        ) {
            at_target
        } else if is_move_source(ts, p) {
            at_source
        } else {
            s[p]
        } by {
            if p == t.target {
                assert(is_move_target(ts, p));
            } else if p == t.source {
                assert(is_move_source(ts, p));
                assert forall|i: int| 0 <= i < ts.len() implies ts[i].target != p by {
                    assert(ts[i].target != ts[k].source);
                }
            } else {
                if is_move_target(ts, p) {
                    let i = choose|i: int| 0 <= i < ts.len() && ts[i].target == p;
                    assert(i != k);
                    assert(pre[i].target == p);
                    assert(is_move_target(pre, p));
                }
                if is_move_source(ts, p) {
                    let i = choose|i: int| 0 <= i < ts.len() && ts[i].source == p;
                    assert(i != k);
                    assert(pre[i].source == p);
                    assert(is_move_source(pre, p));
                }
                if is_move_target(pre, p) {
                    let i = choose|i: int| 0 <= i < pre.len() && pre[i].target == p;
                    assert(ts[i].target == p);
                }
                if is_move_source(pre, p) {
                    let i = choose|i: int| 0 <= i < pre.len() && pre[i].source == p;
                    assert(ts[i].source == p);
                }
            }
        }
    }
}

/// Painting each valid move onto the grid it was planned on, keeping data in
/// data and free space in free space, keeps both counts.
proof fn lemma_paint_counts(
    s: Seq<Cell>,
    ts: Seq<Transfer>,
    at_source: Cell,
    at_target: Cell,
    target_first: bool,
)
    requires
        valid_moves(s, ts),
        is_data_cell(at_source) || at_source == Cell::Free,
        is_data_cell(at_target) || at_target == Cell::Free,
        is_data_cell(at_source) != is_data_cell(at_target),
    ensures
        count_data(paint_moves(s, ts, at_source, at_target, target_first)) == count_data(s),
        count_free(paint_moves(s, ts, at_source, at_target, target_first)) == count_free(s),
        at_source == Cell::Free ==> data_weight(
            paint_moves(s, ts, at_source, at_target, target_first),
        ) + ts.len() <= data_weight(s),
    decreases ts.len(),
{
    if ts.len() > 0 {
        let pre = ts.drop_last();
        let t = ts.last();
        let k = ts.len() - 1;
        assert(t == ts[k]);
        assert forall|i: int| #![trigger pre[i]] 0 <= i < pre.len() implies pre[i] == ts[i] by {}
        assert(valid_moves(s, pre)) by {
            assert forall|i: int, j: int|
                #![trigger pre[i], pre[j]]
                0 <= i < j < pre.len() implies pre[i].target < pre[j].target && pre[j].source
                < pre[i].source by {
                assert(pre[i] == ts[i] && pre[j] == ts[j]);
            }
        }
        lemma_paint_counts(s, pre, at_source, at_target, target_first);
        lemma_valid_moves_disjoint(s, ts);
        lemma_valid_moves_disjoint(s, pre);
        lemma_paint_at(s, pre, at_source, at_target, target_first);
        let prev = paint_moves(s, pre, at_source, at_target, target_first);
        let tg = t.target as int;
        let sc = t.source as int;
        if is_move_target(pre, tg) {
            let i = choose|i: int| 0 <= i < pre.len() && pre[i].target == tg;
            assert(ts[i].target == ts[k].target);
        }
        if is_move_source(pre, tg) {
            let i = choose|i: int| 0 <= i < pre.len() && pre[i].source == tg;
            assert(ts[k].target != ts[i].source);
        }
        if is_move_target(pre, sc) {
            let i = choose|i: int| 0 <= i < pre.len() && pre[i].target == sc;
            assert(ts[i].target != ts[k].source);
        }
        if is_move_source(pre, sc) {
            let i = choose|i: int| 0 <= i < pre.len() && pre[i].source == sc;
            assert(ts[i].source == ts[k].source);
        }
        assert(prev[tg] == Cell::Free);
        assert(is_data_cell(prev[sc]));
        let pd = |c: Cell| is_data_cell(c);
        let pf = |c: Cell| c == Cell::Free;
        if target_first {
            let mid = prev.update(tg, at_target);
            lemma_count_update(prev, tg, at_target, pd);
            lemma_count_update(prev, tg, at_target, pf);
            lemma_count_update(mid, sc, at_source, pd);
            lemma_count_update(mid, sc, at_source, pf);
            lemma_weight_update(prev, tg, at_target);
            lemma_weight_update(mid, sc, at_source);
        } else {
            let mid = prev.update(sc, at_source);
            lemma_count_update(prev, sc, at_source, pd);
            lemma_count_update(prev, sc, at_source, pf);
            lemma_count_update(mid, tg, at_target, pd);
            lemma_count_update(mid, tg, at_target, pf);
            lemma_weight_update(prev, sc, at_source);
            lemma_weight_update(mid, tg, at_target);
        }
    }
}

/// Marking moves and then carrying them out is the same as carrying them
/// out on the unmarked grid.
proof fn lemma_mark_then_paint(
    s: Seq<Cell>,
    ts: Seq<Transfer>,
    at_source: Cell,
    at_target: Cell,
    target_first: bool,
)
    requires
        valid_moves(s, ts),
    ensures
        paint_moves(mark_moves(s, ts), ts, at_source, at_target, target_first) == paint_moves(
            s,
            ts,
            at_source,
            at_target,
            target_first,
        ),
{
    lemma_valid_moves_disjoint(s, ts);
    let m = mark_moves(s, ts);
    lemma_paint_at(s, ts, Cell::Reading, Cell::Writing, false);
    lemma_paint_at(m, ts, at_source, at_target, target_first);
    lemma_paint_at(s, ts, at_source, at_target, target_first);
    assert(paint_moves(m, ts, at_source, at_target, target_first) =~= paint_moves(
        s,
        ts,
        at_source,
        at_target,
        target_first,
    ));
}

/// Moving clusters never creates or destroys data: planning moves and then
/// carrying them out leaves as many data clusters, and as many free ones, as
/// there were before.
pub proof fn lemma_commit_preserves_data(s: Seq<Cell>, ts: Seq<Transfer>)
    requires
        valid_moves(s, ts),
    ensures
        count_data(commit_moves(mark_moves(s, ts), ts)) == count_data(s),
        count_free(commit_moves(mark_moves(s, ts), ts)) == count_free(s),
{
    lemma_mark_then_paint(s, ts, Cell::Free, Cell::Used, true);
    lemma_paint_counts(s, ts, Cell::Free, Cell::Used, true);
}

/// Calling planned moves off loses no data either: every source still holds
/// data and every target is free again.
pub proof fn lemma_abort_preserves_data(s: Seq<Cell>, ts: Seq<Transfer>)
    requires
        valid_moves(s, ts),
    ensures
        count_data(abort_moves(mark_moves(s, ts), ts)) == count_data(s),
        count_free(abort_moves(mark_moves(s, ts), ts)) == count_free(s),
{
    lemma_mark_then_paint(s, ts, Cell::Fragmented, Cell::Free, false);
    lemma_paint_counts(s, ts, Cell::Fragmented, Cell::Free, false);
}

/// Whether a cluster holds data.
fn holds_data(cell: Cell) -> (b: bool)
    ensures
        b == is_data_cell(cell),
{
    cell.is_data()
}

/// `p` is the last cluster holding data before `head`.
pub open spec fn is_last_data_before(s: Seq<Cell>, head: int, p: int) -> bool {
    &&& 0 <= p < head
    &&& p < s.len()
    &&& is_data_cell(s[p])
    &&& forall|q: int| p < q < head && q < s.len() ==> !is_data_cell(#[trigger] s[q])
}

/// One displacement aimed at `target`: the last data cluster before `head`
/// moves there when it is free (landing fragmented, the source freed);
/// otherwise, or when no data lies before `head`, nothing changes.
pub open spec fn displace_step(s: Seq<Cell>, head: int, target: int) -> Seq<Cell> {
    if exists|p: int| is_last_data_before(s, head, p) {
        let p = choose|p: int| is_last_data_before(s, head, p);
        if s[target] == Cell::Free {
            s.update(target, Cell::Fragmented).update(p, Cell::Free)
        } else {
            s
        }
    } else {
        s
    }
}

/// The displacements aimed at `targets`, one after another.
pub open spec fn displace(s: Seq<Cell>, head: int, targets: Seq<usize>) -> Seq<Cell>
    decreases targets.len(),
{
    if targets.len() == 0 {
        s
    } else {
        displace_step(displace(s, head, targets.drop_last()), head, targets.last() as int)
    }
}

proof fn lemma_last_data_unique(s: Seq<Cell>, head: int, p: int)
    requires
        is_last_data_before(s, head, p),
    ensures
        (choose|q: int| is_last_data_before(s, head, q)) == p,
{
    let q = choose|q: int| is_last_data_before(s, head, q);
    assert(is_last_data_before(s, head, q));
    if q < p {
        assert(!is_data_cell(s[p]));
    }
    if p < q {
        assert(!is_data_cell(s[q]));
    }
}

/// Moves the last data cluster before `head` to `target` if that cluster
/// is free, as one step of `refragment` does with its random target.
pub fn displace_once(grid: &mut BlockGrid, head: usize, target: usize)
    requires
        target < old(grid)@.len(),
    ensures
        final(grid)@ == displace_step(old(grid)@, head as int, target as int),
        final(grid).spec_width() == old(grid).spec_width(),
        final(grid).spec_last_frame() == old(grid).spec_last_frame(),
{
    match grid.rfind(head, holds_data) {
        Some(source) => {
            proof {
                assert(is_last_data_before(grid@, head as int, source as int));
                lemma_last_data_unique(grid@, head as int, source as int);
            }
            if grid.get(target) == Cell::Free {
                grid.set(target, Cell::Fragmented);
                grid.set(source, Cell::Free);
            }
        },
        None => {
            proof {
                if exists|p: int| is_last_data_before(grid@, head as int, p) {
                    let p = choose|p: int| is_last_data_before(grid@, head as int, p);
                    assert(is_data_cell(grid@[p]));
                }
            }
        },
    }
}

/// Freeing data clusters and filling free ones with fragmented data keeps
/// the fixtures and, with the data count kept, the data in transit.
proof fn lemma_displacement_keeps(a: Seq<Cell>, b: Seq<Cell>)
    requires
        a.len() == b.len(),
        count_data(a) == count_data(b),
        forall|p: int|
            0 <= p < a.len() ==> #[trigger] b[p] == a[p] || (is_data_cell(a[p]) && b[p]
                == Cell::Free) || (a[p] == Cell::Free && b[p] == Cell::Fragmented),
    ensures
        same_fixtures(a, b),
        in_transit(a) == in_transit(b),
{
    lemma_count_pointwise(a, b, |c: Cell| c == Cell::Reading);
}

/// Scatters data again after a restart: up to `displaced` times, the last
/// data cluster before `head` is moved to a random cluster at or after
/// `head`, if that cluster is free (it lands there fragmented). It stops
/// early once no data is left before `head`.
pub fn refragment(grid: &mut BlockGrid, head: usize, displaced: usize)
    requires
        head < old(grid)@.len() || displaced == 0 || forall|p: int|
            0 <= p < head && p < old(grid)@.len() ==> !is_data_cell(#[trigger] old(grid)@[p]),
    ensures
        exists|targets: Seq<usize>|
            {
                &&& targets.len() <= displaced
                &&& forall|i: int|
                    0 <= i < targets.len() ==> head <= #[trigger] targets[i] < old(grid)@.len()
                &&& final(grid)@ == displace(old(grid)@, head as int, targets)
                &&& targets.len() < displaced ==> forall|p: int|
                    0 <= p < head && p < final(grid)@.len() ==> !is_data_cell(
                        #[trigger] final(grid)@[p],
                    )
            },
        final(grid)@.len() == old(grid)@.len(),
        final(grid).spec_width() == old(grid).spec_width(),
        final(grid).spec_last_frame() == old(grid).spec_last_frame(),
        count_data(final(grid)@) == count_data(old(grid)@),
        count_free(final(grid)@) == count_free(old(grid)@),
        forall|p: int|
            0 <= p < head && p < old(grid)@.len() ==> #[trigger] final(grid)@[p] == old(grid)@[p]
                || (is_data_cell(old(grid)@[p]) && final(grid)@[p] == Cell::Free),
        forall|p: int|
            head <= p < old(grid)@.len() ==> #[trigger] final(grid)@[p] == old(grid)@[p] || (
            old(grid)@[p] == Cell::Free && final(grid)@[p] == Cell::Fragmented),
        forall|p: int, q: int|
            0 <= p < q < head && q < old(grid)@.len() && is_data_cell(old(grid)@[p])
                && #[trigger] final(grid)@[p] == Cell::Free ==> !is_data_cell(
                #[trigger] final(grid)@[q],
            ),
        head <= old(grid)@.len() ==> count_data(old(grid)@.take(head as int)) <= count_data(
            final(grid)@.take(head as int),
        ) + displaced,
        same_fixtures(old(grid)@, final(grid)@),
        in_transit(final(grid)@) == in_transit(old(grid)@),
{
    let mut rng = rand::thread_rng();
    let total = grid.len();
    let ghost g0 = grid@;
    let ghost h = if head <= total {
        head as int
    } else {
        total as int
    };
    let ghost pd = |c: Cell| is_data_cell(c);
    let ghost pf = |c: Cell| c == Cell::Free;
    let ghost mut targets: Seq<usize> = Seq::empty();
    if displaced == 0 {
        proof {
            assert(grid@.take(h) == g0.take(h));
            assert(grid@ == displace(g0, head as int, targets));
            lemma_displacement_keeps(g0, grid@);
        }
        return;
    }
    let mut round: usize = 0;
    while round < displaced
        invariant
            round <= displaced,
            total == g0.len(),
            g0 == old(grid)@,
            head < total || forall|p: int|
                0 <= p < head && p < total ==> !is_data_cell(#[trigger] g0[p]),
            h == if head <= total {
                head as int
            } else {
                total as int
            },
            pd == (|c: Cell| is_data_cell(c)),
            pf == (|c: Cell| c == Cell::Free),
            grid@.len() == total,
            grid.spec_width() == old(grid).spec_width(),
            grid.spec_last_frame() == old(grid).spec_last_frame(),
            count_data(grid@) == count_data(g0),
            count_free(grid@) == count_free(g0),
            forall|p: int|
                0 <= p < head && p < total ==> #[trigger] grid@[p] == g0[p] || (is_data_cell(g0[p])
                    && grid@[p] == Cell::Free),
            forall|p: int|
                head <= p < total ==> #[trigger] grid@[p] == g0[p] || (g0[p] == Cell::Free
                    && grid@[p] == Cell::Fragmented),
            forall|p: int, q: int|
                0 <= p < q < head && q < total && is_data_cell(g0[p]) && #[trigger] grid@[p]
                    == Cell::Free ==> !is_data_cell(#[trigger] grid@[q]),
            count_data(g0.take(h)) <= count_data(grid@.take(h)) + round,
            targets.len() == round,
            forall|i: int| 0 <= i < targets.len() ==> head <= #[trigger] targets[i] < total,
            grid@ == displace(g0, head as int, targets),
        ensures
            round < displaced ==> forall|p: int|
                0 <= p < head && p < total ==> !is_data_cell(#[trigger] grid@[p]),
        decreases displaced - round,
    {
        let source = match grid.rfind(head, holds_data) {
            Some(s) => s,
            None => {
                break;
            },
        };
        let target = gen_range(&mut rng, head, total);
        let ghost before = grid@;
        let ghost old_targets = targets;
        proof {
            assert(is_last_data_before(before, head as int, source as int));
            lemma_last_data_unique(before, head as int, source as int);
        }
        displace_once(grid, head, target);
        proof {
            targets = targets.push(target);
            assert(targets.drop_last() =~= old_targets);
            if before[target as int] == Cell::Free {
                let mid = before.update(target as int, Cell::Fragmented);
                assert(grid@ == mid.update(source as int, Cell::Free));
                lemma_count_update(before, target as int, Cell::Fragmented, pd);
                lemma_count_update(before, target as int, Cell::Fragmented, pf);
                lemma_count_update(mid, source as int, Cell::Free, pd);
                lemma_count_update(mid, source as int, Cell::Free, pf);
                assert(mid.take(h) =~= before.take(h));
                assert(grid@.take(h) =~= mid.take(h).update(source as int, Cell::Free));
                lemma_count_update(mid.take(h), source as int, Cell::Free, pd);
                assert forall|p: int, q: int|
                    0 <= p < q < head && q < total && is_data_cell(g0[p]) && #[trigger] grid@[p]
                        == Cell::Free implies !is_data_cell(#[trigger] grid@[q]) by {
                    if p != source as int && q != source as int {
                        assert(before[p] == grid@[p]);
                        assert(before[q] == grid@[q]);
                    } else if p == source as int {
                        assert(before[q] == grid@[q]);
                    }
                }
            } else {
                assert(grid@ == before);
            }
        }
        round = round + 1;
    }
    proof {
        assert forall|p: int| 0 <= p < g0.len() implies #[trigger] grid@[p] == g0[p] || (
        is_data_cell(g0[p]) && grid@[p] == Cell::Free) || (g0[p] == Cell::Free && grid@[p]
            == Cell::Fragmented) by {}
        lemma_displacement_keeps(g0, grid@);
        assert(targets.len() <= displaced && (forall|i: int|
            0 <= i < targets.len() ==> head <= #[trigger] targets[i] < g0.len()) && grid@
            == displace(g0, head as int, targets));
    }
}

/// Number of unmovable clusters.
pub open spec fn count_unmovable(s: Seq<Cell>) -> nat {
    count_cells(s, |c: Cell| c == Cell::Unmovable)
}

/// Number of bad clusters.
pub open spec fn count_bad(s: Seq<Cell>) -> nat {
    count_cells(s, |c: Cell| c == Cell::Bad)
}

/// The cells a freshly scattered disk may hold.
pub open spec fn scattered_cell(c: Cell) -> bool {
    c == Cell::Free || c == Cell::Used || c == Cell::Fragmented || c == Cell::Unmovable || c
        == Cell::Bad
}

/// Index of the `k`-th free cluster (counting from zero).
pub fn nth_free(grid: &BlockGrid, k: usize) -> (r: usize)
    requires
        k < count_free(grid@),
    ensures
        r < grid@.len(),
        grid@[r as int] == Cell::Free,
        count_free(grid@.take(r as int)) == k,
{
    let n = grid.len();
    let mut seen: usize = 0;
    let mut i: usize = 0;
    while i < n
        invariant
            i <= n,
            n == grid@.len(),
            seen <= k,
            seen == count_free(grid@.take(i as int)),
        decreases n - i,
    {
        proof {
            assert(grid@.take(i + 1).drop_last() =~= grid@.take(i as int));
        }
        if grid.get(i) == Cell::Free {
            if seen == k {
                return i;
            }
            seen = seen + 1;
        }
        i = i + 1;
    }
    proof {
        assert(grid@.take(n as int) =~= grid@);
    }
    0
}

/// A run of data laid from `start`: for each flag in turn, the next cluster
/// (while inside the grid) takes data if it is free and the budget is not
/// spent, fragmented where its flag holds and used otherwise; a taken cluster
/// spends one from the budget.
pub open spec fn lay_run(
    s: Seq<Cell>,
    start: int,
    offset: int,
    flags: Seq<bool>,
    budget: nat,
) -> Seq<Cell>
    decreases flags.len() - offset,
{
    if offset < 0 || offset >= flags.len() {
        s
    } else {
        let i = start + offset;
        if 0 <= i < s.len() && s[i] == Cell::Free && budget > 0 {
            lay_run(
                s.update(
                    i,
                    if flags[offset] {
                        Cell::Fragmented
                    } else {
                        Cell::Used
                    },
                ),
                start,
                offset + 1,
                flags,
                (budget - 1) as nat,
            )
        } else {
            lay_run(s, start, offset + 1, flags, budget)
        }
    }
}

/// Lays one run of data from `start`, one cluster per flag, placing at most
/// `budget` clusters; returns how many were placed.
pub fn place_run(grid: &mut BlockGrid, start: usize, fragmented: &Vec<bool>, budget: usize) -> (placed:
    usize)
    ensures
        final(grid)@ == lay_run(old(grid)@, start as int, 0, fragmented@, budget as nat),
        placed <= budget,
        count_data(final(grid)@) == count_data(old(grid)@) + placed,
        count_free(final(grid)@) + placed == count_free(old(grid)@),
        forall|p: int|
            0 <= p < old(grid)@.len() ==> #[trigger] final(grid)@[p] == old(grid)@[p] || (
            old(grid)@[p] == Cell::Free && is_data_cell(final(grid)@[p])),
        fragmented@.len() > 0 && start < old(grid)@.len() && old(grid)@[start as int]
            == Cell::Free && budget > 0 ==> placed >= 1,
        final(grid)@.len() == old(grid)@.len(),
        final(grid).spec_width() == old(grid).spec_width(),
        final(grid).spec_last_frame() == old(grid).spec_last_frame(),
{
    let ghost g0 = grid@;
    let ghost pd = |c: Cell| is_data_cell(c);
    let ghost pf = |c: Cell| c == Cell::Free;
    let n = grid.len();
    let mut placed: usize = 0;
    let mut offset: usize = 0;
    while offset < fragmented.len()
        invariant
            offset <= fragmented@.len(),
            placed <= budget,
            n == g0.len(),
            g0 == old(grid)@,
            grid@.len() == n,
            grid.spec_width() == old(grid).spec_width(),
            grid.spec_last_frame() == old(grid).spec_last_frame(),
            pd == (|c: Cell| is_data_cell(c)),
            pf == (|c: Cell| c == Cell::Free),
            lay_run(g0, start as int, 0, fragmented@, budget as nat) == lay_run(
                grid@,
                start as int,
                offset as int,
                fragmented@,
                (budget - placed) as nat,
            ),
            count_data(grid@) == count_data(g0) + placed,
            count_free(grid@) + placed == count_free(g0),
            forall|p: int|
                0 <= p < n ==> #[trigger] grid@[p] == g0[p] || (g0[p] == Cell::Free
                    && is_data_cell(grid@[p])),
            offset == 0 ==> grid@ == g0 && placed == 0,
            offset > 0 && start < n && g0[start as int] == Cell::Free && budget > 0 ==> placed
                >= 1,
        decreases fragmented@.len() - offset,
    {
        let ghost cur = grid@;
        let ghost left = (budget - placed) as nat;
        if start < n && offset < n - start && grid.get(start + offset) == Cell::Free && placed
            < budget {
            let cell = if fragmented[offset] {
                Cell::Fragmented
            } else {
                Cell::Used
            };
            grid.set(start + offset, cell);
            proof {
                lemma_count_update(cur, start + offset, cell, pd);
                lemma_count_update(cur, start + offset, cell, pf);
                assert(lay_run(cur, start as int, offset as int, fragmented@, left) == lay_run(
                    grid@,
                    start as int,
                    offset + 1,
                    fragmented@,
                    (left - 1) as nat,
                ));
            }
            placed = placed + 1;
        } else {
            proof {
                assert(lay_run(cur, start as int, offset as int, fragmented@, left) == lay_run(
                    cur,
                    start as int,
                    offset + 1,
                    fragmented@,
                    left,
                ));
            }
        }
        offset = offset + 1;
    }
    placed
}

/// Lays out a fragmented disk: every cluster is freed, then `occupied`
/// clusters of data are placed in short runs from random free clusters (each
/// one fragmented with chance 9/20, used otherwise), then `unmovable_count`
/// random clusters in the back half become unmovable and, when `bad_cluster`
/// holds, one random cluster goes bad. Overlays may cover placed data.
pub fn scatter(grid: &mut BlockGrid, occupied: usize, unmovable_count: usize, bad_cluster: bool)
    requires
        occupied <= old(grid)@.len(),
        old(grid)@.len() > 0 || (unmovable_count == 0 && !bad_cluster),
    ensures
        final(grid)@.len() == old(grid)@.len(),
        final(grid).spec_width() == old(grid).spec_width(),
        final(grid).spec_last_frame() == old(grid).spec_last_frame(),
        forall|p: int| 0 <= p < final(grid)@.len() ==> scattered_cell(#[trigger] final(grid)@[p]),
        forall|p: int|
            0 <= p < final(grid)@.len() / 2 ==> #[trigger] final(grid)@[p] != Cell::Unmovable,
        forall|p: int|
            0 <= p < final(grid)@.len() && #[trigger] final(grid)@[p] == Cell::Bad ==> bad_cluster,
        forall|p: int, q: int|
            0 <= p < final(grid)@.len() && 0 <= q < final(grid)@.len() && #[trigger] final(grid)@[p]
                == Cell::Bad && #[trigger] final(grid)@[q] == Cell::Bad ==> p == q,
        bad_cluster ==> exists|p: int|
            0 <= p < final(grid)@.len() && #[trigger] final(grid)@[p] == Cell::Bad,
        count_unmovable(final(grid)@) <= unmovable_count,
        unmovable_count > 0 && !bad_cluster ==> exists|p: int|
            0 <= p < final(grid)@.len() && #[trigger] final(grid)@[p] == Cell::Unmovable,
        count_data(final(grid)@) <= occupied,
        occupied <= count_data(final(grid)@) + count_unmovable(final(grid)@) + count_bad(
            final(grid)@,
        ),
        occupied <= count_data(final(grid)@) + unmovable_count + (if bad_cluster {
            1int
        } else {
            0int
        }),
{
    let mut rng = rand::thread_rng();
    let total = grid.len();
    let ghost pd = |c: Cell| is_data_cell(c);
    let ghost pf = |c: Cell| c == Cell::Free;

    let mut i: usize = 0;
    while i < total
        invariant
            i <= total,
            grid@.len() == total,
            grid.spec_width() == old(grid).spec_width(),
            grid.spec_last_frame() == old(grid).spec_last_frame(),
            forall|p: int| 0 <= p < i ==> #[trigger] grid@[p] == Cell::Free,
        decreases total - i,
    {
        grid.set(i, Cell::Free);
        i = i + 1;
    }
    proof {
        lemma_count_zero(grid@, pd);
        lemma_count_all(grid@, pf);
    }

    let mut placed: usize = 0;
    while placed < occupied
        invariant
            placed <= occupied,
            occupied <= total,
            grid@.len() == total,
            grid.spec_width() == old(grid).spec_width(),
            grid.spec_last_frame() == old(grid).spec_last_frame(),
            pd == (|c: Cell| is_data_cell(c)),
            pf == (|c: Cell| c == Cell::Free),
            forall|p: int|
                0 <= p < total ==> #[trigger] grid@[p] == Cell::Free || is_data_cell(grid@[p]),
            count_data(grid@) == placed,
            count_free(grid@) == total - placed,
        decreases occupied - placed,
    {
        let k = gen_range(&mut rng, 0, total - placed);
        let index = nth_free(grid, k);
        let run = gen_range(&mut rng, 1, 4);
        let mut fragmented: Vec<bool> = Vec::new();
        let mut r: usize = 0;
        while r < run
            invariant
                r <= run,
                fragmented@.len() == r,
            decreases run - r,
        {
            fragmented.push(gen_ratio(&mut rng, 9, 20));
            r = r + 1;
        }
        let got = place_run(grid, index, &fragmented, occupied - placed);
        placed = placed + got;
        proof {
            assert forall|p: int|
                0 <= p < total implies #[trigger] grid@[p] == Cell::Free || is_data_cell(
                grid@[p],
            ) by {}
        }
    }

    let ghost pu = |c: Cell| c == Cell::Unmovable;
    let ghost pb = |c: Cell| c == Cell::Bad;
    proof {
        lemma_count_zero(grid@, pu);
        lemma_count_zero(grid@, pb);
    }
    let mut j: usize = 0;
    while j < unmovable_count
        invariant
            j <= unmovable_count,
            total > 0 || unmovable_count == 0,
            grid@.len() == total,
            grid.spec_width() == old(grid).spec_width(),
            grid.spec_last_frame() == old(grid).spec_last_frame(),
            pd == (|c: Cell| is_data_cell(c)),
            pu == (|c: Cell| c == Cell::Unmovable),
            pb == (|c: Cell| c == Cell::Bad),
            forall|p: int| 0 <= p < total ==> scattered_cell(#[trigger] grid@[p]),
            forall|p: int| 0 <= p < total / 2 ==> #[trigger] grid@[p] != Cell::Unmovable,
            forall|p: int| 0 <= p < total ==> #[trigger] grid@[p] != Cell::Bad,
            count_data(grid@) <= occupied,
            count_unmovable(grid@) <= j,
            count_bad(grid@) == 0,
            occupied <= count_data(grid@) + count_unmovable(grid@),
            j > 0 ==> exists|p: int| 0 <= p < total && #[trigger] grid@[p] == Cell::Unmovable,
        decreases unmovable_count - j,
    {
        let index = gen_range(&mut rng, total / 2, total);
        let ghost before = grid@;
        grid.set(index, Cell::Unmovable);
        proof {
            lemma_count_update(before, index as int, Cell::Unmovable, pd);
            lemma_count_update(before, index as int, Cell::Unmovable, pu);
            lemma_count_update(before, index as int, Cell::Unmovable, pb);
            assert(grid@[index as int] == Cell::Unmovable);
        }
        j = j + 1;
    }

    if bad_cluster {
        let index = gen_range(&mut rng, 0, total);
        let ghost before = grid@;
        grid.set(index, Cell::Bad);
        proof {
            lemma_count_update(before, index as int, Cell::Bad, pd);
            lemma_count_update(before, index as int, Cell::Bad, pu);
            lemma_count_update(before, index as int, Cell::Bad, pb);
            assert(grid@[index as int] == Cell::Bad);
        }
    }
}

/// A count is the length when every cell satisfies the predicate.
pub proof fn lemma_count_all(s: Seq<Cell>, p: spec_fn(Cell) -> bool)
    requires
        forall|i: int| 0 <= i < s.len() ==> p(#[trigger] s[i]),
    ensures
        count_cells(s, p) == s.len(),
    decreases s.len(),
{
    if s.len() > 0 {
        assert forall|i: int| 0 <= i < s.drop_last().len() implies p(
            #[trigger] s.drop_last()[i],
        ) by {
            assert(s.drop_last()[i] == s[i]);
        }
        lemma_count_all(s.drop_last(), p);
        assert(p(s[s.len() - 1]));
    }
}

/// `v` clamped to `[low, high]`, as `Ord::clamp` gives it.
pub open spec fn clamp(v: int, low: int, high: int) -> int {
    if v < low {
        low
    } else if v > high {
        high
    } else {
        v
    }
}

/// Clusters moved per frame: the work spread over `target_frames` frames,
/// kept within `[min_batch, max_batch]`.
pub fn batch_size(
    total_work: usize,
    target_frames: usize,
    min_batch: usize,
    max_batch: usize,
) -> (b: usize)
    requires
        target_frames > 0,
        min_batch <= max_batch,
    ensures
        b == clamp(total_work as int / target_frames as int, min_batch as int, max_batch as int),
{
    let share = total_work / target_frames;
    if share < min_batch {
        min_batch
    } else if share > max_batch {
        max_batch
    } else {
        share
    }
}

/// Plans one frame of moves: a random number of moves between `batch` and
/// `batch + batch / 2 + 1`, planned as `plan_transfers` plans them.
pub fn plan_frame(grid: &mut BlockGrid, batch: usize) -> (ts: Vec<Transfer>)
    requires
        batch + batch / 2 + 2 <= usize::MAX,
    ensures
        exists|m: nat|
            batch <= m <= batch + batch / 2 + 1 && planned(old(grid)@, final(grid)@, ts@, m),
        final(grid).spec_width() == old(grid).spec_width(),
        final(grid).spec_last_frame() == old(grid).spec_last_frame(),
{
    let mut rng = rand::thread_rng();
    let moves = gen_range(&mut rng, batch, batch + batch / 2 + 2);
    let ts = plan_transfers(grid, moves);
    proof {
        assert(batch <= moves as nat <= batch + batch / 2 + 1 && planned(
            old(grid)@,
            grid@,
            ts@,
            moves as nat,
        ));
    }
    ts
}

// ---------------------------------------------------------------------------
// Numbers in the footer
// ---------------------------------------------------------------------------

/// Decimal digits grouped in threes from the right, with commas between
/// the groups.
pub open spec fn group_thousands(d: Seq<char>) -> Seq<char>
    decreases d.len(),
{
    if d.len() <= 3 {
        d
    } else {
        group_thousands(d.subrange(0, d.len() - 3)) + seq![','] + d.subrange(
            d.len() - 3,
            d.len() as int,
        )
    }
}

fn push_grouped(out: &mut String, d: &Vec<char>, len: usize)
    requires
        len <= d@.len(),
    ensures
        final(out)@ == old(out)@ + group_thousands(d@.take(len as int)),
    decreases len,
{
    if len <= 3 {
        let mut i: usize = 0;
        while i < len
            invariant
                i <= len <= d@.len(),
                out@ == old(out)@ + d@.take(i as int),
            decreases len - i,
        {
            out.push(d[i]);
            proof {
                assert(d@.take(i + 1) =~= d@.take(i as int).push(d@[i as int]));
            }
            i = i + 1;
        }
    } else {
        push_grouped(out, d, len - 3);
        out.push(',');
        out.push(d[len - 3]);
        out.push(d[len - 2]);
        out.push(d[len - 1]);
        proof {
            let t = d@.take(len as int);
            assert(t.subrange(0, t.len() - 3) =~= d@.take(len - 3));
            assert(t.subrange(t.len() - 3, t.len() as int) =~= seq![
                d@[len - 3],
                d@[len - 2],
                d@[len - 1],
            ]);
        }
    }
}

/// `value` in decimal with a comma between each group of three digits, as
/// in "2,097,152".
pub fn thousands(value: u64) -> (s: String)
    ensures
        s@ == group_thousands(decimal(value as nat)),
{
    let digits = decimal_string(value);
    let mut d: Vec<char> = Vec::new();
    for c in it: digits.as_str().chars()
        invariant
            d@ == it.seq().take(it.index() as int),
    {
        d.push(c);
    }
    proof {
        assert(d@ =~= decimal(value as nat));
    }
    let mut s = String::new();
    push_grouped(&mut s, &d, d.len());
    proof {
        assert(d@.take(d@.len() as int) =~= d@);
        assert(Seq::<char>::empty() + group_thousands(d@) =~= group_thousands(d@));
    }
    s
}

/// One part of a duration, as in "4 hours" or "1 day".
pub open spec fn duration_part(value: nat, unit: Seq<char>) -> Seq<char> {
    decimal(value) + " "@ + unit + if value == 1 {
        ""@
    } else {
        "s"@
    }
}

/// Minutes spelt out in days, hours and minutes, leaving out the parts that
/// are zero; "0 minutes" for none at all.
pub open spec fn duration_text(total: nat) -> Seq<char> {
    if total == 0 {
        "0 minutes"@
    } else {
        let days = total / 1440;
        let hours = total % 1440 / 60;
        let minutes = total % 60;
        join(
            (if days > 0 {
                seq![duration_part(days, "day"@)]
            } else {
                Seq::empty()
            }) + (if hours > 0 {
                seq![duration_part(hours, "hour"@)]
            } else {
                Seq::empty()
            }) + (if minutes > 0 {
                seq![duration_part(minutes, "minute"@)]
            } else {
                Seq::empty()
            }),
            " "@,
        )
    }
}

fn push_part(parts: &mut Vec<String>, value: u64, unit: &str)
    ensures
        final(parts)@.map_values(|p: String| p@) == old(parts)@.map_values(|p: String| p@)
            + if value > 0 {
            seq![duration_part(value as nat, unit@)]
        } else {
            Seq::empty()
        },
{
    let ghost before = parts@.map_values(|p: String| p@);
    if value > 0 {
        let mut part = decimal_string(value);
        part.append(" ");
        part.append(unit);
        if value != 1 {
            part.append("s");
        }
        proof {
            reveal_strlit("");
            assert(part@ =~= duration_part(value as nat, unit@));
        }
        parts.push(part);
        proof {
            assert(parts@.map_values(|p: String| p@) =~= before + seq![
                duration_part(value as nat, unit@),
            ]);
        }
    } else {
        proof {
            assert(parts@.map_values(|p: String| p@) =~= before + Seq::empty());
        }
    }
}

/// A whole number of minutes spelt out, as in "4 hours 12 minutes".
pub fn format_duration(total: u64) -> (s: String)
    ensures
        s@ == duration_text(total as nat),
{
    if total == 0 {
        return String::from_str("0 minutes");
    }
    let mut parts: Vec<String> = Vec::new();
    proof {
        assert(parts@.map_values(|p: String| p@) =~= Seq::empty());
    }
    push_part(&mut parts, total / 1440, "day");
    push_part(&mut parts, total % 1440 / 60, "hour");
    push_part(&mut parts, total % 60, "minute");
    proof {
        let days = seq![duration_part((total / 1440) as nat, "day"@)];
        assert(Seq::<Seq<char>>::empty() + (if total / 1440 > 0 {
            days
        } else {
            Seq::empty()
        }) =~= (if total / 1440 > 0 {
            days
        } else {
            Seq::empty()
        }));
    }
    join_strings(&parts, " ")
}

/// The text with its commas left out.
pub open spec fn without_commas(s: Seq<char>) -> Seq<char> {
    s.filter(|c: char| c != ',')
}

proof fn lemma_without_commas_plain(s: Seq<char>)
    requires
        forall|i: int| 0 <= i < s.len() ==> #[trigger] s[i] != ',',
    ensures
        without_commas(s) == s,
    decreases s.len(),
{
    reveal(Seq::filter);
    if s.len() > 0 {
        assert forall|i: int| 0 <= i < s.drop_last().len() implies #[trigger] s.drop_last()[i]
            != ',' by {
            assert(s.drop_last()[i] == s[i]);
        }
        lemma_without_commas_plain(s.drop_last());
        assert(s.drop_last().push(s.last()) =~= s);
    }
}

proof fn lemma_decimal_digits(n: nat)
    ensures
        forall|i: int| 0 <= i < decimal(n).len() ==> #[trigger] decimal(n)[i] != ',',
    decreases n,
{
    if n >= 10 {
        lemma_decimal_digits(n / 10);
        assert forall|i: int| 0 <= i < decimal(n).len() implies #[trigger] decimal(n)[i] != ',' by {
            if i < decimal(n / 10).len() {
                assert(decimal(n)[i] == decimal(n / 10)[i]);
            }
        }
    }
}

proof fn lemma_group_without_commas(d: Seq<char>)
    requires
        forall|i: int| 0 <= i < d.len() ==> #[trigger] d[i] != ',',
    ensures
        without_commas(group_thousands(d)) == d,
    decreases d.len(),
{
    if d.len() <= 3 {
        lemma_without_commas_plain(d);
    } else {
        let head = d.subrange(0, d.len() - 3);
        let tail = d.subrange(d.len() - 3, d.len() as int);
        assert forall|i: int| 0 <= i < head.len() implies #[trigger] head[i] != ',' by {
            assert(head[i] == d[i]);
        }
        assert forall|i: int| 0 <= i < tail.len() implies #[trigger] tail[i] != ',' by {
            assert(tail[i] == d[d.len() - 3 + i]);
        }
        lemma_group_without_commas(head);
        lemma_without_commas_plain(tail);
        let p = |c: char| c != ',';
        Seq::filter_distributes_over_add(group_thousands(head) + seq![','], tail, p);
        Seq::filter_distributes_over_add(group_thousands(head), seq![','], p);
        reveal(Seq::filter);
        let comma = seq![','];
        assert(comma.drop_last() =~= Seq::<char>::empty());
        assert(comma.last() == ',');
        assert(!p(comma.last()));
        assert(comma.filter(p) == comma.drop_last().filter(p));
        assert(Seq::<char>::empty().filter(p) =~= Seq::<char>::empty());
        assert(comma.filter(p) =~= Seq::<char>::empty());
        assert(head + tail =~= d);
    }
}

/// Taking the commas back out of `thousands` gives the plain decimal
/// numeral: grouping adds commas and nothing else.
pub proof fn lemma_thousands_digits(value: nat)
    ensures
        without_commas(group_thousands(decimal(value))) == decimal(value),
{
    lemma_decimal_digits(value);
    lemma_group_without_commas(decimal(value));
}

/// The sum of the positions of the clusters that hold data: it falls
/// whenever data moves toward the front of the disk.
pub open spec fn data_weight(s: Seq<Cell>) -> nat
    decreases s.len(),
{
    if s.len() == 0 {
        0
    } else {
        data_weight(s.drop_last()) + (if is_data_cell(s.last()) {
            (s.len() - 1) as nat
        } else {
            0nat
        })
    }
}

/// Overwriting one cell changes the weight by that cell's position alone.
pub proof fn lemma_weight_update(s: Seq<Cell>, i: int, c: Cell)
    requires
        0 <= i < s.len(),
    ensures
        data_weight(s.update(i, c)) + (if is_data_cell(s[i]) {
            i
        } else {
            0int
        }) == data_weight(s) + (if is_data_cell(c) {
            i
        } else {
            0int
        }),
    decreases s.len(),
{
    if i == s.len() - 1 {
        assert(s.update(i, c).drop_last() =~= s.drop_last());
    } else {
        lemma_weight_update(s.drop_last(), i, c);
        assert(s.update(i, c).drop_last() =~= s.drop_last().update(i, c));
    }
}

/// Carrying out a non-empty frame of planned moves brings data strictly
/// closer to the front of the disk, so frames of moves, committed one after
/// another, come to an end.
pub proof fn lemma_commit_moves_data_forward(s: Seq<Cell>, ts: Seq<Transfer>)
    requires
        valid_moves(s, ts),
    ensures
        data_weight(commit_moves(mark_moves(s, ts), ts)) + ts.len() <= data_weight(s),
{
    lemma_mark_then_paint(s, ts, Cell::Free, Cell::Used, true);
    lemma_paint_counts(s, ts, Cell::Free, Cell::Used, true);
}

proof fn lemma_group_comma_places(d: Seq<char>)
    requires
        forall|i: int| 0 <= i < d.len() ==> #[trigger] d[i] != ',',
    ensures
        forall|i: int|
            0 <= i < group_thousands(d).len() ==> (#[trigger] group_thousands(d)[i] == ',' <==> (
            group_thousands(d).len() - i) % 4 == 0),
    decreases d.len(),
{
    let g = group_thousands(d);
    if d.len() > 3 {
        let head = d.subrange(0, d.len() - 3);
        let tail = d.subrange(d.len() - 3, d.len() as int);
        assert forall|i: int| 0 <= i < head.len() implies #[trigger] head[i] != ',' by {
            assert(head[i] == d[i]);
        }
        lemma_group_comma_places(head);
        let gh = group_thousands(head);
        assert(g == gh + seq![','] + tail);
        assert forall|i: int| 0 <= i < g.len() implies (#[trigger] g[i] == ',' <==> (g.len() - i)
            % 4 == 0) by {
            if i < gh.len() {
                assert(g[i] == gh[i]);
                assert((g.len() - i) % 4 == (gh.len() - i) % 4);
            } else if i > gh.len() {
                assert(g[i] == tail[i - gh.len() - 1]);
                assert(tail[i - gh.len() - 1] == d[d.len() - 3 + i - gh.len() - 1]);
            }
        }
    }
}

/// In `thousands`, commas stand exactly at every fourth place counted from
/// the end: one after each group of three digits.
pub proof fn lemma_thousands_comma_places(value: nat)
    ensures
        forall|i: int|
            0 <= i < group_thousands(decimal(value)).len() ==> (#[trigger] group_thousands(
                decimal(value),
            )[i] == ',' <==> (group_thousands(decimal(value)).len() - i) % 4 == 0),
{
    lemma_decimal_digits(value);
    lemma_group_comma_places(decimal(value));
}

// ---------------------------------------------------------------------------
// What a pass keeps
// ---------------------------------------------------------------------------

/// Number of clusters being read by a move under way.
pub open spec fn count_reading(s: Seq<Cell>) -> nat {
    count_cells(s, |c: Cell| c == Cell::Reading)
}

/// Clusters of data, counting those being read as still holding theirs.
pub open spec fn in_transit(s: Seq<Cell>) -> nat {
    count_data(s) + count_reading(s)
}

/// A cell that no move touches: unmovable or bad.
pub open spec fn is_fixture(c: Cell) -> bool {
    c == Cell::Unmovable || c == Cell::Bad
}

/// The two grids have the same length, and the unmovable and the bad
/// clusters stand at the same places in both.
pub open spec fn same_fixtures(a: Seq<Cell>, b: Seq<Cell>) -> bool {
    &&& a.len() == b.len()
    &&& forall|p: int|
        0 <= p < a.len() ==> (#[trigger] a[p] == Cell::Unmovable <==> b[p] == Cell::Unmovable)
            && (a[p] == Cell::Bad <==> b[p] == Cell::Bad)
}

/// Across any number of steps that each keep the fixtures and the data in
/// transit, both are kept: the pass-wide law of a defragmentation pass.
pub proof fn lemma_pass_keeps(a: Seq<Cell>, b: Seq<Cell>, c: Seq<Cell>)
    requires
        same_fixtures(a, b),
        same_fixtures(b, c),
        in_transit(a) == in_transit(b),
        in_transit(b) == in_transit(c),
    ensures
        same_fixtures(a, c),
        in_transit(a) == in_transit(c),
{
    assert forall|p: int| 0 <= p < a.len() implies (#[trigger] a[p] == Cell::Unmovable <==> c[p]
        == Cell::Unmovable) && (a[p] == Cell::Bad <==> c[p] == Cell::Bad) by {
        assert(b[p] == Cell::Unmovable <==> c[p] == Cell::Unmovable);
    }
}

/// Counts agree where the predicate agrees cell by cell.
pub proof fn lemma_count_pointwise(a: Seq<Cell>, b: Seq<Cell>, p: spec_fn(Cell) -> bool)
    requires
        a.len() == b.len(),
        forall|i: int| 0 <= i < a.len() ==> p(#[trigger] a[i]) == p(b[i]),
    ensures
        count_cells(a, p) == count_cells(b, p),
    decreases a.len(),
{
    if a.len() > 0 {
        assert forall|i: int| 0 <= i < a.drop_last().len() implies p(#[trigger] a.drop_last()[i])
            == p(b.drop_last()[i]) by {
            assert(a.drop_last()[i] == a[i] && b.drop_last()[i] == b[i]);
        }
        lemma_count_pointwise(a.drop_last(), b.drop_last(), p);
        assert(p(a[a.len() - 1]) == p(b[b.len() - 1]));
    }
}

/// Painting valid moves with one cell that holds data in transit and one
/// that does not, neither a fixture, keeps the data in transit and the
/// fixtures.
proof fn lemma_paint_transit(
    s: Seq<Cell>,
    ts: Seq<Transfer>,
    at_source: Cell,
    at_target: Cell,
    target_first: bool,
)
    requires
        valid_moves(s, ts),
        !is_fixture(at_source),
        !is_fixture(at_target),
        (is_data_cell(at_source) || at_source == Cell::Reading) != (is_data_cell(at_target)
            || at_target == Cell::Reading),
    ensures
        in_transit(paint_moves(s, ts, at_source, at_target, target_first)) == in_transit(s),
        same_fixtures(s, paint_moves(s, ts, at_source, at_target, target_first)),
    decreases ts.len(),
{
    lemma_valid_moves_disjoint(s, ts);
    lemma_paint_at(s, ts, at_source, at_target, target_first);
    let res = paint_moves(s, ts, at_source, at_target, target_first);
    assert forall|p: int| 0 <= p < s.len() implies (#[trigger] s[p] == Cell::Unmovable <==> res[p]
        == Cell::Unmovable) && (s[p] == Cell::Bad <==> res[p] == Cell::Bad) by {
        if is_move_target(ts, p) {
            let i = choose|i: int| 0 <= i < ts.len() && ts[i].target == p;
            assert(s[ts[i].target as int] == Cell::Free);
        } else if is_move_source(ts, p) {
            let i = choose|i: int| 0 <= i < ts.len() && ts[i].source == p;
            assert(is_data_cell(s[ts[i].source as int]));
        }
    }
    if ts.len() > 0 {
        let pre = ts.drop_last();
        let t = ts.last();
        let k = ts.len() - 1;
        assert(t == ts[k]);
        assert forall|i: int| #![trigger pre[i]] 0 <= i < pre.len() implies pre[i] == ts[i] by {}
        assert(valid_moves(s, pre)) by {
            assert forall|i: int, j: int|
                #![trigger pre[i], pre[j]]
                0 <= i < j < pre.len() implies pre[i].target < pre[j].target && pre[j].source
                < pre[i].source by {
                assert(pre[i] == ts[i] && pre[j] == ts[j]);
            }
        }
        lemma_paint_transit(s, pre, at_source, at_target, target_first);
        lemma_valid_moves_disjoint(s, pre);
        lemma_paint_at(s, pre, at_source, at_target, target_first);
        let prev = paint_moves(s, pre, at_source, at_target, target_first);
        let tg = t.target as int;
        let sc = t.source as int;
        if is_move_target(pre, tg) {
            let i = choose|i: int| 0 <= i < pre.len() && pre[i].target == tg;
            assert(ts[i].target == ts[k].target);
        }
        if is_move_source(pre, tg) {
            let i = choose|i: int| 0 <= i < pre.len() && pre[i].source == tg;
            assert(ts[k].target != ts[i].source);
        }
        if is_move_target(pre, sc) {
            let i = choose|i: int| 0 <= i < pre.len() && pre[i].target == sc;
            assert(ts[i].target != ts[k].source);
        }
        if is_move_source(pre, sc) {
            let i = choose|i: int| 0 <= i < pre.len() && pre[i].source == sc;
            assert(ts[i].source == ts[k].source);
        }
        assert(prev[tg] == Cell::Free);
        assert(is_data_cell(prev[sc]));
        let pd = |c: Cell| is_data_cell(c);
        let pr = |c: Cell| c == Cell::Reading;
        if target_first {
            let mid = prev.update(tg, at_target);
            lemma_count_update(prev, tg, at_target, pd);
            lemma_count_update(prev, tg, at_target, pr);
            lemma_count_update(mid, sc, at_source, pd);
            lemma_count_update(mid, sc, at_source, pr);
        } else {
            let mid = prev.update(sc, at_source);
            lemma_count_update(prev, sc, at_source, pd);
            lemma_count_update(prev, sc, at_source, pr);
            lemma_count_update(mid, tg, at_target, pd);
            lemma_count_update(mid, tg, at_target, pr);
        }
    }
}

/// Under way, done or called off, moves keep the data in transit and the
/// fixtures of the grid they were planned on.
proof fn lemma_moves_keep(b: Seq<Cell>, ts: Seq<Transfer>)
    requires
        valid_moves(b, ts),
    ensures
        in_transit(mark_moves(b, ts)) == in_transit(b),
        same_fixtures(b, mark_moves(b, ts)),
        in_transit(commit_moves(mark_moves(b, ts), ts)) == in_transit(b),
        same_fixtures(b, commit_moves(mark_moves(b, ts), ts)),
        in_transit(abort_moves(mark_moves(b, ts), ts)) == in_transit(b),
        same_fixtures(b, abort_moves(mark_moves(b, ts), ts)),
{
    lemma_paint_transit(b, ts, Cell::Reading, Cell::Writing, false);
    lemma_paint_transit(b, ts, Cell::Free, Cell::Used, true);
    lemma_paint_transit(b, ts, Cell::Fragmented, Cell::Free, false);
    lemma_mark_then_paint(b, ts, Cell::Free, Cell::Used, true);
    lemma_mark_then_paint(b, ts, Cell::Fragmented, Cell::Free, false);
}

// ---------------------------------------------------------------------------
// A defragmentation pass
// ---------------------------------------------------------------------------

/// `g` is some grid with the moves `ts` under way: each source marked
/// Reading, each target Writing.
pub open spec fn moves_in_flight(g: Seq<Cell>, ts: Seq<Transfer>) -> bool {
    exists|b: Seq<Cell>| valid_moves(b, ts) && g == mark_moves(b, ts)
}

/// One frame of a pass: the moves under way are carried out, then a frame of
/// new moves is planned and put under way. The pass is done when nothing was
/// left to plan.
pub fn advance_frame(grid: &mut BlockGrid, transfers: &mut Vec<Transfer>, batch: usize) -> (done:
    bool)
    requires
        moves_in_bounds(old(transfers)@, old(grid)@.len()),
        batch + batch / 2 + 2 <= usize::MAX,
    ensures
        exists|m: nat|
            batch <= m <= batch + batch / 2 + 1 && planned(
                commit_moves(old(grid)@, old(transfers)@),
                final(grid)@,
                final(transfers)@,
                m,
            ),
        moves_in_flight(final(grid)@, final(transfers)@),
        count_data(commit_moves(final(grid)@, final(transfers)@)) == count_data(
            commit_moves(old(grid)@, old(transfers)@),
        ),
        count_free(commit_moves(final(grid)@, final(transfers)@)) == count_free(
            commit_moves(old(grid)@, old(transfers)@),
        ),
        data_weight(commit_moves(final(grid)@, final(transfers)@)) + final(transfers)@.len()
            <= data_weight(commit_moves(old(grid)@, old(transfers)@)),
        done == (final(transfers)@.len() == 0),
        done && batch >= 1 ==> settled(final(grid)@),
        moves_in_flight(old(grid)@, old(transfers)@) ==> same_fixtures(old(grid)@, final(grid)@)
            && in_transit(final(grid)@) == in_transit(old(grid)@),
        final(grid).spec_width() == old(grid).spec_width(),
        final(grid).spec_last_frame() == old(grid).spec_last_frame(),
{
    let ghost g0 = grid@;
    let ghost ts0 = transfers@;
    commit_transfers(grid, transfers);
    let ghost landed = grid@;
    *transfers = plan_frame(grid, batch);
    proof {
        let m = choose|m: nat|
            batch <= m <= batch + batch / 2 + 1 && planned(landed, grid@, transfers@, m);
        assert(valid_moves(landed, transfers@) && grid@ == mark_moves(landed, transfers@));
        lemma_commit_preserves_data(landed, transfers@);
        lemma_commit_moves_data_forward(landed, transfers@);
        lemma_moves_keep(landed, transfers@);
        if moves_in_flight(g0, ts0) {
            let b = choose|b: Seq<Cell>| valid_moves(b, ts0) && g0 == mark_moves(b, ts0);
            lemma_moves_keep(b, ts0);
            assert(same_fixtures(g0, landed)) by {
                assert forall|p: int| 0 <= p < g0.len() implies (#[trigger] g0[p]
                    == Cell::Unmovable <==> landed[p] == Cell::Unmovable) && (g0[p] == Cell::Bad
                    <==> landed[p] == Cell::Bad) by {
                    assert(b[p] == Cell::Unmovable <==> g0[p] == Cell::Unmovable);
                    assert(b[p] == Cell::Unmovable <==> landed[p] == Cell::Unmovable);
                }
            }
            lemma_pass_keeps(g0, landed, grid@);
        }
    }
    transfers.len() == 0
}

/// Whether the pass restarts now: only while restarts are left, and when
/// the draw says so.
pub fn restart_due(restarts: usize, max_restarts: usize, drawn: bool) -> (due: bool)
    ensures
        due == (restarts < max_restarts && drawn),
{
    restarts < max_restarts && drawn
}

/// Restarts a pass: the moves under way are called off and one restart is
/// counted. Returns the head from which data is to be scattered again: the
/// first free cluster, or 0 when none is free.
pub fn restart(grid: &mut BlockGrid, transfers: &mut Vec<Transfer>, restarts: &mut usize) -> (head:
    usize)
    requires
        moves_in_bounds(old(transfers)@, old(grid)@.len()),
        *old(restarts) < usize::MAX,
    ensures
        final(grid)@ == abort_moves(old(grid)@, old(transfers)@),
        final(transfers)@.len() == 0,
        *final(restarts) == *old(restarts) + 1,
        moves_in_flight(old(grid)@, old(transfers)@) ==> {
            &&& count_data(final(grid)@) == count_data(commit_moves(old(grid)@, old(transfers)@))
            &&& count_free(final(grid)@) == count_free(commit_moves(old(grid)@, old(transfers)@))
            &&& same_fixtures(old(grid)@, final(grid)@)
            &&& in_transit(final(grid)@) == in_transit(old(grid)@)
        },
        if exists|h: int| is_first_free(final(grid)@, h) {
            is_first_free(final(grid)@, head as int)
        } else {
            head == 0
        },
        head == 0 || head < final(grid)@.len(),
        final(grid).spec_width() == old(grid).spec_width(),
        final(grid).spec_last_frame() == old(grid).spec_last_frame(),
{
    let ghost g0 = grid@;
    let ghost ts0 = transfers@;
    abort_transfers(grid, transfers);
    proof {
        if moves_in_flight(g0, ts0) {
            let b = choose|b: Seq<Cell>| valid_moves(b, ts0) && g0 == mark_moves(b, ts0);
            lemma_abort_preserves_data(b, ts0);
            lemma_commit_preserves_data(b, ts0);
            lemma_moves_keep(b, ts0);
            assert forall|p: int| 0 <= p < g0.len() implies (#[trigger] g0[p] == Cell::Unmovable
                <==> grid@[p] == Cell::Unmovable) && (g0[p] == Cell::Bad <==> grid@[p]
                == Cell::Bad) by {
                assert(b[p] == Cell::Unmovable <==> g0[p] == Cell::Unmovable);
                assert(b[p] == Cell::Unmovable <==> grid@[p] == Cell::Unmovable);
            }
        }
    }
    *restarts = *restarts + 1;
    match grid.find(0, is_free) {
        Some(h) => {
            proof {
                assert(is_first_free(grid@, h as int));
            }
            h
        },
        None => {
            proof {
                if exists|h: int| is_first_free(grid@, h) {
                    let h = choose|h: int| is_first_free(grid@, h);
                    assert(grid@[h] == Cell::Free);
                }
            }
            0
        },
    }
}

/// A grid with no moves under way is its own landed view, and a pass may
/// start from it.
pub proof fn lemma_nothing_in_flight(g: Seq<Cell>)
    ensures
        commit_moves(g, Seq::empty()) == g,
        moves_in_flight(g, Seq::empty()),
{
    assert(valid_moves(g, Seq::<Transfer>::empty()));
    assert(g == mark_moves(g, Seq::<Transfer>::empty()));
}

/// The digits of each piece, one piece after another.
pub open spec fn digits_of_pieces(ps: Seq<Seq<char>>) -> Seq<char>
    decreases ps.len(),
{
    if ps.len() == 0 {
        Seq::empty()
    } else {
        digits_of_pieces(ps.drop_last()) + digits_in(ps.last())
    }
}

proof fn lemma_digits_of_pieces_add(a: Seq<Seq<char>>, b: Seq<Seq<char>>)
    ensures
        digits_of_pieces(a + b) == digits_of_pieces(a) + digits_of_pieces(b),
    decreases b.len(),
{
    if b.len() == 0 {
        assert(a + b =~= a);
        assert(digits_of_pieces(a) + Seq::<char>::empty() =~= digits_of_pieces(a));
    } else {
        lemma_digits_of_pieces_add(a, b.drop_last());
        assert((a + b).drop_last() =~= a + b.drop_last());
        assert((a + b).last() == b.last());
        assert(digits_of_pieces(a) + digits_of_pieces(b.drop_last()) + digits_in(b.last())
            =~= digits_of_pieces(a) + (digits_of_pieces(b.drop_last()) + digits_in(b.last())));
    }
}

proof fn lemma_digits_of_join(ps: Seq<Seq<char>>, sep: Seq<char>)
    requires
        digits_in(sep) == Seq::<char>::empty(),
    ensures
        digits_in(join(ps, sep)) == digits_of_pieces(ps),
    decreases ps.len(),
{
    let p = |c: char| is_ascii_digit(c);
    if ps.len() == 0 {
        reveal(Seq::filter);
        assert(join(ps, sep) == Seq::<char>::empty());
        assert(Seq::<char>::empty().filter(p) =~= Seq::<char>::empty());
    } else if ps.len() == 1 {
        assert(ps.drop_last() =~= Seq::<Seq<char>>::empty());
        assert(ps.last() == ps[0]);
        assert(join(ps, sep) == ps[0]);
        assert(digits_of_pieces(ps) == digits_of_pieces(ps.drop_last()) + digits_in(ps.last()));
        assert(Seq::<char>::empty() + digits_in(ps[0]) =~= digits_in(ps[0]));
    } else {
        lemma_digits_of_join(ps.drop_last(), sep);
        let j = join(ps.drop_last(), sep);
        assert(join(ps, sep) == j + sep + ps.last());
        Seq::filter_distributes_over_add(j + sep, ps.last(), p);
        Seq::filter_distributes_over_add(j, sep, p);
        assert(digits_in(j) + Seq::<char>::empty() =~= digits_in(j));
        assert(digits_of_pieces(ps) == digits_of_pieces(ps.drop_last()) + digits_in(ps.last()));
    }
}

proof fn lemma_no_digits_literals()
    ensures
        digits_in(" "@) == Seq::<char>::empty(),
        digits_in("s"@) == Seq::<char>::empty(),
        digits_in(""@) == Seq::<char>::empty(),
        digits_in("day"@) == Seq::<char>::empty(),
        digits_in("hour"@) == Seq::<char>::empty(),
        digits_in("minute"@) == Seq::<char>::empty(),
{
    reveal_strlit(" ");
    reveal_strlit("s");
    reveal_strlit("");
    reveal_strlit("day");
    reveal_strlit("hour");
    reveal_strlit("minute");
    assert(" "@ =~= seq![' ']);
    assert("s"@ =~= seq!['s']);
    assert("day"@ =~= seq!['d', 'a', 'y']);
    assert("hour"@ =~= seq!['h', 'o', 'u', 'r']);
    assert("minute"@ =~= seq!['m', 'i', 'n', 'u', 't', 'e']);
    lemma_digits_in_none(" "@);
    lemma_digits_in_none("s"@);
    lemma_digits_in_none(""@);
    lemma_digits_in_none("day"@);
    lemma_digits_in_none("hour"@);
    lemma_digits_in_none("minute"@);
}

proof fn lemma_part_digits(value: nat, unit: Seq<char>)
    requires
        digits_in(unit) == Seq::<char>::empty(),
    ensures
        digits_of_pieces(seq![duration_part(value, unit)]) == decimal(value),
{
    let p = |c: char| is_ascii_digit(c);
    lemma_no_digits_literals();
    lemma_decimal_is_digits(value);
    let tail = if value == 1 {
        ""@
    } else {
        "s"@
    };
    Seq::filter_distributes_over_add(decimal(value) + " "@ + unit, tail, p);
    Seq::filter_distributes_over_add(decimal(value) + " "@, unit, p);
    Seq::filter_distributes_over_add(decimal(value), " "@, p);
    assert(digits_in(duration_part(value, unit)) =~= decimal(value));
    let one = seq![duration_part(value, unit)];
    assert(one.drop_last() =~= Seq::<Seq<char>>::empty());
    assert(one.last() == duration_part(value, unit));
    assert(digits_of_pieces(one) == digits_of_pieces(one.drop_last()) + digits_in(one.last()));
    assert(digits_of_pieces(Seq::<Seq<char>>::empty()) == Seq::<char>::empty());
    assert(Seq::<char>::empty() + decimal(value) =~= decimal(value));
}

/// The numbers of a spelt-out duration: read in order, its digits are the
/// plain decimal numerals (no leading zeros) of the days, the hours and the
/// minutes that are not zero, where the days, hours and minutes make up the
/// total.
pub proof fn lemma_duration_numerals(total: nat)
    requires
        total > 0,
    ensures
        ({
            let days = total / 1440;
            let hours = total % 1440 / 60;
            let minutes = total % 60;
            &&& days * 1440 + hours * 60 + minutes == total
            &&& hours < 24 && minutes < 60
            &&& digits_in(duration_text(total)) == (if days > 0 {
                decimal(days)
            } else {
                Seq::empty()
            }) + (if hours > 0 {
                decimal(hours)
            } else {
                Seq::empty()
            }) + (if minutes > 0 {
                decimal(minutes)
            } else {
                Seq::empty()
            })
        }),
{
    let days = total / 1440;
    let hours = total % 1440 / 60;
    let minutes = total % 60;
    assert(days * 1440 + hours * 60 + minutes == total) by (nonlinear_arith)
        requires
            days == total / 1440,
            hours == total % 1440 / 60,
            minutes == total % 60,
    ;
    lemma_no_digits_literals();
    let pd: Seq<Seq<char>> = if days > 0 {
        seq![duration_part(days, "day"@)]
    } else {
        Seq::empty()
    };
    let ph: Seq<Seq<char>> = if hours > 0 {
        seq![duration_part(hours, "hour"@)]
    } else {
        Seq::empty()
    };
    let pm: Seq<Seq<char>> = if minutes > 0 {
        seq![duration_part(minutes, "minute"@)]
    } else {
        Seq::empty()
    };
    lemma_digits_of_join(pd + ph + pm, " "@);
    lemma_digits_of_pieces_add(pd + ph, pm);
    lemma_digits_of_pieces_add(pd, ph);
    lemma_part_digits(days, "day"@);
    lemma_part_digits(hours, "hour"@);
    lemma_part_digits(minutes, "minute"@);
    assert(digits_of_pieces(Seq::<Seq<char>>::empty()) == Seq::<char>::empty());
}

/// Each pair as one piece: the two words with the separator between them.
pub open spec fn paired(pairs: Seq<(Seq<char>, Seq<char>)>, sep: Seq<char>) -> Seq<Seq<char>>
    decreases pairs.len(),
{
    if pairs.len() == 0 {
        Seq::empty()
    } else {
        paired(pairs.drop_last(), sep).push(pairs.last().0 + sep + pairs.last().1)
    }
}

/// The words of the pairs, one after another.
pub open spec fn flat_words(pairs: Seq<(Seq<char>, Seq<char>)>) -> Seq<Seq<char>>
    decreases pairs.len(),
{
    if pairs.len() == 0 {
        Seq::empty()
    } else {
        flat_words(pairs.drop_last()).push(pairs.last().0).push(pairs.last().1)
    }
}

proof fn lemma_join_pairs(pairs: Seq<(Seq<char>, Seq<char>)>, sep: Seq<char>)
    ensures
        join(paired(pairs, sep), sep) == join(flat_words(pairs), sep),
        paired(pairs, sep).len() == pairs.len(),
        flat_words(pairs).len() == 2 * pairs.len(),
    decreases pairs.len(),
{
    if pairs.len() > 0 {
        let pre = pairs.drop_last();
        let (a, b) = pairs.last();
        lemma_join_pairs(pre, sep);
        let ps = paired(pairs, sep);
        let ws = flat_words(pairs);
        let wa = flat_words(pre).push(a);
        assert(ps.drop_last() =~= paired(pre, sep));
        assert(ws.drop_last() =~= wa);
        assert(wa.drop_last() =~= flat_words(pre));
        if pre.len() == 0 {
            assert(ps =~= seq![a + sep + b]);
            assert(join(ps, sep) == a + sep + b);
            assert(wa =~= seq![a]);
            assert(join(wa, sep) == a);
        } else {
            assert(join(ps, sep) == join(paired(pre, sep), sep) + sep + (a + sep + b));
            assert(join(wa, sep) == join(flat_words(pre), sep) + sep + a);
        }
        assert(join(ws, sep) == join(wa, sep) + sep + b);
        assert(join(ps, sep) =~= join(ws, sep));
    }
}

/// The unit word for a count: plural unless the count is one.
pub open spec fn unit_word(value: nat, unit: Seq<char>) -> Seq<char> {
    if value == 1 {
        unit
    } else {
        unit + "s"@
    }
}

/// A spelt-out duration is a run of single-space-separated words that
/// alternate a plain decimal numeral and its unit ("day", "hour", "minute",
/// plural unless the number is one), for the days, hours and minutes that
/// are not zero, largest unit first.
pub proof fn lemma_duration_words(total: nat)
    requires
        total > 0,
    ensures
        ({
            let days = total / 1440;
            let hours = total % 1440 / 60;
            let minutes = total % 60;
            duration_text(total) == join(
                flat_words(
                    (if days > 0 {
                        seq![(decimal(days), unit_word(days, "day"@))]
                    } else {
                        Seq::empty()
                    }) + (if hours > 0 {
                        seq![(decimal(hours), unit_word(hours, "hour"@))]
                    } else {
                        Seq::empty()
                    }) + (if minutes > 0 {
                        seq![(decimal(minutes), unit_word(minutes, "minute"@))]
                    } else {
                        Seq::empty()
                    }),
                ),
                " "@,
            )
        }),
{
    let days = total / 1440;
    let hours = total % 1440 / 60;
    let minutes = total % 60;
    let pd: Seq<(Seq<char>, Seq<char>)> = if days > 0 {
        seq![(decimal(days), unit_word(days, "day"@))]
    } else {
        Seq::empty()
    };
    let ph: Seq<(Seq<char>, Seq<char>)> = if hours > 0 {
        seq![(decimal(hours), unit_word(hours, "hour"@))]
    } else {
        Seq::empty()
    };
    let pm: Seq<(Seq<char>, Seq<char>)> = if minutes > 0 {
        seq![(decimal(minutes), unit_word(minutes, "minute"@))]
    } else {
        Seq::empty()
    };
    let pairs = pd + ph + pm;
    lemma_join_pairs(pairs, " "@);
    reveal_strlit("");
    assert forall|v: nat, u: Seq<char>| #[trigger] duration_part(v, u) == decimal(v) + " "@
        + unit_word(v, u) by {
        assert(decimal(v) + " "@ + u + ""@ =~= decimal(v) + " "@ + u);
        assert(decimal(v) + " "@ + u + "s"@ =~= decimal(v) + " "@ + (u + "s"@));
    }
    let parts = (if days > 0 {
        seq![duration_part(days, "day"@)]
    } else {
        Seq::empty()
    }) + (if hours > 0 {
        seq![duration_part(hours, "hour"@)]
    } else {
        Seq::empty()
    }) + (if minutes > 0 {
        seq![duration_part(minutes, "minute"@)]
    } else {
        Seq::empty()
    });
    assert(paired(pairs, " "@) =~= parts) by {
        lemma_paired_add(pd + ph, pm, " "@);
        lemma_paired_add(pd, ph, " "@);
        lemma_paired_one_or_none(pd, " "@);
        lemma_paired_one_or_none(ph, " "@);
        lemma_paired_one_or_none(pm, " "@);
    }
}

proof fn lemma_paired_add(
    a: Seq<(Seq<char>, Seq<char>)>,
    b: Seq<(Seq<char>, Seq<char>)>,
    sep: Seq<char>,
)
    ensures
        paired(a + b, sep) == paired(a, sep) + paired(b, sep),
    decreases b.len(),
{
    if b.len() == 0 {
        assert(a + b =~= a);
        assert(paired(a, sep) + Seq::<Seq<char>>::empty() =~= paired(a, sep));
    } else {
        lemma_paired_add(a, b.drop_last(), sep);
        assert((a + b).drop_last() =~= a + b.drop_last());
        assert((a + b).last() == b.last());
        assert(paired(a, sep) + paired(b.drop_last(), sep).push(b.last().0 + sep + b.last().1)
            =~= (paired(a, sep) + paired(b.drop_last(), sep)).push(
            b.last().0 + sep + b.last().1,
        ));
    }
}

proof fn lemma_paired_one_or_none(a: Seq<(Seq<char>, Seq<char>)>, sep: Seq<char>)
    requires
        a.len() <= 1,
    ensures
        a.len() == 0 ==> paired(a, sep) == Seq::<Seq<char>>::empty(),
        a.len() == 1 ==> paired(a, sep) == seq![a[0].0 + sep + a[0].1],
{
    if a.len() == 1 {
        assert(a.drop_last() =~= Seq::<(Seq<char>, Seq<char>)>::empty());
        assert(a.last() == a[0]);
        assert(paired(a.drop_last(), sep) == Seq::<Seq<char>>::empty());
        assert(paired(a, sep) == paired(a.drop_last(), sep).push(a.last().0 + sep + a.last().1));
        assert(paired(a, sep) =~= seq![a[0].0 + sep + a[0].1]);
    }
}

} // verus!
