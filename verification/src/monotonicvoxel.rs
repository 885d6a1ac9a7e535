use vstd::prelude::*;

use std::collections::HashMap;

use crate::bbox::{bb_tracks, lemma_bb_add, BoundingBox};
use crate::model::Model;
use crate::voxel::{
    build_mesh, coord_ok, has_adjacent_run, lemma_run_pts_card, lemma_runs_pts_concat,
    lemma_runs_pts_finite,
    lemma_runs_pts_ok, lemma_runs_one, lemma_runs_total_concat, lemma_runs_total_nonneg, run_ok,
    run_pts, runs_ok, runs_pts, runs_total, wide4, Occupancy, Voxel,
};
use crate::voxelidx::VoxelIdx;

verus! {

broadcast use vstd::std_specs::hash::group_hash_axioms;

/// A maximal-at-insertion occupied span `[start, end)` along the z axis.
#[derive(Clone, Copy, Debug, PartialEq, Eq)]
pub struct Run {
    pub start: i32,
    pub end: i32,
}

/// One `(x, y)` column: its disjoint runs, sorted by start.
#[derive(Clone, Debug)]
pub struct Column {
    pub x: i32,
    pub y: i32,
    pub runs: Vec<Run>,
}

/// Whether run `r` covers height `z`.
pub open spec fn run_covers(r: Run, z: int) -> bool {
    r.start as int <= z < r.end as int
}

/// A well-formed column: representable coordinates and non-empty, sorted,
/// pairwise-disjoint runs.
pub open spec fn col_wf(c: Column) -> bool {
    &&& -2147483646 <= c.x as int <= 2147483646
    &&& -2147483646 <= c.y as int <= 2147483646
    &&& c.runs@.len() >= 1
    &&& forall|j: int|
        0 <= j < c.runs@.len() ==> ((#[trigger] c.runs@[j]).start < c.runs@[j].end
            && c.runs@[j].start >= -2147483646)
    &&& forall|j: int|
        0 <= j && j + 1 < c.runs@.len() ==> (#[trigger] c.runs@[j]).end <= c.runs@[j + 1].start
}

/// The flattened run records of one column.
pub open spec fn col_runs_at(x: int, y: int, rs: Seq<Run>) -> Seq<(int, int, int, int)>
    decreases rs.len(),
{
    if rs.len() == 0 {
        Seq::empty()
    } else {
        col_runs_at(x, y, rs.drop_last()).push(
            (x, y, rs.last().start as int, rs.last().end as int),
        )
    }
}

pub open spec fn col_runs(c: Column) -> Seq<(int, int, int, int)> {
    col_runs_at(c.x as int, c.y as int, c.runs@)
}

/// The flattened run records of all columns, in column order.
pub open spec fn cols_runs(cols: Seq<Column>) -> Seq<(int, int, int, int)>
    decreases cols.len(),
{
    if cols.len() == 0 {
        Seq::empty()
    } else {
        cols_runs(cols.drop_last()) + col_runs(cols.last())
    }
}

/// The map key of column (x, y): an injective encoding into u64.
pub open spec fn spec_key(x: i32, y: i32) -> u64 {
    (((x as int) + 2147483648) * 4294967296 + ((y as int) + 2147483648)) as u64
}

fn column_key(x: i32, y: i32) -> (r: u64)
    ensures
        r == spec_key(x, y),
{
    let nx = ((x as i64) + 2147483648) as u64;
    let ny = ((y as i64) + 2147483648) as u64;
    nx * 4294967296u64 + ny
}

/// Distinct (x, y) pairs get distinct keys.
pub proof fn lemma_key_injective(x1: i32, y1: i32, x2: i32, y2: i32)
    requires
        spec_key(x1, y1) == spec_key(x2, y2),
    ensures
        x1 == x2,
        y1 == y2,
{
    let a1 = x1 as int + 2147483648;
    let b1 = y1 as int + 2147483648;
    let a2 = x2 as int + 2147483648;
    let b2 = y2 as int + 2147483648;
    assert(0 <= a1 <= 4294967295 && 0 <= b1 <= 4294967295);
    assert(0 <= a2 <= 4294967295 && 0 <= b2 <= 4294967295);
    assert(0 <= a1 * 4294967296 + b1 < 18446744073709551616);
    assert(0 <= a2 * 4294967296 + b2 < 18446744073709551616);
    assert(a1 * 4294967296 + b1 == a2 * 4294967296 + b2);
}

// --------------------------------------------------------------------------
// Shape lemmas for the flattened records.
// --------------------------------------------------------------------------

/// Element-wise shape of a column's flattened records.
pub proof fn lemma_col_runs_at_index(x: int, y: int, rs: Seq<Run>)
    ensures
        col_runs_at(x, y, rs).len() == rs.len(),
        forall|j: int|
            0 <= j < rs.len() ==> col_runs_at(x, y, rs)[j] == (
                x,
                y,
                rs[j].start as int,
                rs[j].end as int,
            ),
    decreases rs.len(),
{
    if rs.len() != 0 {
        lemma_col_runs_at_index(x, y, rs.drop_last());
        assert(forall|j: int| 0 <= j < rs.len() - 1 ==> rs.drop_last()[j] == rs[j]);
    }
}

/// Flattening a column distributes over concatenation of its run lists.
pub proof fn lemma_col_runs_at_cat(x: int, y: int, a: Seq<Run>, b: Seq<Run>)
    ensures
        col_runs_at(x, y, a + b) == col_runs_at(x, y, a) + col_runs_at(x, y, b),
    decreases b.len(),
{
    if b.len() == 0 {
        assert(a + b =~= a);
        assert(col_runs_at(x, y, a) + col_runs_at(x, y, b) =~= col_runs_at(x, y, a));
    } else {
        lemma_col_runs_at_cat(x, y, a, b.drop_last());
        assert((a + b).drop_last() =~= a + b.drop_last());
        assert((a + b).last() == b.last());
        assert(col_runs_at(x, y, a) + col_runs_at(x, y, b) =~= (col_runs_at(x, y, a)
            + col_runs_at(x, y, b.drop_last())).push(
            (x, y, b.last().start as int, b.last().end as int),
        ));
    }
}

pub proof fn lemma_col_runs_at_one(x: int, y: int, r: Run)
    ensures
        col_runs_at(x, y, seq![r]) == seq![(x, y, r.start as int, r.end as int)],
{
    assert(seq![r].drop_last() =~= Seq::<Run>::empty());
    assert(seq![r].last() == r);
    assert(col_runs_at(x, y, Seq::<Run>::empty()) == Seq::<(int, int, int, int)>::empty());
    assert(Seq::<(int, int, int, int)>::empty().push((x, y, r.start as int, r.end as int)) =~= seq![
        (x, y, r.start as int, r.end as int),
    ]);
}

/// Flattening distributes over concatenation of column lists.
pub proof fn lemma_cols_runs_cat(a: Seq<Column>, b: Seq<Column>)
    ensures
        cols_runs(a + b) == cols_runs(a) + cols_runs(b),
    decreases b.len(),
{
    if b.len() == 0 {
        assert(a + b =~= a);
        assert(cols_runs(a) + cols_runs(b) =~= cols_runs(a));
    } else {
        lemma_cols_runs_cat(a, b.drop_last());
        assert((a + b).drop_last() =~= a + b.drop_last());
        assert((a + b).last() == b.last());
        assert(cols_runs(a) + cols_runs(b) =~= cols_runs(a) + cols_runs(b.drop_last()) + col_runs(
            b.last(),
        ));
    }
}

pub proof fn lemma_cols_runs_one(c: Column)
    ensures
        cols_runs(seq![c]) == col_runs(c),
{
    assert(seq![c].drop_last() =~= Seq::<Column>::empty());
    assert(seq![c].last() == c);
    assert(cols_runs(Seq::<Column>::empty()) == Seq::<(int, int, int, int)>::empty());
    assert(Seq::<(int, int, int, int)>::empty() + col_runs(c) =~= col_runs(c));
}

/// Split the flattened records of a column list at column `i`.
pub proof fn lemma_cols_runs_split(cols: Seq<Column>, i: int)
    requires
        0 <= i < cols.len(),
    ensures
        cols_runs(cols) == cols_runs(cols.take(i)) + col_runs(cols[i]) + cols_runs(
            cols.skip(i + 1),
        ),
{
    assert(cols =~= cols.take(i) + seq![cols[i]] + cols.skip(i + 1));
    lemma_cols_runs_cat(cols.take(i) + seq![cols[i]], cols.skip(i + 1));
    lemma_cols_runs_cat(cols.take(i), seq![cols[i]]);
    lemma_cols_runs_one(cols[i]);
}

/// Updating one column rewrites only its own stretch of the flattened
/// records.
pub proof fn lemma_cols_update_split(cols: Seq<Column>, i: int, c1: Column)
    requires
        0 <= i < cols.len(),
    ensures
        cols_runs(cols.update(i, c1)) == cols_runs(cols.take(i)) + col_runs(c1) + cols_runs(
            cols.skip(i + 1),
        ),
{
    let cols1 = cols.update(i, c1);
    assert(cols1 =~= cols.take(i) + seq![c1] + cols.skip(i + 1));
    lemma_cols_runs_cat(cols.take(i) + seq![c1], cols.skip(i + 1));
    lemma_cols_runs_cat(cols.take(i), seq![c1]);
    lemma_cols_runs_one(c1);
}

/// Split a column's flattened records at run `j`.
pub proof fn lemma_col_runs_split(x: int, y: int, rs: Seq<Run>, j: int)
    requires
        0 <= j < rs.len(),
    ensures
        col_runs_at(x, y, rs) == col_runs_at(x, y, rs.take(j)) + seq![
            (x, y, rs[j].start as int, rs[j].end as int),
        ] + col_runs_at(x, y, rs.skip(j + 1)),
{
    assert(rs =~= rs.take(j) + seq![rs[j]] + rs.skip(j + 1));
    lemma_col_runs_at_cat(x, y, rs.take(j) + seq![rs[j]], rs.skip(j + 1));
    lemma_col_runs_at_cat(x, y, rs.take(j), seq![rs[j]]);
    lemma_col_runs_at_one(x, y, rs[j]);
}

// --------------------------------------------------------------------------
// Membership characterisation.
// --------------------------------------------------------------------------

/// A column's records cover exactly its own (x, y) positions whose height
/// lies in one of its runs.
pub proof fn lemma_col_pts(x: int, y: int, rs: Seq<Run>)
    ensures
        forall|t: (int, int, int)|
            runs_pts(col_runs_at(x, y, rs)).contains(t) <==> (t.0 == x && t.1 == y && exists|j: int|
                0 <= j < rs.len() && run_covers(#[trigger] rs[j], t.2)),
    decreases rs.len(),
{
    if rs.len() == 0 {
        assert(runs_pts(col_runs_at(x, y, rs)) =~= Set::<(int, int, int)>::empty());
    } else {
        lemma_col_pts(x, y, rs.drop_last());
        let pre = col_runs_at(x, y, rs.drop_last());
        let tup = (x, y, rs.last().start as int, rs.last().end as int);
        assert(pre.push(tup).drop_last() =~= pre);
        assert(pre.push(tup).last() == tup);
        assert(runs_pts(col_runs_at(x, y, rs)) == runs_pts(pre).union(run_pts(tup)));
        assert forall|t: (int, int, int)|
            runs_pts(col_runs_at(x, y, rs)).contains(t) <==> (t.0 == x && t.1 == y && exists|j: int|
                0 <= j < rs.len() && run_covers(#[trigger] rs[j], t.2)) by {
            if runs_pts(col_runs_at(x, y, rs)).contains(t) {
                if runs_pts(pre).contains(t) {
                    let j = choose|j: int|
                        0 <= j < rs.drop_last().len() && run_covers(
                            #[trigger] rs.drop_last()[j],
                            t.2,
                        );
                    assert(rs.drop_last()[j] == rs[j]);
                    assert(run_covers(rs[j], t.2));
                } else {
                    assert(run_pts(tup).contains(t));
                    assert(rs.last() == rs[rs.len() - 1]);
                    assert(run_covers(rs[rs.len() - 1], t.2));
                }
            }
            if t.0 == x && t.1 == y && exists|j: int|
                0 <= j < rs.len() && run_covers(#[trigger] rs[j], t.2) {
                let j = choose|j: int| 0 <= j < rs.len() && run_covers(#[trigger] rs[j], t.2);
                if j < rs.len() - 1 {
                    assert(rs.drop_last()[j] == rs[j]);
                    assert(run_covers(rs.drop_last()[j], t.2));
                    assert(runs_pts(pre).contains(t));
                } else {
                    assert(rs[j] == rs.last());
                    assert(run_pts(tup).contains(t));
                }
            }
        }
    }
}

/// Every covered point belongs to the column that covers it, and conversely.
pub proof fn lemma_cols_pts(cols: Seq<Column>)
    ensures
        forall|t: (int, int, int)|
            runs_pts(cols_runs(cols)).contains(t) <==> exists|i: int|
                0 <= i < cols.len() && (#[trigger] cols[i]).x as int == t.0 && cols[i].y as int
                    == t.1 && runs_pts(col_runs(cols[i])).contains(t),
    decreases cols.len(),
{
    if cols.len() == 0 {
        assert(runs_pts(cols_runs(cols)) =~= Set::<(int, int, int)>::empty());
    } else {
        lemma_cols_pts(cols.drop_last());
        let last = cols.last();
        lemma_runs_pts_concat(cols_runs(cols.drop_last()), col_runs(last));
        lemma_col_pts(last.x as int, last.y as int, last.runs@);
        assert forall|t: (int, int, int)|
            runs_pts(cols_runs(cols)).contains(t) <==> exists|i: int|
                0 <= i < cols.len() && (#[trigger] cols[i]).x as int == t.0 && cols[i].y as int
                    == t.1 && runs_pts(col_runs(cols[i])).contains(t) by {
            if runs_pts(cols_runs(cols)).contains(t) {
                if runs_pts(cols_runs(cols.drop_last())).contains(t) {
                    let i = choose|i: int|
                        0 <= i < cols.drop_last().len() && (#[trigger] cols.drop_last()[i]).x as int
                            == t.0 && cols.drop_last()[i].y as int == t.1 && runs_pts(
                            col_runs(cols.drop_last()[i]),
                        ).contains(t);
                    assert(cols.drop_last()[i] == cols[i]);
                    assert(0 <= i < cols.len() && cols[i].x as int == t.0 && cols[i].y as int == t.1
                        && runs_pts(col_runs(cols[i])).contains(t));
                } else {
                    assert(runs_pts(col_runs(last)).contains(t));
                    assert(cols[cols.len() - 1] == last);
                    assert(t.0 == last.x as int && t.1 == last.y as int);
                }
            }
            if exists|i: int|
                0 <= i < cols.len() && (#[trigger] cols[i]).x as int == t.0 && cols[i].y as int
                    == t.1 && runs_pts(col_runs(cols[i])).contains(t) {
                let i = choose|i: int|
                    0 <= i < cols.len() && (#[trigger] cols[i]).x as int == t.0 && cols[i].y as int
                        == t.1 && runs_pts(col_runs(cols[i])).contains(t);
                if i < cols.len() - 1 {
                    assert(cols.drop_last()[i] == cols[i]);
                    assert(runs_pts(cols_runs(cols.drop_last())).contains(t));
                } else {
                    assert(cols[i] == last);
                    assert(runs_pts(col_runs(last)).contains(t));
                }
            }
        }
    }
}

/// Well-formed columns flatten to well-formed run records.
pub proof fn lemma_cols_runs_ok(cols: Seq<Column>)
    requires
        forall|i: int| 0 <= i < cols.len() ==> col_wf(#[trigger] cols[i]),
    ensures
        runs_ok(cols_runs(cols)),
    decreases cols.len(),
{
    if cols.len() != 0 {
        assert(forall|i: int| 0 <= i < cols.len() - 1 ==> cols.drop_last()[i] == cols[i]);
        lemma_cols_runs_ok(cols.drop_last());
        let last = cols.last();
        assert(col_wf(cols[cols.len() - 1]));
        lemma_col_runs_at_index(last.x as int, last.y as int, last.runs@);
        let a = cols_runs(cols.drop_last());
        let b = col_runs(last);
        assert(runs_ok(b)) by {
            assert(forall|j: int|
                0 <= j < b.len() ==> b[j] == (
                    last.x as int,
                    last.y as int,
                    last.runs@[j].start as int,
                    last.runs@[j].end as int,
                ));
        }
        assert forall|i: int| 0 <= i < (a + b).len() implies run_ok(#[trigger] (a + b)[i]) by {
            if i < a.len() {
                assert((a + b)[i] == a[i]);
            } else {
                assert((a + b)[i] == b[i - a.len()]);
            }
        }
    }
}

/// Starts are monotone across a sorted, disjoint run list.
pub proof fn lemma_starts_monotone(rs: Seq<Run>, i: int, j: int)
    requires
        forall|k: int|
            0 <= k < rs.len() ==> ((#[trigger] rs[k]).start < rs[k].end),
        forall|k: int| 0 <= k && k + 1 < rs.len() ==> (#[trigger] rs[k]).end <= rs[k + 1].start,
        0 <= i <= j < rs.len(),
    ensures
        rs[i].start <= rs[j].start,
    decreases j - i,
{
    if i < j {
        lemma_starts_monotone(rs, i, j - 1);
        assert(rs[j - 1].end <= rs[j].start);
    }
}

/// First position whose run starts after `z`: the insertion point that keeps
/// a column's runs sorted.
fn upper_bound(runs: &Vec<Run>, z: i32) -> (p: usize)
    requires
        forall|k: int| 0 <= k < runs@.len() ==> ((#[trigger] runs@[k]).start < runs@[k].end),
        forall|k: int| 0 <= k && k + 1 < runs@.len() ==> (#[trigger] runs@[k]).end <= runs@[k + 1].start,
    ensures
        p <= runs@.len(),
        forall|j: int| 0 <= j < p ==> (#[trigger] runs@[j]).start <= z,
        forall|j: int| p <= j < runs@.len() ==> z < (#[trigger] runs@[j]).start,
{
    let mut lo: usize = 0;
    let mut hi: usize = runs.len();
    while lo < hi
        invariant
            lo <= hi <= runs@.len(),
            forall|k: int| 0 <= k < runs@.len() ==> ((#[trigger] runs@[k]).start < runs@[k].end),
            forall|k: int|
                0 <= k && k + 1 < runs@.len() ==> (#[trigger] runs@[k]).end <= runs@[k + 1].start,
            forall|j: int| 0 <= j < lo ==> (#[trigger] runs@[j]).start <= z,
            forall|j: int| hi <= j < runs@.len() ==> z < (#[trigger] runs@[j]).start,
        decreases hi - lo,
    {
        let mid = lo + (hi - lo) / 2;
        if runs[mid].start <= z {
            proof {
                assert forall|j: int| 0 <= j < mid + 1 implies (#[trigger] runs@[j]).start
                    <= z by {
                    lemma_starts_monotone(runs@, j, mid as int);
                }
            }
            lo = mid + 1;
        } else {
            proof {
                assert forall|j: int| mid <= j < runs@.len() implies z < (
                #[trigger] runs@[j]).start by {
                    lemma_starts_monotone(runs@, mid as int, j);
                }
            }
            hi = mid;
        }
    }
    lo
}

/// Within one sorted column, an earlier run ends before a later one starts.
proof fn lemma_run_ends_before(rs: Seq<Run>, i: int, j: int)
    requires
        forall|k: int| 0 <= k < rs.len() ==> (#[trigger] rs[k]).start < rs[k].end,
        forall|k: int| 0 <= k && k + 1 < rs.len() ==> (#[trigger] rs[k]).end <= rs[k + 1].start,
        0 <= i < j < rs.len(),
    ensures
        rs[i].end <= rs[j].start,
    decreases j - i,
{
    if i + 1 < j {
        lemma_run_ends_before(rs, i, j - 1);
    }
}

/// One column covers exactly as many voxels as its total run length: its
/// disjoint runs never count a voxel twice.
#[verifier::rlimit(100)]
proof fn lemma_col_card(x: int, y: int, rs: Seq<Run>)
    requires
        forall|k: int| 0 <= k < rs.len() ==> (#[trigger] rs[k]).start < rs[k].end,
        forall|k: int| 0 <= k && k + 1 < rs.len() ==> (#[trigger] rs[k]).end <= rs[k + 1].start,
    ensures
        runs_pts(col_runs_at(x, y, rs)).finite(),
        runs_pts(col_runs_at(x, y, rs)).len() == runs_total(col_runs_at(x, y, rs)),
    decreases rs.len(),
{
    lemma_runs_pts_finite(col_runs_at(x, y, rs));
    if rs.len() == 0 {
        assert(runs_pts(col_runs_at(x, y, rs)) =~= Set::<(int, int, int)>::empty());
    } else {
        assert(forall|k: int| 0 <= k < rs.len() - 1 ==> rs.drop_last()[k] == rs[k]);
        lemma_col_card(x, y, rs.drop_last());
        let pre = col_runs_at(x, y, rs.drop_last());
        let last = rs[rs.len() - 1];
        let tup = (x, y, last.start as int, last.end as int);
        assert(rs.last() == last);
        assert(pre.push(tup).drop_last() =~= pre);
        assert(pre.push(tup).last() == tup);
        assert(col_runs_at(x, y, rs) == pre.push(tup));
        assert(runs_pts(col_runs_at(x, y, rs)) == runs_pts(pre).union(run_pts(tup)));
        assert(runs_total(col_runs_at(x, y, rs)) == runs_total(pre) + (tup.3 - tup.2));
        lemma_run_pts_card(tup);
        lemma_col_pts(x, y, rs.drop_last());
        assert forall|t: (int, int, int)| runs_pts(pre).contains(t) implies !run_pts(
            tup,
        ).contains(t) by {
            let j = choose|j: int|
                0 <= j < rs.drop_last().len() && run_covers(
                    #[trigger] rs.drop_last()[j],
                    t.2,
                );
            assert(rs.drop_last()[j] == rs[j]);
            lemma_run_ends_before(rs, j, rs.len() - 1);
            assert(t.2 < rs[j].end as int);
        }
        assert(runs_pts(pre).disjoint(run_pts(tup)));
        vstd::set_lib::lemma_set_disjoint_lens(runs_pts(pre), run_pts(tup));
        assert(runs_pts(pre) + run_pts(tup) =~= runs_pts(pre).union(run_pts(tup)));
    }
}

/// Columns with pairwise distinct keys cover exactly as many voxels as
/// their total run length.
#[verifier::rlimit(100)]
proof fn lemma_cols_card(cols: Seq<Column>)
    requires
        forall|i: int| 0 <= i < cols.len() ==> col_wf(#[trigger] cols[i]),
        forall|i: int, j: int|
            0 <= i < j < cols.len() ==> !((#[trigger] cols[i]).x == (#[trigger] cols[j]).x
                && cols[i].y == cols[j].y),
    ensures
        runs_pts(cols_runs(cols)).len() == runs_total(cols_runs(cols)),
    decreases cols.len(),
{
    if cols.len() == 0 {
        assert(runs_pts(cols_runs(cols)) =~= Set::<(int, int, int)>::empty());
    } else {
        assert(forall|i: int| 0 <= i < cols.len() - 1 ==> cols.drop_last()[i] == cols[i]);
        lemma_cols_card(cols.drop_last());
        let last = cols[cols.len() - 1];
        assert(cols.last() == last);
        assert(col_wf(last));
        assert(cols_runs(cols) == cols_runs(cols.drop_last()) + col_runs(last));
        lemma_runs_pts_concat(cols_runs(cols.drop_last()), col_runs(last));
        lemma_runs_total_concat(cols_runs(cols.drop_last()), col_runs(last));
        lemma_col_card(last.x as int, last.y as int, last.runs@);
        lemma_cols_pts(cols.drop_last());
        lemma_col_pts(last.x as int, last.y as int, last.runs@);
        lemma_runs_pts_finite(cols_runs(cols.drop_last()));
        assert forall|t: (int, int, int)|
            runs_pts(cols_runs(cols.drop_last())).contains(t) implies !runs_pts(
            col_runs(last),
        ).contains(t) by {
            let i = choose|i: int|
                0 <= i < cols.drop_last().len() && (#[trigger] cols.drop_last()[i]).x as int
                    == t.0 && cols.drop_last()[i].y as int == t.1 && runs_pts(
                    col_runs(cols.drop_last()[i]),
                ).contains(t);
            assert(cols.drop_last()[i] == cols[i]);
            if runs_pts(col_runs(last)).contains(t) {
                assert(t.0 == last.x as int && t.1 == last.y as int);
                assert(cols[i].x == last.x && cols[i].y == last.y);
                assert(false);
            }
        }
        assert(runs_pts(cols_runs(cols.drop_last())).disjoint(runs_pts(col_runs(last))));
        vstd::set_lib::lemma_set_disjoint_lens(
            runs_pts(cols_runs(cols.drop_last())),
            runs_pts(col_runs(last)),
        );
        assert(runs_pts(cols_runs(cols.drop_last())) + runs_pts(col_runs(last)) =~= runs_pts(
            cols_runs(cols.drop_last()),
        ).union(runs_pts(col_runs(last))));
    }
}

/// Every flattened record carries the key and one run of one of the
/// columns.
proof fn lemma_cols_runs_attr(cols: Seq<Column>)
    ensures
        forall|t: int|
            0 <= t < cols_runs(cols).len() ==> exists|i: int, j: int|
                0 <= i < cols.len() && 0 <= j < cols[i].runs@.len() && #[trigger] cols_runs(
                    cols,
                )[t] == (
                    cols[i].x as int,
                    cols[i].y as int,
                    (#[trigger] cols[i].runs@[j]).start as int,
                    cols[i].runs@[j].end as int,
                ),
    decreases cols.len(),
{
    if cols.len() != 0 {
        lemma_cols_runs_attr(cols.drop_last());
        let last = cols[cols.len() - 1];
        assert(cols.last() == last);
        lemma_col_runs_at_index(last.x as int, last.y as int, last.runs@);
        let pre = cols_runs(cols.drop_last());
        assert(cols_runs(cols) == pre + col_runs(last));
        assert forall|t: int| 0 <= t < cols_runs(cols).len() implies exists|i: int, j: int|
            0 <= i < cols.len() && 0 <= j < cols[i].runs@.len() && #[trigger] cols_runs(cols)[t]
                == (
                cols[i].x as int,
                cols[i].y as int,
                (#[trigger] cols[i].runs@[j]).start as int,
                cols[i].runs@[j].end as int,
            ) by {
            if t < pre.len() {
                assert(cols_runs(cols)[t] == pre[t]);
                let (i, j) = choose|i: int, j: int|
                    0 <= i < cols.drop_last().len() && 0 <= j < cols.drop_last()[i].runs@.len()
                        && pre[t] == (
                        cols.drop_last()[i].x as int,
                        cols.drop_last()[i].y as int,
                        (#[trigger] cols.drop_last()[i].runs@[j]).start as int,
                        cols.drop_last()[i].runs@[j].end as int,
                    );
                assert(cols.drop_last()[i] == cols[i]);
                assert(0 <= i < cols.len() && 0 <= j < cols[i].runs@.len() && cols_runs(cols)[t]
                    == (
                    cols[i].x as int,
                    cols[i].y as int,
                    cols[i].runs@[j].start as int,
                    cols[i].runs@[j].end as int,
                ));
            } else {
                let j = t - pre.len();
                assert(cols_runs(cols)[t] == col_runs(last)[j]);
                assert(0 <= j < last.runs@.len());
                assert(cols_runs(cols)[t] == (
                    last.x as int,
                    last.y as int,
                    last.runs@[j].start as int,
                    last.runs@[j].end as int,
                ));
                assert(0 <= cols.len() - 1 < cols.len() && 0 <= j < cols[cols.len()
                    - 1].runs@.len() && cols_runs(cols)[t] == (
                    cols[cols.len() - 1].x as int,
                    cols[cols.len() - 1].y as int,
                    cols[cols.len() - 1].runs@[j].start as int,
                    cols[cols.len() - 1].runs@[j].end as int,
                ));
            }
        }
    }
}

/// A run of column `ci` adjacent to `t` shows in the flattened list.
proof fn lemma_adjacent_run_witness(cols: Seq<Column>, ci: int, j: int, t: (int, int, int))
    requires
        0 <= ci < cols.len(),
        cols[ci].x as int == t.0,
        cols[ci].y as int == t.1,
        0 <= j < cols[ci].runs@.len(),
        cols[ci].runs@[j].start as int == t.2 + 1 || cols[ci].runs@[j].end as int == t.2,
    ensures
        has_adjacent_run(cols_runs(cols), t),
{
    lemma_cols_runs_split(cols, ci);
    lemma_col_runs_at_index(cols[ci].x as int, cols[ci].y as int, cols[ci].runs@);
    let a = cols_runs(cols.take(ci));
    let b = col_runs(cols[ci]);
    let idx = a.len() + j;
    assert(cols_runs(cols)[idx] == b[j]);
    assert(b[j] == (t.0, t.1, cols[ci].runs@[j].start as int, cols[ci].runs@[j].end as int));
}

/// When no run of the coordinate's own column is adjacent to it, no run
/// anywhere is: other columns carry other keys.
proof fn lemma_no_adjacent_run(s: MonotonicVoxel, ci: int, t: (int, int, int))
    requires
        s.inv(),
        0 <= ci < s.columns@.len(),
        s.columns@[ci].x as int == t.0,
        s.columns@[ci].y as int == t.1,
        forall|k: int|
            0 <= k < s.columns@[ci].runs@.len() ==> ((#[trigger] s.columns@[ci].runs@[k]).start
                as int != t.2 + 1 && s.columns@[ci].runs@[k].end as int != t.2),
    ensures
        !has_adjacent_run(cols_runs(s.columns@), t),
{
    if has_adjacent_run(cols_runs(s.columns@), t) {
        let idx = choose|idx: int|
            0 <= idx < cols_runs(s.columns@).len() && (#[trigger] cols_runs(s.columns@)[idx]).0
                == t.0 && cols_runs(s.columns@)[idx].1 == t.1 && (cols_runs(s.columns@)[idx].2
                == t.2 + 1 || cols_runs(s.columns@)[idx].3 == t.2);
        lemma_cols_runs_attr(s.columns@);
        let (i, j) = choose|i: int, j: int|
            0 <= i < s.columns@.len() && 0 <= j < s.columns@[i].runs@.len() && cols_runs(
                s.columns@,
            )[idx] == (
                s.columns@[i].x as int,
                s.columns@[i].y as int,
                (#[trigger] s.columns@[i].runs@[j]).start as int,
                s.columns@[i].runs@[j].end as int,
            );
        assert(s.columns@[i].x == s.columns@[ci].x && s.columns@[i].y == s.columns@[ci].y);
        assert(s.index@[spec_key(s.columns@[i].x, s.columns@[i].y)] == i);
        assert(s.index@[spec_key(s.columns@[ci].x, s.columns@[ci].y)] == ci);
        assert(i == ci);
        assert(false);
    }
}

/// With no column under the coordinate's key, no stored run is adjacent to
/// it.
proof fn lemma_no_column_no_adjacent(s: MonotonicVoxel, coord: VoxelIdx)
    requires
        s.inv(),
        !s.index@.dom().contains(spec_key(coord.idx[0], coord.idx[1])),
    ensures
        !has_adjacent_run(cols_runs(s.columns@), coord@),
{
    if has_adjacent_run(cols_runs(s.columns@), coord@) {
        let idx = choose|idx: int|
            0 <= idx < cols_runs(s.columns@).len() && (#[trigger] cols_runs(s.columns@)[idx]).0
                == coord@.0 && cols_runs(s.columns@)[idx].1 == coord@.1 && (cols_runs(
                s.columns@,
            )[idx].2 == coord@.2 + 1 || cols_runs(s.columns@)[idx].3 == coord@.2);
        lemma_cols_runs_attr(s.columns@);
        let (i, j) = choose|i: int, j: int|
            0 <= i < s.columns@.len() && 0 <= j < s.columns@[i].runs@.len() && cols_runs(
                s.columns@,
            )[idx] == (
                s.columns@[i].x as int,
                s.columns@[i].y as int,
                (#[trigger] s.columns@[i].runs@[j]).start as int,
                s.columns@[i].runs@[j].end as int,
            );
        assert(s.columns@[i].x == coord.idx[0] && s.columns@[i].y == coord.idx[1]);
        assert(s.index@.dom().contains(spec_key(s.columns@[i].x, s.columns@[i].y)));
        assert(false);
    }
}

/// Two flattened records of one column never overlap: the earlier ends at
/// or before the later starts.
#[verifier::rlimit(100)]
proof fn lemma_cols_runs_ordered(cols: Seq<Column>, t1: int, t2: int)
    requires
        forall|i: int| 0 <= i < cols.len() ==> col_wf(#[trigger] cols[i]),
        forall|i: int, j: int|
            0 <= i < j < cols.len() ==> !((#[trigger] cols[i]).x == (#[trigger] cols[j]).x
                && cols[i].y == cols[j].y),
        0 <= t1 < t2 < cols_runs(cols).len(),
        cols_runs(cols)[t1].0 == cols_runs(cols)[t2].0,
        cols_runs(cols)[t1].1 == cols_runs(cols)[t2].1,
    ensures
        cols_runs(cols)[t1].3 <= cols_runs(cols)[t2].2,
    decreases cols.len(),
{
    let last = cols[cols.len() - 1];
    assert(cols.last() == last);
    lemma_col_runs_at_index(last.x as int, last.y as int, last.runs@);
    let pre = cols_runs(cols.drop_last());
    assert(cols_runs(cols) == pre + col_runs(last));
    assert(forall|i: int| 0 <= i < cols.len() - 1 ==> cols.drop_last()[i] == cols[i]);
    if t2 < pre.len() {
        assert(cols_runs(cols)[t1] == pre[t1] && cols_runs(cols)[t2] == pre[t2]);
        lemma_cols_runs_ordered(cols.drop_last(), t1, t2);
    } else if t1 >= pre.len() {
        let j1 = t1 - pre.len();
        let j2 = t2 - pre.len();
        assert(cols_runs(cols)[t1] == col_runs(last)[j1]);
        assert(cols_runs(cols)[t2] == col_runs(last)[j2]);
        assert(col_wf(last));
        lemma_run_ends_before(last.runs@, j1, j2);
    } else {
        // a record of an earlier column cannot share the last column's key
        let j2 = t2 - pre.len();
        assert(cols_runs(cols)[t2] == col_runs(last)[j2]);
        assert(cols_runs(cols)[t1] == pre[t1]);
        lemma_cols_runs_attr(cols.drop_last());
        let (i, j) = choose|i: int, j: int|
            0 <= i < cols.drop_last().len() && 0 <= j < cols.drop_last()[i].runs@.len()
                && pre[t1] == (
                cols.drop_last()[i].x as int,
                cols.drop_last()[i].y as int,
                (#[trigger] cols.drop_last()[i].runs@[j]).start as int,
                cols.drop_last()[i].runs@[j].end as int,
            );
        assert(cols[i].x == last.x && cols[i].y == last.y);
        assert(false);
    }
}

// --------------------------------------------------------------------------
// The store.
// --------------------------------------------------------------------------

/// The run-length voxel store: per-column sorted run lists reached through an
/// (x, y) key map, with a running bounding box.
pub struct MonotonicVoxel {
    columns: Vec<Column>,
    index: HashMap<u64, usize>,
    bb: BoundingBox,
}

impl MonotonicVoxel {
    pub fn new() -> (r: MonotonicVoxel)
        ensures
            r.inv(),
            r.occ() == Set::<(int, int, int)>::empty(),
            r.runs_view() == Seq::<(int, int, int, int)>::empty(),
            r.nblocks() == 0,
    {
        let r = MonotonicVoxel { columns: Vec::new(), index: HashMap::new(), bb: BoundingBox::new() };
        proof {
            assert(runs_pts(cols_runs(r.columns@)) =~= Set::<(int, int, int)>::empty());
            assert(r.index@.dom() =~= Set::<u64>::empty());
            assert(bb_tracks(r.bb, runs_pts(cols_runs(r.columns@))));
        }
        r
    }
}

impl MonotonicVoxel {
    /// The public run list keeps each column's runs sorted and disjoint:
    /// of two records with one key, the earlier ends at or before the later
    /// starts. Together with `add_frag` this pins the partial-merge rule:
    /// runs are only ever lengthened at an adjacent end, never re-coalesced.
    pub proof fn lemma_runs_view_sorted(&self)
        requires
            self.inv(),
        ensures
            forall|i: int, j: int|
                0 <= i < j < self.runs_view().len() && (#[trigger] self.runs_view()[i]).0 == (
                #[trigger] self.runs_view()[j]).0 && self.runs_view()[i].1
                    == self.runs_view()[j].1 ==> self.runs_view()[i].3 <= self.runs_view()[j].2,
    {
        assert forall|i: int, j: int| 0 <= i < j < self.columns@.len() implies !((
        #[trigger] self.columns@[i]).x == (#[trigger] self.columns@[j]).x && self.columns@[i].y
            == self.columns@[j].y) by {
            if self.columns@[i].x == self.columns@[j].x && self.columns@[i].y
                == self.columns@[j].y {
                assert(self.index@[spec_key(self.columns@[i].x, self.columns@[i].y)] == i);
                assert(self.index@[spec_key(self.columns@[j].x, self.columns@[j].y)] == j);
            }
        }
        assert forall|i: int, j: int|
            0 <= i < j < self.runs_view().len() && (#[trigger] self.runs_view()[i]).0 == (
            #[trigger] self.runs_view()[j]).0 && self.runs_view()[i].1
                == self.runs_view()[j].1 implies self.runs_view()[i].3
            <= self.runs_view()[j].2 by {
            lemma_cols_runs_ordered(self.columns@, i, j);
        }
    }
}

impl Default for MonotonicVoxel {
    /// An empty store.
    fn default() -> (r: MonotonicVoxel)
        ensures
            r.inv(),
            r.occ() == Set::<(int, int, int)>::empty(),
            r.runs_view() == Seq::<(int, int, int, int)>::empty(),
            r.nblocks() == 0,
    {
        MonotonicVoxel::new()
    }
}

impl Occupancy for MonotonicVoxel {
    closed spec fn occ(&self) -> Set<(int, int, int)> {
        runs_pts(cols_runs(self.columns@))
    }

    closed spec fn runs_view(&self) -> Seq<(int, int, int, int)> {
        cols_runs(self.columns@)
    }

    closed spec fn nblocks(&self) -> int {
        runs_total(cols_runs(self.columns@))
    }

    closed spec fn bb(&self) -> BoundingBox {
        self.bb
    }

    closed spec fn inv(&self) -> bool {
        &&& forall|i: int| 0 <= i < self.columns@.len() ==> col_wf(#[trigger] self.columns@[i])
        &&& forall|i: int|
            0 <= i < self.columns@.len() ==> (self.index@.dom().contains(
                spec_key((#[trigger] self.columns@[i]).x, self.columns@[i].y),
            ) && self.index@[spec_key(self.columns@[i].x, self.columns@[i].y)] == i)
        &&& forall|k: u64|
            #[trigger] self.index@.dom().contains(k) ==> (self.index@[k] < self.columns@.len()
                && spec_key(
                self.columns@[self.index@[k] as int].x,
                self.columns@[self.index@[k] as int].y,
            ) == k)
        &&& runs_total(cols_runs(self.columns@)) <= usize::MAX
        &&& self.bb.count as int == runs_total(cols_runs(self.columns@))
        &&& bb_tracks(self.bb, runs_pts(cols_runs(self.columns@)))
    }

    proof fn lemma_inv(&self) {
        let rv = cols_runs(self.columns@);
        lemma_cols_runs_ok(self.columns@);
        lemma_runs_pts_finite(rv);
        lemma_runs_total_nonneg(rv);
        lemma_runs_pts_ok(rv);
        assert forall|i: int, j: int| 0 <= i < j < self.columns@.len() implies !((
        #[trigger] self.columns@[i]).x == (#[trigger] self.columns@[j]).x && self.columns@[i].y
            == self.columns@[j].y) by {
            if self.columns@[i].x == self.columns@[j].x && self.columns@[i].y
                == self.columns@[j].y {
                assert(self.index@[spec_key(self.columns@[i].x, self.columns@[i].y)] == i);
                assert(self.index@[spec_key(self.columns@[j].x, self.columns@[j].y)] == j);
            }
        }
        lemma_cols_card(self.columns@);
    }


    fn occupied(&self, coord: VoxelIdx) -> (r: bool) {
        let x = coord.idx[0];
        let y = coord.idx[1];
        let z = coord.idx[2];
        let key = column_key(x, y);
        let found: Option<usize> = match self.index.get(&key) {
            Some(i) => Some(*i),
            None => None,
        };
        match found {
            None => {
                proof {
                    lemma_cols_pts(self.columns@);
                    if self.occ().contains(coord@) {
                        let i = choose|i: int|
                            0 <= i < self.columns@.len() && (#[trigger] self.columns@[i]).x as int
                                == coord@.0 && self.columns@[i].y as int == coord@.1 && runs_pts(
                                col_runs(self.columns@[i]),
                            ).contains(coord@);
                        assert(self.columns@[i].x == x && self.columns@[i].y == y);
                        assert(self.index@.dom().contains(spec_key(x, y)));
                        assert(false);
                    }
                }
                false
            },
            Some(ci) => {
                proof {
                    assert(self.index@.dom().contains(key));
                    assert(self.index@[key] == ci);
                    lemma_key_injective(
                        self.columns@[ci as int].x,
                        self.columns@[ci as int].y,
                        x,
                        y,
                    );
                }
                let n = self.columns[ci].runs.len();
                let mut j: usize = 0;
                while j < n
                    invariant
                        self.inv(),
                        ci < self.columns@.len(),
                        self.columns@[ci as int].x == x,
                        self.columns@[ci as int].y == y,
                        coord@ == (x as int, y as int, z as int),
                        n == self.columns@[ci as int].runs@.len(),
                        j <= n,
                        self.index@.dom().contains(spec_key(x, y)),
                        self.index@[spec_key(x, y)] == ci,
                        forall|k: int|
                            0 <= k < j ==> !run_covers(
                                #[trigger] self.columns@[ci as int].runs@[k],
                                z as int,
                            ),
                    decreases n - j,
                {
                    let r = self.columns[ci].runs[j];
                    if r.start <= z && z < r.end {
                        proof {
                            let cols = self.columns@;
                            lemma_cols_runs_split(cols, ci as int);
                            lemma_runs_pts_concat(
                                cols_runs(cols.take(ci as int)) + col_runs(cols[ci as int]),
                                cols_runs(cols.skip(ci as int + 1)),
                            );
                            lemma_runs_pts_concat(
                                cols_runs(cols.take(ci as int)),
                                col_runs(cols[ci as int]),
                            );
                            lemma_col_pts(x as int, y as int, cols[ci as int].runs@);
                            assert(run_covers(cols[ci as int].runs@[j as int], z as int));
                            assert(runs_pts(col_runs(cols[ci as int])).contains(coord@));
                            assert(self.occ().contains(coord@));
                        }
                        return true;
                    }
                    j = j + 1;
                }
                proof {
                    if self.occ().contains(coord@) {
                        lemma_cols_pts(self.columns@);
                        let i = choose|i: int|
                            0 <= i < self.columns@.len() && (#[trigger] self.columns@[i]).x as int
                                == coord@.0 && self.columns@[i].y as int == coord@.1 && runs_pts(
                                col_runs(self.columns@[i]),
                            ).contains(coord@);
                        assert(self.index@[spec_key(self.columns@[i].x, self.columns@[i].y)] == i);
                        assert(i == ci as int);
                        lemma_col_pts(x as int, y as int, self.columns@[ci as int].runs@);
                        assert(false);
                    }
                }
                false
            },
        }
    }

    #[verifier::rlimit(100)]
    fn runs_list(&self) -> (r: Vec<(i32, i32, i32, i32)>) {
        proof {
            self.lemma_inv();
        }
        let mut out: Vec<(i32, i32, i32, i32)> = Vec::new();
        proof {
            assert(self.columns@.take(0) =~= Seq::<Column>::empty());
        }
        let mut i: usize = 0;
        while i < self.columns.len()
            invariant
                self.inv(),
                i <= self.columns@.len(),
                out@.len() == cols_runs(self.columns@.take(i as int)).len(),
                forall|k: int|
                    0 <= k < out@.len() ==> wide4(#[trigger] out@[k]) == cols_runs(
                        self.columns@.take(i as int),
                    )[k],
            decreases self.columns@.len() - i,
        {
            let ghost pre = cols_runs(self.columns@.take(i as int));
            let col = &self.columns[i];
            let ghost x = col.x as int;
            let ghost y = col.y as int;
            proof {
                assert(col_wf(self.columns@[i as int]));
                lemma_col_runs_at_index(x, y, col.runs@);
                assert(self.columns@.take(i as int).push(self.columns@[i as int]) =~= self.columns@.take(i as int + 1));
                assert(self.columns@.take(i as int + 1).drop_last() =~= self.columns@.take(
                    i as int,
                ));
                assert(cols_runs(self.columns@.take(i as int + 1)) == pre + col_runs(
                    self.columns@[i as int],
                ));
            }
            let m = col.runs.len();
            let mut j: usize = 0;
            while j < m
                invariant
                    self.inv(),
                    i < self.columns@.len(),
                    *col == self.columns@[i as int],
                    x == col.x as int,
                    y == col.y as int,
                    m == col.runs@.len(),
                    j <= m,
                    pre == cols_runs(self.columns@.take(i as int)),
                    col_runs_at(x, y, col.runs@).len() == m,
                    forall|k: int|
                        0 <= k < m ==> col_runs_at(x, y, col.runs@)[k] == (
                            x,
                            y,
                            col.runs@[k].start as int,
                            col.runs@[k].end as int,
                        ),
                    out@.len() == pre.len() + j,
                    forall|k: int|
                        0 <= k < pre.len() ==> wide4(#[trigger] out@[k]) == pre[k],
                    forall|k: int|
                        0 <= k < j ==> wide4(#[trigger] out@[pre.len() + k]) == col_runs_at(
                            x,
                            y,
                            col.runs@,
                        )[k],
                decreases m - j,
            {
                let rj = col.runs[j];
                out.push((col.x, col.y, rj.start, rj.end));
                j = j + 1;
            }
            proof {
                let flat = pre + col_runs_at(x, y, col.runs@);
                assert(cols_runs(self.columns@.take(i as int + 1)) == flat);
                assert forall|k: int| 0 <= k < out@.len() implies wide4(#[trigger] out@[k]) == flat[k] by {
                    if k < pre.len() {
                        assert(flat[k] == pre[k]);
                    } else {
                        assert(flat[k] == col_runs_at(x, y, col.runs@)[k - pre.len()]);
                        assert(wide4(out@[pre.len() + (k - pre.len())]) == col_runs_at(
                            x,
                            y,
                            col.runs@,
                        )[k - pre.len()]);
                    }
                }
            }
            i = i + 1;
        }
        proof {
            assert(self.columns@.take(self.columns@.len() as int) =~= self.columns@);
        }
        out
    }

}

impl Voxel for MonotonicVoxel {
    /// The run-length store merges only at insertion time against an
    /// adjacent run end and never re-coalesces: a fresh coordinate next to a
    /// stored run of its column keeps the run count, any other fresh
    /// coordinate starts a new run, and the count never shrinks.
    open spec fn add_frag(pre: Self, post: Self, c: VoxelIdx) -> bool {
        post.runs_view().len() == pre.runs_view().len() + (if has_adjacent_run(
            pre.runs_view(),
            c@,
        ) {
            0int
        } else {
            1int
        })
    }

    #[verifier::rlimit(100)]
    fn add(&mut self, coord: VoxelIdx) -> (r: bool) {
        let x = coord.idx[0];
        let y = coord.idx[1];
        let z = coord.idx[2];
        let key = column_key(x, y);
        let found: Option<usize> = match self.index.get(&key) {
            Some(i) => Some(*i),
            None => None,
        };
        match found {
            None => {
                proof {
                    lemma_no_column_not_occupied(*old(self), coord);
                    lemma_no_column_no_adjacent(*old(self), coord);
                }
                let mut runs: Vec<Run> = Vec::new();
                runs.push(Run { start: z, end: z + 1 });
                let col = Column { x, y, runs };
                let ghost gcol = col;
                let ci = self.columns.len();
                self.columns.push(col);
                self.index.insert(key, ci);
                self.bb.add(coord);
                proof {
                    assert(gcol.runs@ =~= seq![Run { start: z, end: (z + 1) as i32 }]);
                    lemma_add_new_column(*old(self), *self, coord, gcol, ci);
                    assert(Self::add_frag(*old(self), *self, coord));
                }
                true
            },
            Some(ci) => {
                proof {
                    assert(self.index@.dom().contains(key));
                    assert(self.index@[key] == ci);
                    lemma_key_injective(
                        self.columns@[ci as int].x,
                        self.columns@[ci as int].y,
                        x,
                        y,
                    );
                }
                let n = self.columns[ci].runs.len();

                // first pass: an already-covering run means no mutation
                let mut j: usize = 0;
                while j < n
                    invariant
                        *self == *old(self),
                        self.inv(),
                        ci < self.columns@.len(),
                        self.columns@[ci as int].x == x,
                        self.columns@[ci as int].y == y,
                        coord@ == (x as int, y as int, z as int),
                        n == self.columns@[ci as int].runs@.len(),
                        j <= n,
                        forall|k: int|
                            0 <= k < j ==> !run_covers(
                                #[trigger] self.columns@[ci as int].runs@[k],
                                z as int,
                            ),
                    decreases n - j,
                {
                    let r = self.columns[ci].runs[j];
                    if r.start <= z && z < r.end {
                        proof {
                            lemma_covered_occupied(*self, ci as int, j as int, coord);
                            assert(old(self).occ().insert(coord@) =~= old(self).occ());
                        }
                        return false;
                    }
                    j = j + 1;
                }
                proof {
                    lemma_free_not_occupied(*self, ci as int, coord);
                }

                // second pass: extend an adjacent run if one exists
                let mut j: usize = 0;
                while j < n
                    invariant
                        *self == *old(self),
                        self.inv(),
                        ci < self.columns@.len(),
                        self.columns@[ci as int].x == x,
                        self.columns@[ci as int].y == y,
                        coord@ == (x as int, y as int, z as int),
                        coord_ok(coord@),
                        old(self).nblocks() < usize::MAX,
                        n == self.columns@[ci as int].runs@.len(),
                        j <= n,
                        !old(self).occ().contains(coord@),
                        forall|k: int|
                            0 <= k < n ==> !run_covers(
                                #[trigger] self.columns@[ci as int].runs@[k],
                                z as int,
                            ),
                        forall|k: int|
                            0 <= k < j ==> ((#[trigger] self.columns@[ci as int].runs@[k]).start
                                as int != z as int + 1 && self.columns@[ci as int].runs@[k].end
                                as int != z as int),
                    decreases n - j,
                {
                    let rj = self.columns[ci].runs[j];
                    if rj.start == z + 1 {
                        proof {
                            lemma_adjacent_run_witness(
                                old(self).columns@,
                                ci as int,
                                j as int,
                                coord@,
                            );
                        }
                        self.columns[ci].runs[j] = Run { start: z, end: rj.end };
                        self.bb.add(coord);
                        proof {
                            lemma_add_extended(
                                *old(self),
                                *self,
                                ci as int,
                                j as int,
                                coord,
                                rj,
                                Run { start: z, end: rj.end },
                            );
                            assert(Self::add_frag(*old(self), *self, coord));
                        }
                        return true;
                    }
                    if rj.end == z {
                        proof {
                            lemma_adjacent_run_witness(
                                old(self).columns@,
                                ci as int,
                                j as int,
                                coord@,
                            );
                        }
                        self.columns[ci].runs[j] = Run { start: rj.start, end: (z + 1) as i32 };
                        self.bb.add(coord);
                        proof {
                            lemma_add_extended(
                                *old(self),
                                *self,
                                ci as int,
                                j as int,
                                coord,
                                rj,
                                Run { start: rj.start, end: (z + 1) as i32 },
                            );
                            assert(Self::add_frag(*old(self), *self, coord));
                        }
                        return true;
                    }
                    j = j + 1;
                }

                // third pass: insert a fresh singleton run, keeping the sort
                proof {
                    assert(col_wf(self.columns@[ci as int]));
                    lemma_no_adjacent_run(*self, ci as int, coord@);
                }
                let p = upper_bound(&self.columns[ci].runs, z);
                self.columns[ci].runs.insert(p, Run { start: z, end: z + 1 });
                self.bb.add(coord);
                proof {
                    lemma_add_inserted(*old(self), *self, ci as int, p as int, coord);
                    assert(Self::add_frag(*old(self), *self, coord));
                }
                true
            },
        }
    }

    fn bounding_box(&self) -> (r: &BoundingBox) {
        &self.bb
    }

    fn to_model(&self) -> (m: Model) {
        build_mesh(self)
    }
}

/// A coordinate covered by run `j` of its own column is occupied.
proof fn lemma_covered_occupied(s: MonotonicVoxel, ci: int, j: int, coord: VoxelIdx)
    requires
        s.inv(),
        0 <= ci < s.columns@.len(),
        s.columns@[ci].x as int == coord@.0,
        s.columns@[ci].y as int == coord@.1,
        0 <= j < s.columns@[ci].runs@.len(),
        run_covers(s.columns@[ci].runs@[j], coord@.2),
    ensures
        s.occ().contains(coord@),
{
    let cols = s.columns@;
    lemma_cols_runs_split(cols, ci);
    lemma_runs_pts_concat(
        cols_runs(cols.take(ci)) + col_runs(cols[ci]),
        cols_runs(cols.skip(ci + 1)),
    );
    lemma_runs_pts_concat(cols_runs(cols.take(ci)), col_runs(cols[ci]));
    lemma_col_pts(cols[ci].x as int, cols[ci].y as int, cols[ci].runs@);
    assert(runs_pts(col_runs(cols[ci])).contains(coord@));
}

/// A coordinate of a stored column none of whose runs covers it is free.
proof fn lemma_free_not_occupied(s: MonotonicVoxel, ci: int, coord: VoxelIdx)
    requires
        s.inv(),
        0 <= ci < s.columns@.len(),
        s.columns@[ci].x as int == coord@.0,
        s.columns@[ci].y as int == coord@.1,
        forall|k: int|
            0 <= k < s.columns@[ci].runs@.len() ==> !run_covers(
                #[trigger] s.columns@[ci].runs@[k],
                coord@.2,
            ),
    ensures
        !s.occ().contains(coord@),
{
    if s.occ().contains(coord@) {
        lemma_cols_pts(s.columns@);
        let i = choose|i: int|
            0 <= i < s.columns@.len() && (#[trigger] s.columns@[i]).x as int == coord@.0
                && s.columns@[i].y as int == coord@.1 && runs_pts(
                col_runs(s.columns@[i]),
            ).contains(coord@);
        assert(s.columns@[i].x == s.columns@[ci].x && s.columns@[i].y == s.columns@[ci].y);
        assert(s.index@[spec_key(s.columns@[i].x, s.columns@[i].y)] == i);
        assert(s.index@[spec_key(s.columns@[ci].x, s.columns@[ci].y)] == ci);
        assert(i == ci);
        lemma_col_pts(s.columns@[ci].x as int, s.columns@[ci].y as int, s.columns@[ci].runs@);
        assert(false);
    }
}

/// A coordinate whose column key is absent from the index is free.
proof fn lemma_no_column_not_occupied(s: MonotonicVoxel, coord: VoxelIdx)
    requires
        s.inv(),
        !s.index@.dom().contains(spec_key(coord.idx[0], coord.idx[1])),
    ensures
        !s.occ().contains(coord@),
{
    if s.occ().contains(coord@) {
        lemma_cols_pts(s.columns@);
        let i = choose|i: int|
            0 <= i < s.columns@.len() && (#[trigger] s.columns@[i]).x as int == coord@.0
                && s.columns@[i].y as int == coord@.1 && runs_pts(
                col_runs(s.columns@[i]),
            ).contains(coord@);
        assert(s.columns@[i].x == coord.idx[0] && s.columns@[i].y == coord.idx[1]);
        assert(s.index@.dom().contains(spec_key(coord.idx[0], coord.idx[1])));
        assert(false);
    }
}

/// A brand-new singleton column for `coord` was appended and indexed, and the
/// box widened once: the invariant holds again and the store gained exactly
/// one voxel.
#[verifier::rlimit(100)]
proof fn lemma_add_new_column(
    pre: MonotonicVoxel,
    post: MonotonicVoxel,
    coord: VoxelIdx,
    gcol: Column,
    ci: usize,
)
    requires
        pre.inv(),
        coord_ok(coord@),
        pre.nblocks() < usize::MAX,
        !pre.occ().contains(coord@),
        !pre.index@.dom().contains(spec_key(gcol.x, gcol.y)),
        gcol.x as int == coord@.0,
        gcol.y as int == coord@.1,
        gcol.runs@.len() == 1,
        gcol.runs@[0].start as int == coord@.2,
        gcol.runs@[0].end as int == coord@.2 + 1,
        ci as int == pre.columns@.len(),
        post.columns@ == pre.columns@.push(gcol),
        post.index@ == pre.index@.insert(spec_key(gcol.x, gcol.y), ci),
        post.bb.count == pre.bb.count + 1,
        pre.bb.count == 0 ==> post.bb.bound_min == coord && post.bb.bound_max == coord,
        pre.bb.count != 0 ==> post.bb.bound_min@ == (
            vstd::math::min(pre.bb.bound_min@.0, coord@.0),
            vstd::math::min(pre.bb.bound_min@.1, coord@.1),
            vstd::math::min(pre.bb.bound_min@.2, coord@.2),
        ),
        pre.bb.count != 0 ==> post.bb.bound_max@ == (
            vstd::math::max(pre.bb.bound_max@.0, coord@.0),
            vstd::math::max(pre.bb.bound_max@.1, coord@.1),
            vstd::math::max(pre.bb.bound_max@.2, coord@.2),
        ),
    ensures
        post.inv(),
        post.occ() == pre.occ().insert(coord@),
        post.nblocks() == pre.nblocks() + 1,
        cols_runs(post.columns@).len() == cols_runs(pre.columns@).len() + 1,
{
    let cols0 = pre.columns@;
    let cols1 = post.columns@;
    let tup = (gcol.x as int, gcol.y as int, coord@.2, coord@.2 + 1);
    assert(cols1 =~= cols0 + seq![gcol]);
    lemma_cols_runs_cat(cols0, seq![gcol]);
    lemma_cols_runs_one(gcol);
    assert(gcol.runs@ =~= seq![gcol.runs@[0]]);
    lemma_col_runs_at_one(gcol.x as int, gcol.y as int, gcol.runs@[0]);
    assert(col_runs(gcol) == seq![tup]);
    lemma_runs_one(tup);
    lemma_runs_pts_concat(cols_runs(cols0), seq![tup]);
    lemma_runs_total_concat(cols_runs(cols0), seq![tup]);
    assert(run_pts(tup) =~= Set::<(int, int, int)>::empty().insert(coord@));
    assert(post.occ() =~= pre.occ().insert(coord@));
    assert(post.nblocks() == pre.nblocks() + 1);
    assert forall|k: int| 0 <= k < gcol.runs@.len() implies ((#[trigger] gcol.runs@[k]).start
        < gcol.runs@[k].end && gcol.runs@[k].start >= -2147483646) by {
        assert(k == 0);
    }
    assert(col_wf(gcol));
    assert forall|i: int| 0 <= i < cols1.len() implies col_wf(#[trigger] cols1[i]) by {
        if i < cols0.len() {
            assert(cols1[i] == cols0[i]);
        } else {
            assert(cols1[i] == gcol);
        }
    }
    assert forall|i: int| 0 <= i < cols1.len() implies (post.index@.dom().contains(
        spec_key((#[trigger] cols1[i]).x, cols1[i].y),
    ) && post.index@[spec_key(cols1[i].x, cols1[i].y)] == i) by {
        if i < cols0.len() {
            assert(cols1[i] == cols0[i]);
            assert(pre.index@.dom().contains(spec_key(cols0[i].x, cols0[i].y)));
            assert(spec_key(cols0[i].x, cols0[i].y) != spec_key(gcol.x, gcol.y));
        } else {
            assert(cols1[i] == gcol);
        }
    }
    assert forall|k: u64| #[trigger] post.index@.dom().contains(k) implies (post.index@[k]
        < cols1.len() && spec_key(
        cols1[post.index@[k] as int].x,
        cols1[post.index@[k] as int].y,
    ) == k) by {
        if k != spec_key(gcol.x, gcol.y) {
            assert(pre.index@.dom().contains(k));
            let i = pre.index@[k] as int;
            assert(cols1[i] == cols0[i]);
        } else {
            assert(cols1[ci as int] == gcol);
        }
    }
    lemma_bb_add(pre.bb, post.bb, coord, pre.occ());
    assert(bb_tracks(post.bb, post.occ()));
}

/// The flattened coverage and total change exactly by one column's change.
#[verifier::rlimit(100)]
proof fn lemma_add_frame_delta(pre: MonotonicVoxel, post: MonotonicVoxel, ci: int, coord: VoxelIdx)
    requires
        0 <= ci < pre.columns@.len(),
        post.columns@.len() == pre.columns@.len(),
        forall|i: int|
            0 <= i < pre.columns@.len() && i != ci ==> post.columns@[i] == pre.columns@[i],
        runs_pts(col_runs(post.columns@[ci])) == runs_pts(col_runs(pre.columns@[ci])).insert(
            coord@,
        ),
        runs_total(col_runs(post.columns@[ci])) == runs_total(col_runs(pre.columns@[ci])) + 1,
    ensures
        post.occ() == pre.occ().insert(coord@),
        post.nblocks() == pre.nblocks() + 1,
        cols_runs(post.columns@).len() - cols_runs(pre.columns@).len() == col_runs(
            post.columns@[ci],
        ).len() - col_runs(pre.columns@[ci]).len(),
{
    let cols0 = pre.columns@;
    let cols1 = post.columns@;
    let c1 = cols1[ci];
    assert(cols1 =~= cols0.update(ci, c1));
    lemma_cols_runs_split(cols0, ci);
    lemma_cols_update_split(cols0, ci, c1);
    let a = cols_runs(cols0.take(ci));
    let cc = cols_runs(cols0.skip(ci + 1));
    let b0 = col_runs(cols0[ci]);
    let b1 = col_runs(c1);
    lemma_runs_pts_concat(a + b0, cc);
    lemma_runs_pts_concat(a, b0);
    lemma_runs_pts_concat(a + b1, cc);
    lemma_runs_pts_concat(a, b1);
    assert(post.occ() =~= pre.occ().insert(coord@));
    lemma_runs_total_concat(a + b0, cc);
    lemma_runs_total_concat(a, b0);
    lemma_runs_total_concat(a + b1, cc);
    lemma_runs_total_concat(a, b1);
}

/// The store invariant survives a change to one column that keeps its key
/// and its well-formedness, with the box widened once.
#[verifier::rlimit(100)]
proof fn lemma_add_frame_inv(pre: MonotonicVoxel, post: MonotonicVoxel, ci: int, coord: VoxelIdx)
    requires
        pre.inv(),
        pre.nblocks() < usize::MAX,
        0 <= ci < pre.columns@.len(),
        post.columns@.len() == pre.columns@.len(),
        forall|i: int|
            0 <= i < pre.columns@.len() && i != ci ==> post.columns@[i] == pre.columns@[i],
        post.columns@[ci].x == pre.columns@[ci].x,
        post.columns@[ci].y == pre.columns@[ci].y,
        col_wf(post.columns@[ci]),
        post.index@ == pre.index@,
        post.occ() == pre.occ().insert(coord@),
        post.nblocks() == pre.nblocks() + 1,
        post.bb.count == pre.bb.count + 1,
        pre.bb.count == 0 ==> post.bb.bound_min == coord && post.bb.bound_max == coord,
        pre.bb.count != 0 ==> post.bb.bound_min@ == (
            vstd::math::min(pre.bb.bound_min@.0, coord@.0),
            vstd::math::min(pre.bb.bound_min@.1, coord@.1),
            vstd::math::min(pre.bb.bound_min@.2, coord@.2),
        ),
        pre.bb.count != 0 ==> post.bb.bound_max@ == (
            vstd::math::max(pre.bb.bound_max@.0, coord@.0),
            vstd::math::max(pre.bb.bound_max@.1, coord@.1),
            vstd::math::max(pre.bb.bound_max@.2, coord@.2),
        ),
    ensures
        post.inv(),
{
    let cols0 = pre.columns@;
    let cols1 = post.columns@;
    assert forall|i: int| 0 <= i < cols1.len() implies col_wf(#[trigger] cols1[i]) by {
        if i != ci {
            assert(cols1[i] == cols0[i]);
        }
    }
    assert forall|i: int| 0 <= i < cols1.len() implies (post.index@.dom().contains(
        spec_key((#[trigger] cols1[i]).x, cols1[i].y),
    ) && post.index@[spec_key(cols1[i].x, cols1[i].y)] == i) by {
        if i != ci {
            assert(cols1[i] == cols0[i]);
        } else {
            assert(cols1[ci].x == cols0[ci].x && cols1[ci].y == cols0[ci].y);
        }
    }
    assert forall|k: u64| #[trigger] post.index@.dom().contains(k) implies (post.index@[k]
        < cols1.len() && spec_key(
        cols1[post.index@[k] as int].x,
        cols1[post.index@[k] as int].y,
    ) == k) by {
        let i = pre.index@[k] as int;
        if i != ci {
            assert(cols1[i] == cols0[i]);
        } else {
            assert(cols1[ci].x == cols0[ci].x && cols1[ci].y == cols0[ci].y);
        }
    }
    lemma_bb_add(pre.bb, post.bb, coord, pre.occ());
    assert(bb_tracks(post.bb, post.occ()));
}

/// Stretching run `j` keeps the column well-formed.
#[verifier::rlimit(100)]
proof fn lemma_col_extended_wf(c0: Column, c1: Column, j: int, z: int, r0: Run, r1: Run)
    requires
        col_wf(c0),
        -2147483646 <= z <= 2147483646,
        0 <= j < c0.runs@.len(),
        r0 == c0.runs@[j],
        forall|k: int| 0 <= k < c0.runs@.len() ==> !run_covers(#[trigger] c0.runs@[k], z),
        (r0.start as int == z + 1 && r1.start as int == z && r1.end == r0.end) || (r0.end as int
            == z && r1.start == r0.start && r1.end as int == z + 1),
        c1.x == c0.x,
        c1.y == c0.y,
        c1.runs@ == c0.runs@.update(j, r1),
    ensures
        col_wf(c1),
{
    let rs0 = c0.runs@;
    let rs1 = c1.runs@;
    assert forall|k: int| 0 <= k < rs1.len() implies ((#[trigger] rs1[k]).start < rs1[k].end
        && rs1[k].start >= -2147483646) by {
        if k != j {
            assert(rs1[k] == rs0[k]);
        }
    }
    assert forall|k: int| 0 <= k && k + 1 < rs1.len() implies (#[trigger] rs1[k]).end <= rs1[k
        + 1].start by {
        if k != j && k + 1 != j {
            assert(rs1[k] == rs0[k] && rs1[k + 1] == rs0[k + 1]);
        } else if k + 1 == j {
            assert(rs1[k] == rs0[k]);
            assert(rs0[k].end <= rs0[j].start);
            if r0.start as int == z + 1 {
                assert(!run_covers(rs0[k], z));
                if rs0[k].end as int == z + 1 {
                    assert(rs0[k].start < rs0[k].end);
                    assert(run_covers(rs0[k], z));
                }
                assert(rs0[k].end as int <= z);
            }
        } else {
            assert(rs1[k + 1] == rs0[k + 1]);
            assert(rs0[j].end <= rs0[k + 1].start);
            if r0.end as int == z {
                assert(!run_covers(rs0[k + 1], z));
                if rs0[k + 1].start as int == z {
                    assert(run_covers(rs0[k + 1], z));
                }
                assert(z + 1 <= rs0[k + 1].start as int);
            }
        }
    }
}

/// Stretching run `j` of a column by one voxel at height `z` adds exactly
/// that voxel to the column's coverage.
#[verifier::rlimit(100)]
proof fn lemma_col_extended_delta(c0: Column, c1: Column, j: int, z: int, r0: Run, r1: Run)
    requires
        0 <= j < c0.runs@.len(),
        r0 == c0.runs@[j],
        r0.start < r0.end,
        (r0.start as int == z + 1 && r1.start as int == z && r1.end == r0.end) || (r0.end as int
            == z && r1.start == r0.start && r1.end as int == z + 1),
        c1.x == c0.x,
        c1.y == c0.y,
        c1.runs@ == c0.runs@.update(j, r1),
    ensures
        runs_pts(col_runs(c1)) == runs_pts(col_runs(c0)).insert((c0.x as int, c0.y as int, z)),
        runs_total(col_runs(c1)) == runs_total(col_runs(c0)) + 1,
        col_runs(c1).len() == col_runs(c0).len(),
{
    let rs0 = c0.runs@;
    let rs1 = c1.runs@;
    let x = c0.x as int;
    let y = c0.y as int;
    lemma_col_runs_at_index(x, y, rs0);
    lemma_col_runs_at_index(x, y, rs1);
    lemma_col_runs_split(x, y, rs0, j);
    lemma_col_runs_split(x, y, rs1, j);
    assert(rs1.take(j) =~= rs0.take(j));
    assert(rs1.skip(j + 1) =~= rs0.skip(j + 1));
    assert(rs1[j] == r1);
    let t0 = (x, y, r0.start as int, r0.end as int);
    let t1 = (x, y, r1.start as int, r1.end as int);
    let p = col_runs_at(x, y, rs0.take(j));
    let s = col_runs_at(x, y, rs0.skip(j + 1));
    lemma_runs_pts_concat(p + seq![t0], s);
    lemma_runs_pts_concat(p, seq![t0]);
    lemma_runs_pts_concat(p + seq![t1], s);
    lemma_runs_pts_concat(p, seq![t1]);
    lemma_runs_one(t0);
    lemma_runs_one(t1);
    assert(run_pts(t1) =~= run_pts(t0).insert((x, y, z)));
    assert(runs_pts(col_runs(c1)) =~= runs_pts(col_runs(c0)).insert((x, y, z)));
    lemma_runs_total_concat(p + seq![t0], s);
    lemma_runs_total_concat(p, seq![t0]);
    lemma_runs_total_concat(p + seq![t1], s);
    lemma_runs_total_concat(p, seq![t1]);
}

/// Inserting a singleton run at the sort position keeps the column
/// well-formed.
#[verifier::rlimit(100)]
proof fn lemma_col_inserted_wf(c0: Column, c1: Column, p: int, z: int, rnew: Run)
    requires
        col_wf(c0),
        -2147483646 <= z <= 2147483646,
        forall|k: int| 0 <= k < c0.runs@.len() ==> !run_covers(#[trigger] c0.runs@[k], z),
        0 <= p <= c0.runs@.len(),
        forall|k: int| 0 <= k < p ==> (#[trigger] c0.runs@[k]).start as int <= z,
        forall|k: int| p <= k < c0.runs@.len() ==> z < (#[trigger] c0.runs@[k]).start as int,
        rnew.start as int == z,
        rnew.end as int == z + 1,
        c1.x == c0.x,
        c1.y == c0.y,
        c1.runs@ == c0.runs@.insert(p, rnew),
    ensures
        col_wf(c1),
{
    let rs0 = c0.runs@;
    let rs1 = c1.runs@;
    assert(rs1 =~= rs0.take(p) + seq![rnew] + rs0.skip(p));
    assert(rs1.len() == rs0.len() + 1);
    assert forall|k: int| 0 <= k < p implies rs1[k] == rs0[k] by {
        assert(rs1[k] == rs0.take(p)[k]);
    }
    assert(rs1[p] == rnew);
    assert forall|k: int| p < k < rs1.len() implies rs1[k] == rs0[k - 1] by {
        assert(rs1[k] == rs0.skip(p)[k - p - 1]);
    }
    assert forall|k: int| 0 <= k < rs1.len() implies ((#[trigger] rs1[k]).start < rs1[k].end
        && rs1[k].start >= -2147483646) by {
        if k < p {
            assert(rs1[k] == rs0[k]);
        } else if k > p {
            assert(rs1[k] == rs0[k - 1]);
        }
    }
    assert forall|k: int| 0 <= k && k + 1 < rs1.len() implies (#[trigger] rs1[k]).end <= rs1[k
        + 1].start by {
        if k + 1 < p {
            assert(rs1[k] == rs0[k] && rs1[k + 1] == rs0[k + 1]);
        } else if k + 1 == p {
            assert(rs1[k] == rs0[k]);
            assert(rs0[k].start as int <= z);
            assert(!run_covers(rs0[k], z));
            assert(rs0[k].end as int <= z);
        } else if k == p {
            assert(rs1[k + 1] == rs0[k]);
            assert(z < rs0[k].start as int);
        } else {
            assert(rs1[k] == rs0[k - 1] && rs1[k + 1] == rs0[k]);
        }
    }
}

/// A singleton run for height `z`, inserted anywhere, adds exactly that
/// voxel to the column's coverage.
#[verifier::rlimit(100)]
proof fn lemma_col_inserted_delta(c0: Column, c1: Column, p: int, z: int, rnew: Run)
    requires
        0 <= p <= c0.runs@.len(),
        rnew.start as int == z,
        rnew.end as int == z + 1,
        c1.x == c0.x,
        c1.y == c0.y,
        c1.runs@ == c0.runs@.insert(p, rnew),
    ensures
        runs_pts(col_runs(c1)) == runs_pts(col_runs(c0)).insert((c0.x as int, c0.y as int, z)),
        runs_total(col_runs(c1)) == runs_total(col_runs(c0)) + 1,
        col_runs(c1).len() == col_runs(c0).len() + 1,
{
    let rs0 = c0.runs@;
    let rs1 = c1.runs@;
    let x = c0.x as int;
    let y = c0.y as int;
    lemma_col_runs_at_index(x, y, rs0);
    lemma_col_runs_at_index(x, y, rs1);
    assert(rs1 =~= rs0.take(p) + seq![rnew] + rs0.skip(p));
    assert(rs0 =~= rs0.take(p) + rs0.skip(p));
    lemma_col_runs_at_cat(x, y, rs0.take(p) + seq![rnew], rs0.skip(p));
    lemma_col_runs_at_cat(x, y, rs0.take(p), seq![rnew]);
    lemma_col_runs_at_one(x, y, rnew);
    lemma_col_runs_at_cat(x, y, rs0.take(p), rs0.skip(p));
    let pp = col_runs_at(x, y, rs0.take(p));
    let ss = col_runs_at(x, y, rs0.skip(p));
    let tn = (x, y, rnew.start as int, rnew.end as int);
    assert(col_runs(c1) == pp + seq![tn] + ss);
    assert(col_runs(c0) == pp + ss);
    lemma_runs_pts_concat(pp + seq![tn], ss);
    lemma_runs_pts_concat(pp, seq![tn]);
    lemma_runs_pts_concat(pp, ss);
    lemma_runs_one(tn);
    assert(run_pts(tn) =~= Set::<(int, int, int)>::empty().insert((x, y, z)));
    assert(runs_pts(col_runs(c1)) =~= runs_pts(col_runs(c0)).insert((x, y, z)));
    lemma_runs_total_concat(pp + seq![tn], ss);
    lemma_runs_total_concat(pp, seq![tn]);
    lemma_runs_total_concat(pp, ss);
}

/// One run of column `ci` was stretched by one voxel to absorb `coord`.
#[verifier::rlimit(100)]
proof fn lemma_add_extended(
    pre: MonotonicVoxel,
    post: MonotonicVoxel,
    ci: int,
    j: int,
    coord: VoxelIdx,
    r0: Run,
    r1: Run,
)
    requires
        pre.inv(),
        coord_ok(coord@),
        pre.nblocks() < usize::MAX,
        !pre.occ().contains(coord@),
        0 <= ci < pre.columns@.len(),
        pre.columns@[ci].x as int == coord@.0,
        pre.columns@[ci].y as int == coord@.1,
        0 <= j < pre.columns@[ci].runs@.len(),
        r0 == pre.columns@[ci].runs@[j],
        forall|k: int|
            0 <= k < pre.columns@[ci].runs@.len() ==> !run_covers(
                #[trigger] pre.columns@[ci].runs@[k],
                coord@.2,
            ),
        (r0.start as int == coord@.2 + 1 && r1.start as int == coord@.2 && r1.end == r0.end) || (
        r0.end as int == coord@.2 && r1.start == r0.start && r1.end as int == coord@.2 + 1),
        post.columns@.len() == pre.columns@.len(),
        forall|i: int|
            0 <= i < pre.columns@.len() && i != ci ==> post.columns@[i] == pre.columns@[i],
        post.columns@[ci].x == pre.columns@[ci].x,
        post.columns@[ci].y == pre.columns@[ci].y,
        post.columns@[ci].runs@ == pre.columns@[ci].runs@.update(j, r1),
        post.index@ == pre.index@,
        post.bb.count == pre.bb.count + 1,
        pre.bb.count == 0 ==> post.bb.bound_min == coord && post.bb.bound_max == coord,
        pre.bb.count != 0 ==> post.bb.bound_min@ == (
            vstd::math::min(pre.bb.bound_min@.0, coord@.0),
            vstd::math::min(pre.bb.bound_min@.1, coord@.1),
            vstd::math::min(pre.bb.bound_min@.2, coord@.2),
        ),
        pre.bb.count != 0 ==> post.bb.bound_max@ == (
            vstd::math::max(pre.bb.bound_max@.0, coord@.0),
            vstd::math::max(pre.bb.bound_max@.1, coord@.1),
            vstd::math::max(pre.bb.bound_max@.2, coord@.2),
        ),
    ensures
        post.inv(),
        post.occ() == pre.occ().insert(coord@),
        post.nblocks() == pre.nblocks() + 1,
        cols_runs(post.columns@).len() == cols_runs(pre.columns@).len(),
{
    assert(col_wf(pre.columns@[ci]));
    lemma_col_extended_wf(pre.columns@[ci], post.columns@[ci], j, coord@.2, r0, r1);
    lemma_col_extended_delta(pre.columns@[ci], post.columns@[ci], j, coord@.2, r0, r1);
    assert((pre.columns@[ci].x as int, pre.columns@[ci].y as int, coord@.2) == coord@);
    lemma_add_frame_delta(pre, post, ci, coord);
    lemma_add_frame_inv(pre, post, ci, coord);
}

/// A fresh singleton run for `coord` was inserted into column `ci` at the
/// position that keeps the runs sorted.
#[verifier::rlimit(100)]
proof fn lemma_add_inserted(
    pre: MonotonicVoxel,
    post: MonotonicVoxel,
    ci: int,
    p: int,
    coord: VoxelIdx,
)
    requires
        pre.inv(),
        coord_ok(coord@),
        pre.nblocks() < usize::MAX,
        !pre.occ().contains(coord@),
        0 <= ci < pre.columns@.len(),
        pre.columns@[ci].x as int == coord@.0,
        pre.columns@[ci].y as int == coord@.1,
        forall|k: int|
            0 <= k < pre.columns@[ci].runs@.len() ==> !run_covers(
                #[trigger] pre.columns@[ci].runs@[k],
                coord@.2,
            ),
        0 <= p <= pre.columns@[ci].runs@.len(),
        forall|k: int|
            0 <= k < p ==> (#[trigger] pre.columns@[ci].runs@[k]).start as int <= coord@.2,
        forall|k: int|
            p <= k < pre.columns@[ci].runs@.len() ==> coord@.2 < (
            #[trigger] pre.columns@[ci].runs@[k]).start as int,
        post.columns@.len() == pre.columns@.len(),
        forall|i: int|
            0 <= i < pre.columns@.len() && i != ci ==> post.columns@[i] == pre.columns@[i],
        post.columns@[ci].x == pre.columns@[ci].x,
        post.columns@[ci].y == pre.columns@[ci].y,
        p < post.columns@[ci].runs@.len(),
        post.columns@[ci].runs@[p].start as int == coord@.2,
        post.columns@[ci].runs@[p].end as int == coord@.2 + 1,
        post.columns@[ci].runs@ == pre.columns@[ci].runs@.insert(p, post.columns@[ci].runs@[p]),
        post.index@ == pre.index@,
        post.bb.count == pre.bb.count + 1,
        pre.bb.count == 0 ==> post.bb.bound_min == coord && post.bb.bound_max == coord,
        pre.bb.count != 0 ==> post.bb.bound_min@ == (
            vstd::math::min(pre.bb.bound_min@.0, coord@.0),
            vstd::math::min(pre.bb.bound_min@.1, coord@.1),
            vstd::math::min(pre.bb.bound_min@.2, coord@.2),
        ),
        pre.bb.count != 0 ==> post.bb.bound_max@ == (
            vstd::math::max(pre.bb.bound_max@.0, coord@.0),
            vstd::math::max(pre.bb.bound_max@.1, coord@.1),
            vstd::math::max(pre.bb.bound_max@.2, coord@.2),
        ),
    ensures
        post.inv(),
        post.occ() == pre.occ().insert(coord@),
        post.nblocks() == pre.nblocks() + 1,
        cols_runs(post.columns@).len() == cols_runs(pre.columns@).len() + 1,
{
    assert(col_wf(pre.columns@[ci]));
    lemma_col_inserted_wf(
        pre.columns@[ci],
        post.columns@[ci],
        p,
        coord@.2,
        post.columns@[ci].runs@[p],
    );
    lemma_col_inserted_delta(
        pre.columns@[ci],
        post.columns@[ci],
        p,
        coord@.2,
        post.columns@[ci].runs@[p],
    );
    assert((pre.columns@[ci].x as int, pre.columns@[ci].y as int, coord@.2) == coord@);
    lemma_add_frame_delta(pre, post, ci, coord);
    lemma_add_frame_inv(pre, post, ci, coord);
}

} // verus!

