//! Choosing which shapes of a floor plan the canvas draws: levels are taken
//! from the lowest up, and within a level the shapes that carry
//! reinforcement data, in order, until the per-level or the overall limit is
//! reached.

use vstd::prelude::*;

verus! {

/// The positions of the entries that hold `true`, in order.
pub open spec fn row_positions(has_row: Seq<bool>) -> Seq<usize>
    decreases has_row.len(),
{
    if has_row.len() == 0 {
        Seq::empty()
    } else {
        let rest = row_positions(has_row.drop_last());
        if has_row.last() {
            rest.push((has_row.len() - 1) as usize)
        } else {
            rest
        }
    }
}

/// The first `cap` positions that hold `true` (all of them where there are
/// fewer).
pub open spec fn first_rows(has_row: Seq<bool>, cap: nat) -> Seq<usize> {
    let all = row_positions(has_row);
    if cap < all.len() {
        all.take(cap as int)
    } else {
        all
    }
}

/// The smaller of two numbers.
pub open spec fn min_nat(a: nat, b: nat) -> nat {
    if a < b {
        a
    } else {
        b
    }
}

/// The levels from `start` on that get shapes, each with the shapes it gets,
/// when `remaining` shapes may still be drawn overall and `per_level` on each
/// level.
pub open spec fn plan_from(levels: Seq<Seq<bool>>, start: int, per_level: nat, remaining: nat) -> Seq<
    (usize, Seq<usize>),
>
    decreases levels.len() - start,
{
    if start < 0 || start >= levels.len() {
        Seq::empty()
    } else {
        let picks = first_rows(levels[start], min_nat(per_level, remaining));
        let rest = plan_from(levels, start + 1, per_level, (remaining - picks.len()) as nat);
        if picks.len() > 0 {
            seq![(start as usize, picks)] + rest
        } else {
            rest
        }
    }
}

/// How many shapes a plan draws.
pub open spec fn plan_total(plan: Seq<(usize, Seq<usize>)>) -> nat
    decreases plan.len(),
{
    if plan.len() == 0 {
        0
    } else {
        plan[0].1.len() + plan_total(plan.drop_first())
    }
}

/// The shapes drawn on one level: the level's position among the levels and
/// the positions of its shapes.
pub struct LevelShapes {
    pub level: usize,
    pub shapes: Vec<usize>,
}

/// What the canvas draws.
pub struct CanvasPlan {
    pub levels: Vec<LevelShapes>,
    pub total_shapes: usize,
}

impl CanvasPlan {
    /// The plan as a sequence of (level, shapes) pairs.
    pub open spec fn spec_entries(&self) -> Seq<(usize, Seq<usize>)> {
        self.levels@.map_values(|l: LevelShapes| (l.level, l.shapes@))
    }

    /// How many levels get shapes.
    pub fn visible_levels(&self) -> (n: usize)
        ensures
            n == self.spec_entries().len(),
    {
        self.levels.len()
    }
}

/// Every position that `row_positions` gives holds `true`, and they increase.
pub proof fn lemma_row_positions(has_row: Seq<bool>)
    requires
        has_row.len() <= usize::MAX,
    ensures
        row_positions(has_row).len() <= has_row.len(),
        forall|i: int|
            0 <= i < row_positions(has_row).len() ==> {
                let p = #[trigger] row_positions(has_row)[i];
                &&& p < has_row.len()
                &&& has_row[p as int]
            },
        forall|i: int, j: int|
            0 <= i < j < row_positions(has_row).len() ==> row_positions(has_row)[i]
                < row_positions(has_row)[j],
    decreases has_row.len(),
{
    if has_row.len() > 0 {
        let init = has_row.drop_last();
        lemma_row_positions(init);
        let rest = row_positions(init);
        if has_row.last() {
            let p = (has_row.len() - 1) as usize;
            assert(row_positions(has_row) == rest.push(p));
            assert forall|i: int| 0 <= i < rest.push(p).len() implies {
                let q = #[trigger] rest.push(p)[i];
                &&& q < has_row.len()
                &&& has_row[q as int]
            } by {
                if i < rest.len() {
                    assert(rest.push(p)[i] == rest[i]);
                    assert(has_row[rest[i] as int] == init[rest[i] as int]);
                }
            }
        } else {
            assert forall|i: int| 0 <= i < rest.len() implies {
                let q = #[trigger] rest[i];
                &&& q < has_row.len()
                &&& has_row[q as int]
            } by {
                assert(has_row[rest[i] as int] == init[rest[i] as int]);
            }
        }
    }
}

/// The row positions of a prefix are a prefix of the row positions.
pub proof fn lemma_row_positions_prefix(has_row: Seq<bool>, e: int)
    requires
        0 <= e <= has_row.len(),
    ensures
        row_positions(has_row.take(e)).len() <= row_positions(has_row).len(),
        row_positions(has_row.take(e)) == row_positions(has_row).take(
            row_positions(has_row.take(e)).len() as int,
        ),
    decreases has_row.len(),
{
    if e == has_row.len() {
        assert(has_row.take(e) =~= has_row);
        assert(row_positions(has_row).take(row_positions(has_row).len() as int) =~= row_positions(
            has_row,
        ));
    } else {
        let init = has_row.drop_last();
        assert(has_row.take(e) =~= init.take(e));
        lemma_row_positions_prefix(init, e);
        let a = row_positions(init.take(e));
        let b = row_positions(init);
        if has_row.last() {
            assert(row_positions(has_row) == b.push((has_row.len() - 1) as usize));
            assert(b.push((has_row.len() - 1) as usize).take(a.len() as int) =~= b.take(
                a.len() as int,
            ));
        }
    }
}

/// With nothing left to draw, no level gets shapes.
pub proof fn lemma_plan_nothing_left(levels: Seq<Seq<bool>>, start: int, per_level: nat)
    ensures
        plan_from(levels, start, per_level, 0) == Seq::<(usize, Seq<usize>)>::empty(),
    decreases levels.len() - start,
{
    if 0 <= start < levels.len() {
        lemma_plan_nothing_left(levels, start + 1, per_level);
    }
}

/// The shapes of one level: the first `cap` positions whose entry is `true`.
fn level_shapes(has_row: &Vec<bool>, cap: usize) -> (shapes: Vec<usize>)
    ensures
        shapes@ == first_rows(has_row@, cap as nat),
{
    let mut shapes: Vec<usize> = Vec::new();
    let mut e: usize = 0;
    while e < has_row.len() && shapes.len() < cap
        invariant
            0 <= e <= has_row.len(),
            shapes@ == row_positions(has_row@.take(e as int)),
            shapes.len() <= cap,
        decreases has_row.len() - e,
    {
        assert(has_row@.take(e + 1).drop_last() =~= has_row@.take(e as int));
        if has_row[e] {
            shapes.push(e);
        }
        e += 1;
    }
    proof {
        lemma_row_positions_prefix(has_row@, e as int);
        if e == has_row.len() {
            assert(has_row@.take(e as int) =~= has_row@);
        }
    }
    shapes
}

/// Chooses the shapes to draw. `levels` holds, for each level in drawing
/// order, whether each of its shapes carries reinforcement data; only those
/// are drawn, at most `max_shapes_per_level` on a level and
/// `max_total_shapes` in all. Levels that get no shape are left out.
pub fn plan_canvas(levels: &Vec<Vec<bool>>, max_shapes_per_level: usize, max_total_shapes: usize) -> (r:
    CanvasPlan)
    ensures
        r.spec_entries() == plan_from(
            levels@.map_values(|l: Vec<bool>| l@),
            0,
            max_shapes_per_level as nat,
            max_total_shapes as nat,
        ),
        r.total_shapes == plan_total(r.spec_entries()),
        r.total_shapes <= max_total_shapes,
{
    let ghost views = levels@.map_values(|l: Vec<bool>| l@);
    let ghost full = plan_from(views, 0, max_shapes_per_level as nat, max_total_shapes as nat);
    let mut chosen: Vec<LevelShapes> = Vec::new();
    let mut total: usize = 0;
    let mut l: usize = 0;
    while l < levels.len()
        invariant
            0 <= l <= levels.len(),
            views == levels@.map_values(|v: Vec<bool>| v@),
            full == plan_from(views, 0, max_shapes_per_level as nat, max_total_shapes as nat),
            total <= max_total_shapes,
            chosen@.map_values(|v: LevelShapes| (v.level, v.shapes@)) + plan_from(
                views,
                l as int,
                max_shapes_per_level as nat,
                (max_total_shapes - total) as nat,
            ) == full,
            total == plan_total(chosen@.map_values(|v: LevelShapes| (v.level, v.shapes@))),
        ensures
            l == levels.len() || plan_from(
                views,
                l as int,
                max_shapes_per_level as nat,
                (max_total_shapes - total) as nat,
            ) == Seq::<(usize, Seq<usize>)>::empty(),
        decreases levels.len() - l,
    {
        if total >= max_total_shapes {
            proof {
                lemma_plan_nothing_left(views, l as int, max_shapes_per_level as nat);
            }
            break;
        }
        let remaining = max_total_shapes - total;
        let cap = if max_shapes_per_level < remaining {
            max_shapes_per_level
        } else {
            remaining
        };
        let shapes = level_shapes(&levels[l], cap);
        let ghost before = chosen@.map_values(|v: LevelShapes| (v.level, v.shapes@));
        let ghost picks = shapes@;
        assert(views[l as int] == levels@[l as int]@);
        let count = shapes.len();
        if count > 0 {
            chosen.push(LevelShapes { level: l, shapes });
            proof {
                let after = chosen@.map_values(|v: LevelShapes| (v.level, v.shapes@));
                assert(after == before.push((l, picks)));
                lemma_plan_total_push(before, (l, picks));
            }
        }
        total = total + count;
        l += 1;
    }
    proof {
        let entries = chosen@.map_values(|v: LevelShapes| (v.level, v.shapes@));
        if l == levels.len() {
            assert(plan_from(
                views,
                l as int,
                max_shapes_per_level as nat,
                (max_total_shapes - total) as nat,
            ) == Seq::<(usize, Seq<usize>)>::empty());
        }
        assert(entries + Seq::<(usize, Seq<usize>)>::empty() =~= entries);
    }
    CanvasPlan { levels: chosen, total_shapes: total }
}

/// Adding an entry to a plan adds its shapes to the total.
pub proof fn lemma_plan_total_push(plan: Seq<(usize, Seq<usize>)>, entry: (usize, Seq<usize>))
    ensures
        plan_total(plan.push(entry)) == plan_total(plan) + entry.1.len(),
    decreases plan.len(),
{
    if plan.len() == 0 {
        assert(plan.push(entry).drop_first() =~= Seq::<(usize, Seq<usize>)>::empty());
        assert(plan.push(entry)[0] == entry);
        assert(plan_total(Seq::<(usize, Seq<usize>)>::empty()) == 0);
    } else {
        assert(plan.push(entry).drop_first() =~= plan.drop_first().push(entry));
        assert(plan.push(entry)[0] == plan[0]);
        lemma_plan_total_push(plan.drop_first(), entry);
    }
}

/// A canvas plan keeps its limits: it draws at most `remaining` shapes in all
/// and at most `per_level` on a level, gives each level it lists at least
/// one shape, lists levels in increasing order, and draws only shapes that
/// carry reinforcement data.
pub proof fn law_plan_respects_limits(
    levels: Seq<Seq<bool>>,
    start: int,
    per_level: nat,
    remaining: nat,
)
    requires
        0 <= start,
        levels.len() <= usize::MAX,
        forall|i: int| 0 <= i < levels.len() ==> #[trigger] levels[i].len() <= usize::MAX,
    ensures
        plan_total(plan_from(levels, start, per_level, remaining)) <= remaining,
        forall|i: int|
            0 <= i < plan_from(levels, start, per_level, remaining).len() ==> {
                let (level, shapes) = #[trigger] plan_from(levels, start, per_level, remaining)[i];
                &&& 0 < shapes.len() <= per_level
                &&& start <= level < levels.len()
                &&& forall|k: int|
                    0 <= k < shapes.len() ==> #[trigger] shapes[k] < levels[level as int].len()
                        && levels[level as int][shapes[k] as int]
            },
        forall|i: int, j: int|
            0 <= i < j < plan_from(levels, start, per_level, remaining).len() ==> (
            #[trigger] plan_from(levels, start, per_level, remaining)[i]).0 < (
            #[trigger] plan_from(levels, start, per_level, remaining)[j]).0,
    decreases levels.len() - start,
{
    let plan = plan_from(levels, start, per_level, remaining);
    if start < levels.len() {
        let level = levels[start];
        let picks = first_rows(level, min_nat(per_level, remaining));
        let left = (remaining - picks.len()) as nat;
        let rest = plan_from(levels, start + 1, per_level, left);
        law_plan_respects_limits(levels, start + 1, per_level, left);
        lemma_row_positions(level);
        let all = row_positions(level);
        assert forall|k: int| 0 <= k < picks.len() implies #[trigger] picks[k] < level.len()
            && level[picks[k] as int] by {
            assert(picks[k] == all[k]);
        }
        if picks.len() > 0 {
            let head = (start as usize, picks);
            assert(plan == seq![head] + rest);
            assert(plan[0] == head);
            assert(plan.drop_first() =~= rest);
            assert(plan_total(plan) == picks.len() + plan_total(rest));
            assert forall|i: int| 0 <= i < plan.len() implies {
                let (lv, shapes) = #[trigger] plan[i];
                &&& 0 < shapes.len() <= per_level
                &&& start <= lv < levels.len()
                &&& forall|k: int|
                    0 <= k < shapes.len() ==> #[trigger] shapes[k] < levels[lv as int].len()
                        && levels[lv as int][shapes[k] as int]
            } by {
                if i > 0 {
                    assert(plan[i] == rest[i - 1]);
                }
            }
            assert forall|i: int, j: int| 0 <= i < j < plan.len() implies (#[trigger] plan[i]).0 < (
            #[trigger] plan[j]).0 by {
                assert(plan[j] == rest[j - 1]);
                if i > 0 {
                    assert(plan[i] == rest[i - 1]);
                }
            }
        }
    }
}

} // verus!
