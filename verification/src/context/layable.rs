use vstd::prelude::*;

use super::layout::{
    arrange, arrange_kids, best, best_kids, chain, chain_from, laid_out_with, lemma_arrange_geometry,
    lemma_arrange_kids_geometry, lemma_best_geometry, lemma_best_kids_geometry, lemma_chain_geometry,
    lemma_geometry_forest, lemma_geometry_trans, lemma_geometry_update, lemma_grow_same_visited,
    lemma_place_geometry, lemma_place_kids_geometry, lemma_position_geometry, lemma_unplaced_le,
    lemma_unplaced_mark, lemma_unplaced_mono, place, place_kids, placed_bit, position, same_but_geometry,
    size_fold, unplaced, CHAIN_STEPS,
};
use super::{forest_ok, item_ok, kid_ok, ref_ok, Context, ContextModel, EventHandler, Item, ItemImp};
use crate::flags::{LEFT, RIGHT};
use crate::geom::Rect;
use crate::geom::spec_max;

verus! {

/// Every neighbour an item anchors to is an item, every walk along anchoring
/// neighbours ends within the steps a chain walk may take, and no item requests
/// an extent of 2^31 or more (which would read as negative).
pub open spec fn layable<H>(its: Seq<ItemImp<H>>) -> bool {
    &&& forall|i: int, k: int|
        0 <= i < its.len() && 0 <= k < 4 && (#[trigger] its[i].relto[k]).is_valid() ==> 0
            <= its[i].relto[k].id() < its.len()
    &&& forall|i: int, d: usize, far: bool|
        0 <= i < its.len() && d < 2 ==> (#[trigger] chain_from(its, i, d, far, CHAIN_STEPS as nat)) is Some
    &&& forall|i: int| 0 <= i < its.len() ==> (#[trigger] its[i].size).x >= 0 && its[i].size.y >= 0
}

/// A walk along anchoring neighbours goes the same way after a change of
/// geometry.
pub proof fn lemma_chain_from_same<H>(
    a: Seq<ItemImp<H>>,
    b: Seq<ItemImp<H>>,
    cur: int,
    dim: usize,
    far: bool,
    budget: nat,
)
    requires
        same_but_geometry(a, b),
        forall|i: int, k: int|
            0 <= i < a.len() && 0 <= k < 4 && (#[trigger] a[i].relto[k]).is_valid() ==> 0
                <= a[i].relto[k].id() < a.len(),
        0 <= cur < a.len(),
        dim < 2,
    ensures
        chain_from(a, cur, dim, far, budget) == chain_from(b, cur, dim, far, budget),
    decreases budget,
{
    assert(b[cur] == (ItemImp {
        rect: b[cur].rect,
        computed_size: b[cur].computed_size,
        visited: b[cur].visited,
        ..a[cur]
    }));
    let k = if far {
        dim + 2
    } else {
        dim as int
    };
    let nxt = a[cur].relto[k];
    if nxt.is_valid() && budget > 0 {
        lemma_chain_from_same(a, b, nxt.id(), dim, far, (budget - 1) as nat);
    }
}

/// Changing only geometry keeps items layable.
pub proof fn lemma_layable_geometry<H>(its1: Seq<ItemImp<H>>, its2: Seq<ItemImp<H>>)
    requires
        layable(its1),
        same_but_geometry(its1, its2),
    ensures
        layable(its2),
{
    assert forall|i: int, k: int|
        0 <= i < its2.len() && 0 <= k < 4 && (#[trigger] its2[i].relto[k]).is_valid() implies 0
        <= its2[i].relto[k].id() < its2.len() by {
        assert(its2[i] == (ItemImp {
            rect: its2[i].rect,
            computed_size: its2[i].computed_size,
            visited: its2[i].visited,
            ..its1[i]
        }));
        assert(its1[i].relto[k].is_valid());
    }
    assert forall|i: int, d: usize, far: bool| 0 <= i < its2.len() && d < 2 implies (#[trigger] chain_from(
        its2,
        i,
        d,
        far,
        CHAIN_STEPS as nat,
    )) is Some by {
        lemma_chain_from_same(its1, its2, i, d, far, CHAIN_STEPS as nat);
        assert(chain_from(its1, i, d, far, CHAIN_STEPS as nat) is Some);
    }
    assert forall|i: int| 0 <= i < its2.len() implies (#[trigger] its2[i].size).x >= 0 && its2[i].size.y
        >= 0 by {
        assert(its2[i] == (ItemImp {
            rect: its2[i].rect,
            computed_size: its2[i].computed_size,
            visited: its2[i].visited,
            ..its1[i]
        }));
        assert(its1[i].size.x >= 0);
    }
}

/// The chain of an item of layable items is found.
pub proof fn lemma_chain_some<H>(its: Seq<ItemImp<H>>, item: int, dim: usize)
    requires
        layable(its),
        0 <= item < its.len(),
        dim < 2,
    ensures
        chain(its, item, dim) is Some,
{
    assert(chain_from(its, item, dim, false, CHAIN_STEPS as nat) is Some);
    assert(chain_from(its, item, dim, true, CHAIN_STEPS as nat) is Some);
}

/// The chains of the kids `ks[k..]` are all found.
pub proof fn lemma_size_fold_some<H>(
    its: Seq<ItemImp<H>>,
    ks: Seq<int>,
    k: int,
    dim: usize,
    need: i32,
    hard: i32,
)
    requires
        layable(its),
        dim < 2,
        forall|j: int| 0 <= j < ks.len() ==> 0 <= #[trigger] ks[j] < its.len(),
    ensures
        size_fold(its, ks, k, dim, need, hard) is Some,
    decreases ks.len() - k,
{
    if 0 <= k < ks.len() {
        if its[ks[k]].visited & (1u32 << dim) == 0 {
            lemma_chain_some(its, ks[k], dim);
            let c = chain(its, ks[k], dim).unwrap();
            lemma_chain_geometry(its, ks[k], dim);
            lemma_layable_geometry(its, c.0);
            lemma_size_fold_some(c.0, ks, k + 1, dim, spec_max(need, c.1), spec_max(hard, c.2));
        } else {
            lemma_size_fold_some(its, ks, k + 1, dim, need, hard);
        }
    }
}

/// The kids of item `p` of a forest are items.
pub proof fn lemma_kids_in_range<H>(
    its: Seq<ItemImp<H>>,
    kids: Seq<Seq<int>>,
    depth: Seq<nat>,
    used: usize,
    p: int,
)
    requires
        forest_ok(its, kids, depth, used),
        0 <= p < its.len(),
    ensures
        forall|j: int| 0 <= j < kids[p].len() ==> 0 <= #[trigger] kids[p][j] < its.len(),
        forall|j: int|
            0 <= j < kids[p].len() ==> depth[#[trigger] kids[p][j]] == depth[p] + 1,
{
    assert forall|j: int| 0 <= j < kids[p].len() implies 0 <= #[trigger] kids[p][j] < its.len()
        && depth[kids[p][j]] == depth[p] + 1 by {
        assert(item_ok(its, kids, depth, used, p));
        assert(kid_ok(its, kids, p, j));
        assert(item_ok(its, kids, depth, used, kids[p][j]));
    }
}

/// The size pass below `item` with fuel for the depth left completes.
pub proof fn lemma_best_some<H>(
    its: Seq<ItemImp<H>>,
    kids: Seq<Seq<int>>,
    depth: Seq<nat>,
    used: usize,
    item: int,
    dim: usize,
    fuel: nat,
)
    requires
        forest_ok(its, kids, depth, used),
        layable(its),
        0 <= item < its.len(),
        dim < 2,
        fuel >= its.len() - depth[item],
    ensures
        best(its, kids, item, dim, fuel) is Some,
    decreases fuel, 0int, 0int,
{
    super::tree::lemma_depth_bound(its, kids, depth, used, item);
    let its1 = its.update(item, ItemImp { visited: 0, ..its[item] });
    lemma_geometry_update(its, item, ItemImp { visited: 0, ..its[item] });
    lemma_geometry_forest(its, its1, kids, depth, used);
    lemma_layable_geometry(its, its1);
    lemma_best_kids_some(its1, kids, depth, used, item, 0, dim, (fuel - 1) as nat);
    lemma_best_kids_geometry(its1, kids, depth, used, item, 0, dim, (fuel - 1) as nat);
    let its2 = best_kids(its1, kids, kids[item], 0, dim, (fuel - 1) as nat).unwrap();
    lemma_geometry_forest(its1, its2, kids, depth, used);
    lemma_layable_geometry(its1, its2);
    lemma_kids_in_range(its2, kids, depth, used, item);
    lemma_size_fold_some(its2, kids[item], 0, dim, 0, 0);
}

/// The size pass below the kids `k..` of `p` with fuel for the depth left completes.
pub proof fn lemma_best_kids_some<H>(
    its: Seq<ItemImp<H>>,
    kids: Seq<Seq<int>>,
    depth: Seq<nat>,
    used: usize,
    p: int,
    k: int,
    dim: usize,
    fuel: nat,
)
    requires
        forest_ok(its, kids, depth, used),
        layable(its),
        0 <= p < its.len(),
        dim < 2,
        fuel + 1 >= its.len() - depth[p],
    ensures
        best_kids(its, kids, kids[p], k, dim, fuel) is Some,
    decreases fuel, 1int, kids[p].len() - k,
{
    let ks = kids[p];
    if 0 <= k < ks.len() {
        lemma_kids_in_range(its, kids, depth, used, p);
        lemma_best_some(its, kids, depth, used, ks[k], dim, fuel);
        lemma_best_geometry(its, kids, depth, used, ks[k], dim, fuel);
        let its2 = best(its, kids, ks[k], dim, fuel).unwrap();
        lemma_geometry_forest(its, its2, kids, depth, used);
        lemma_layable_geometry(its, its2);
        lemma_best_kids_some(its2, kids, depth, used, p, k + 1, dim, fuel);
    }
}

/// Positioning completes when a stretchable item (one that requests no extent)
/// has been counted.
pub proof fn lemma_position_some<H>(
    its: Seq<ItemImp<H>>,
    parent: int,
    item: int,
    dim: usize,
    x: i32,
    s: i32,
    hasl: bool,
    dc: i32,
)
    requires
        0 <= item < its.len(),
        its[item].size.at(dim as int) >= 0,
        its[item].size.at(dim as int) == 0 ==> dc >= 1,
    ensures
        position(its, parent, item, dim, x, s, hasl, dc) is Some,
{
    if its[item].size.at(dim as int) == 0 {
        let pp = its[parent];
        let wdim = (dim + 2) as int;
        let width = pp.rect.at(wdim).wrapping_sub(pp.computed_size.at(dim as int));
        let x = width as int;
        let d = dc as int;
        assert(x > 0 ==> 0 <= x / d <= x) by (nonlinear_arith)
            requires
                d >= 1,
        ;
        assert(x < 0 ==> 0 <= (x * -1) / d <= x * -1) by (nonlinear_arith)
            requires
                d >= 1,
        ;
        assert(width.checked_div(dc) is Some);
    }
}

/// Items with the same visited flags have as many unplaced.
pub proof fn lemma_unplaced_same<H>(a: Seq<ItemImp<H>>, b: Seq<ItemImp<H>>, dim: usize)
    requires
        a.len() == b.len(),
        forall|j: int| 0 <= j < a.len() ==> #[trigger] b[j].visited == a[j].visited,
    ensures
        unplaced(a, dim, a.len() as int) == unplaced(b, dim, b.len() as int),
{
    lemma_grow_same_visited(a, b, dim);
    lemma_grow_same_visited(b, a, dim);
    lemma_unplaced_mono(a, b, dim, a.len() as int);
    lemma_unplaced_mono(b, a, dim, a.len() as int);
}

/// Placing an item completes with enough fuel and room to count stretchable
/// items; the count grows by at most the number of items it places.
#[verifier::rlimit(60)]
pub proof fn lemma_place_some<H>(
    its: Seq<ItemImp<H>>,
    kids: Seq<Seq<int>>,
    depth: Seq<nat>,
    used: usize,
    parent: int,
    item: int,
    dc: i32,
    dim: usize,
    fuel: nat,
)
    requires
        forest_ok(its, kids, depth, used),
        layable(its),
        0 <= parent < its.len(),
        0 <= item < its.len(),
        dim < 2,
        fuel >= unplaced(its, dim, its.len() as int),
        0 <= dc,
        dc + unplaced(its, dim, its.len() as int) < i32::MAX,
    ensures
        place(its, parent, item, dc, dim, fuel) is Some,
        place(its, parent, item, dc, dim, fuel) matches Some(q) ==> dc <= q.1 && q.1 + unplaced(
            q.0,
            dim,
            its.len() as int,
        ) <= dc + unplaced(its, dim, its.len() as int),
    decreases fuel,
{
    let n = its.len() as int;
    let it = its[item];
    if it.visited & placed_bit(dim) == 0 {
        lemma_unplaced_mark(its, item, dim, n);
        let wdim = dim + 2;
        let its1 = its.update(item, ItemImp { visited: it.visited | placed_bit(dim), ..it });
        lemma_geometry_update(its, item, ItemImp { visited: it.visited | placed_bit(dim), ..it });
        lemma_geometry_forest(its, its1, kids, depth, used);
        lemma_layable_geometry(its, its1);
        let dc1 = if it.size.at(dim as int) == 0 {
            dc.wrapping_add(1)
        } else {
            dc
        };
        let f1 = (fuel - 1) as nat;
        let flags = it.layout_flags >> dim;
        let l = it.relto[dim as int];
        let r = it.relto[wdim as int];
        let hasl = flags & LEFT != 0 && l.is_valid();
        let hasr = flags & RIGHT != 0 && r.is_valid();
        assert(hasl ==> 0 <= l.id() < n);
        assert(hasr ==> 0 <= r.id() < n);
        let mut its2 = its1;
        let mut dc2 = dc1;
        if hasl {
            lemma_place_some(its1, kids, depth, used, parent, l.id(), dc1, dim, f1);
            lemma_place_geometry(its1, kids, depth, used, parent, l.id(), dc1, dim, f1);
            let q = place(its1, parent, l.id(), dc1, dim, f1).unwrap();
            its2 = q.0;
            dc2 = q.1;
            lemma_geometry_trans(its, its1, its2);
            lemma_geometry_forest(its, its2, kids, depth, used);
            lemma_layable_geometry(its, its2);
        }
        assert(dc1 <= dc2 && dc2 + unplaced(its2, dim, n) <= dc1 + unplaced(its1, dim, n));
        assert(same_but_geometry(its, its2));
        let mut its3 = its2;
        let mut dc3 = dc2;
        if hasr {
            lemma_place_some(its2, kids, depth, used, parent, r.id(), dc2, dim, f1);
            lemma_place_geometry(its2, kids, depth, used, parent, r.id(), dc2, dim, f1);
            let q = place(its2, parent, r.id(), dc2, dim, f1).unwrap();
            its3 = q.0;
            dc3 = q.1;
            lemma_geometry_trans(its, its2, its3);
        }
        assert(dc2 <= dc3 && dc3 + unplaced(its3, dim, n) <= dc2 + unplaced(its2, dim, n));
        assert(same_but_geometry(its, its3));
        assert(its3[item].size == it.size);
        let x = if hasl {
            super::layout::near_edge(its2[l.id()], dim)
        } else {
            0i32
        };
        let s0 = its1[parent].rect.at(wdim as int);
        let s1 = if hasl {
            s0.wrapping_sub(x)
        } else {
            s0
        };
        let sr = if hasr {
            super::layout::far_space(its3[r.id()], dim, x)
        } else {
            s1
        };
        lemma_position_some(its3, parent, item, dim, x, sr, hasl, dc3);
        lemma_position_geometry(its3, parent, item, dim, x, sr, hasl, dc3);
        let its4 = position(its3, parent, item, dim, x, sr, hasl, dc3).unwrap();
        assert(place(its, parent, item, dc, dim, fuel) == Some((its4, dc3)));
        lemma_unplaced_same(its3, its4, dim);
    }
}

/// Placing the kids `k..` of `p` completes.
pub proof fn lemma_place_kids_some<H>(
    its: Seq<ItemImp<H>>,
    kids: Seq<Seq<int>>,
    depth: Seq<nat>,
    used: usize,
    p: int,
    k: int,
    dim: usize,
)
    requires
        forest_ok(its, kids, depth, used),
        layable(its),
        its.len() < i32::MAX,
        0 <= p < its.len(),
        dim < 2,
    ensures
        place_kids(its, kids[p], k, p, dim) is Some,
    decreases kids[p].len() - k,
{
    let ks = kids[p];
    if 0 <= k < ks.len() {
        lemma_kids_in_range(its, kids, depth, used, p);
        lemma_unplaced_le(its, dim, its.len() as int);
        lemma_place_some(its, kids, depth, used, p, ks[k], 0, dim, its.len() as nat);
        lemma_place_geometry(its, kids, depth, used, p, ks[k], 0, dim, its.len() as nat);
        let q = place(its, p, ks[k], 0, dim, its.len() as nat).unwrap();
        lemma_geometry_forest(its, q.0, kids, depth, used);
        lemma_layable_geometry(its, q.0);
        lemma_place_kids_some(q.0, kids, depth, used, p, k + 1, dim);
    }
}

/// The positioning pass below `item` with fuel for the depth left completes.
pub proof fn lemma_arrange_some<H>(
    its: Seq<ItemImp<H>>,
    kids: Seq<Seq<int>>,
    depth: Seq<nat>,
    used: usize,
    item: int,
    dim: usize,
    fuel: nat,
)
    requires
        forest_ok(its, kids, depth, used),
        layable(its),
        its.len() < i32::MAX,
        0 <= item < its.len(),
        dim < 2,
        fuel >= its.len() - depth[item],
    ensures
        arrange(its, kids, item, dim, fuel) is Some,
    decreases fuel, 0int, 0int,
{
    super::tree::lemma_depth_bound(its, kids, depth, used, item);
    lemma_place_kids_some(its, kids, depth, used, item, 0, dim);
    lemma_place_kids_geometry(its, kids, depth, used, item, 0, dim);
    let its1 = place_kids(its, kids[item], 0, item, dim).unwrap();
    lemma_geometry_forest(its, its1, kids, depth, used);
    lemma_layable_geometry(its, its1);
    lemma_arrange_kids_some(its1, kids, depth, used, item, 0, dim, (fuel - 1) as nat);
}

/// The positioning pass below the kids `k..` of `p` with fuel for the depth
/// left completes.
pub proof fn lemma_arrange_kids_some<H>(
    its: Seq<ItemImp<H>>,
    kids: Seq<Seq<int>>,
    depth: Seq<nat>,
    used: usize,
    p: int,
    k: int,
    dim: usize,
    fuel: nat,
)
    requires
        forest_ok(its, kids, depth, used),
        layable(its),
        its.len() < i32::MAX,
        0 <= p < its.len(),
        dim < 2,
        fuel + 1 >= its.len() - depth[p],
    ensures
        arrange_kids(its, kids, kids[p], k, dim, fuel) is Some,
    decreases fuel, 1int, kids[p].len() - k,
{
    let ks = kids[p];
    if 0 <= k < ks.len() {
        lemma_kids_in_range(its, kids, depth, used, p);
        lemma_arrange_some(its, kids, depth, used, ks[k], dim, fuel);
        lemma_arrange_geometry(its, kids, depth, used, ks[k], dim, fuel);
        let its2 = arrange(its, kids, ks[k], dim, fuel).unwrap();
        lemma_geometry_forest(its, its2, kids, depth, used);
        lemma_layable_geometry(its, its2);
        lemma_arrange_kids_some(its2, kids, depth, used, p, k + 1, dim, fuel);
    }
}

/// Laying out layable items of a forest with fuel for the depth of the root's
/// tree completes.
pub proof fn lemma_laid_out_some<H>(
    its: Seq<ItemImp<H>>,
    kids: Seq<Seq<int>>,
    depth: Seq<nat>,
    used: usize,
)
    requires
        forest_ok(its, kids, depth, used),
        layable(its),
        its.len() < i32::MAX,
    ensures
        laid_out_with(its, kids, (its.len() - depth[0]) as nat) is Some,
{
    if its.len() > 0 {
        let fuel = (its.len() - depth[0]) as nat;
        lemma_best_some(its, kids, depth, used, 0, 0, fuel);
        lemma_best_geometry(its, kids, depth, used, 0, 0, fuel);
        let a = best(its, kids, 0, 0, fuel).unwrap();
        let r = a[0];
        let a1 = a.update(0, ItemImp { rect: Rect { x: r.margins[0], ..r.rect }, ..r });
        lemma_geometry_update(a, 0, ItemImp { rect: Rect { x: r.margins[0], ..r.rect }, ..r });
        lemma_geometry_trans(its, a, a1);
        lemma_geometry_forest(its, a1, kids, depth, used);
        lemma_layable_geometry(its, a1);
        lemma_arrange_some(a1, kids, depth, used, 0, 0, fuel);
        lemma_arrange_geometry(a1, kids, depth, used, 0, 0, fuel);
        let b = arrange(a1, kids, 0, 0, fuel).unwrap();
        lemma_geometry_trans(its, a1, b);
        lemma_geometry_forest(its, b, kids, depth, used);
        lemma_layable_geometry(its, b);
        lemma_best_some(b, kids, depth, used, 0, 1, fuel);
        lemma_best_geometry(b, kids, depth, used, 0, 1, fuel);
        let c = best(b, kids, 0, 1, fuel).unwrap();
        lemma_geometry_trans(its, b, c);
        lemma_geometry_forest(its, c, kids, depth, used);
        let r2 = c[0];
        let c1 = c.update(0, ItemImp { rect: Rect { y: r2.margins[1], ..r2.rect }, ..r2 });
        lemma_geometry_update(c, 0, ItemImp { rect: Rect { y: r2.margins[1], ..r2.rect }, ..r2 });
        lemma_geometry_trans(its, c, c1);
        lemma_geometry_forest(its, c1, kids, depth, used);
        lemma_layable_geometry(its, c1);
        lemma_arrange_some(c1, kids, depth, used, 0, 1, fuel);
    }
}

impl<Wgt, H> ContextModel<Wgt, H> {
    /// Whether the context is sure to lay out: it holds fewer than `i32::MAX`
    /// items, every walk from an item along its anchoring neighbours ends within
    /// the steps a chain walk may take (no neighbours anchor in a cycle), and no
    /// item requests an extent of 2^31 or more. Anchoring to a sibling made
    /// later is fine. A context refused here may still lay out, when the items
    /// whose walks do not end, or that request such extents, are never walked or
    /// stretched by the layout (for instance, lie outside the tree of the root).
    pub open spec fn layout_ready(self) -> bool {
        &&& self.items.len() < i32::MAX
        &&& layable(self.items)
    }
}

/// A context that is ready lays out: no neighbour walk is too long and no
/// share of stretchable space fails.
pub proof fn lemma_layout_ready<Wgt, H>(m: ContextModel<Wgt, H>)
    requires
        m.wf(),
        m.layout_ready(),
    ensures
        m.layout_result() is Some,
{
    lemma_laid_out_some(m.items, m.kids, m.depth, m.datasize);
}

impl<Wgt, H: EventHandler<Wgt>> Context<Wgt, H> {
    /// Whether the walk from `item` along its anchoring neighbours along `dim`,
    /// towards the far border (`far`) or the near one, ends within the steps a
    /// chain walk may take.
    fn walk_ends(&self, item: Item, dim: usize, far: bool) -> (r: bool)
        requires
            self@.has(item),
            dim < 2,
        ensures
            r == chain_from(self@.items, item.id(), dim, far, CHAIN_STEPS as nat) is Some,
    {
        proof {
            use_type_invariant(self);
        }
        let ghost its = self@.items;
        let mut cur = item;
        let mut budget: u32 = CHAIN_STEPS;
        loop
            invariant
                its == self@.items,
                self@.wf(),
                dim < 2,
                self@.has(cur),
                (chain_from(its, item.id(), dim, far, CHAIN_STEPS as nat) is Some) == (chain_from(
                    its,
                    cur.id(),
                    dim,
                    far,
                    budget as nat,
                ) is Some),
            decreases budget,
        {
            proof {
                assert(item_ok(its, self@.kids, self@.depth, self@.datasize, cur.id()));
            }
            let it = self.get(cur);
            let bit = if far {
                RIGHT
            } else {
                LEFT
            };
            let nxt = if far {
                it.relto[dim + 2]
            } else {
                it.relto[dim]
            };
            if (it.layout_flags >> dim) & bit != 0 && nxt.valid() {
                if budget == 0 {
                    return false;
                }
                proof {
                    assert(ref_ok(nxt, its.len() as int)) by {
                        if dim == 0 {
                        } else {
                        }
                    }
                }
                cur = nxt;
                budget = budget - 1;
            } else {
                return true;
            }
        }
    }

    /// Whether the context is sure to lay out (see `ContextModel::layout_ready`);
    /// when it is, `layout` may be called.
    pub fn layout_ready(&self) -> (r: bool)
        ensures
            r == self@.layout_ready(),
            r ==> self@.layout_result() is Some,
    {
        proof {
            use_type_invariant(self);
        }
        let ghost its = self@.items;
        let n = self.store.items.len();
        if n >= 2147483647 {
            return false;
        }
        proof {
            assert forall|i: int, k: int|
                0 <= i < its.len() && 0 <= k < 4 && (#[trigger] its[i].relto[k]).is_valid() implies 0
                <= its[i].relto[k].id() < its.len() by {
                assert(item_ok(its, self@.kids, self@.depth, self@.datasize, i));
                assert(ref_ok(its[i].relto[k], its.len() as int));
            }
        }
        let mut i: usize = 0;
        while i < n
            invariant
                its == self@.items,
                self@.wf(),
                n == its.len(),
                i <= n,
                forall|j: int, d: usize, far: bool|
                    0 <= j < i && d < 2 ==> (#[trigger] chain_from(its, j, d, far, CHAIN_STEPS as nat)) is Some,
                forall|j: int| 0 <= j < i ==> (#[trigger] its[j].size).x >= 0 && its[j].size.y >= 0,
            decreases n - i,
        {
            let item = Item::wrap(i as i32);
            let it = self.get(item);
            if it.size.x < 0 || it.size.y < 0 {
                proof {
                    assert(!layable(its));
                }
                return false;
            }
            let mut d: usize = 0;
            while d < 2
                invariant
                    its == self@.items,
                    self@.wf(),
                    n == its.len(),
                    i < n,
                    item.id() == i,
                    d <= 2,
                    forall|d2: usize, far: bool| d2 < d ==> (#[trigger] chain_from(its, i as int, d2, far, CHAIN_STEPS as nat)) is Some,
                decreases 2 - d,
            {
                let a = self.walk_ends(item, d, false);
                let b = self.walk_ends(item, d, true);
                if !a || !b {
                    proof {
                        assert(!layable(its)) by {
                            if !a {
                                assert(!(chain_from(its, i as int, d, false, CHAIN_STEPS as nat) is Some));
                            } else {
                                assert(!(chain_from(its, i as int, d, true, CHAIN_STEPS as nat) is Some));
                            }
                        }
                    }
                    return false;
                }
                proof {
                    assert forall|d2: usize, far: bool| d2 < d + 1 implies (#[trigger] chain_from(its, i as int, d2, far, CHAIN_STEPS as nat)) is Some by {
                        if d2 == d {
                            if far {
                            } else {
                            }
                        }
                    }
                }
                d = d + 1;
            }
            i = i + 1;
        }
        proof {
            lemma_layout_ready(self@);
        }
        true
    }
}

} // verus!
