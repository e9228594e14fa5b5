use vstd::prelude::*;

use super::{forest_ok, item_ok, ref_ok, Context, ContextModel, EventHandler, Item, ItemImp};
use crate::flags::{HFILL, LEFT, RIGHT};
use crate::geom::Rect;
use crate::geom::{max, spec_max};
use super::kid_ok;
use super::tree::{anc, lemma_anc_depth, lemma_depth_bound};

verus! {

/// Steps a chain walk may take before the layout gives up on it.
pub const CHAIN_STEPS: u32 = 999999;

/// The visited bit the size pass sets on the items of a chain along `dim`.
pub open spec fn chain_bit(dim: usize) -> u32 {
    1u32 << dim
}

/// The visited bit the positioning pass sets on an item along `dim`.
pub open spec fn placed_bit(dim: usize) -> u32 {
    4u32 << dim
}

/// The space an item takes along `dim`: its extent plus both margins.
pub open spec fn extent<H>(it: ItemImp<H>, dim: usize) -> i32 {
    it.rect.at(dim + 2).wrapping_add(it.margins[dim as int]).wrapping_add(it.margins[dim + 2])
}

/// The space an item takes along `dim`, counted only when its size is fixed
/// (`hard`), or always.
pub open spec fn share<H>(it: ItemImp<H>, dim: usize, hard: bool) -> i32 {
    if hard && !(it.size.at(dim as int) > 0) {
        0
    } else {
        extent(it, dim)
    }
}

/// Whether the flags of `it`, seen along `dim`, contain `bit` (`LEFT` for the
/// near border, `RIGHT` for the far one).
pub open spec fn anchored<H>(it: ItemImp<H>, dim: usize, bit: u32) -> bool {
    (it.layout_flags >> dim) & bit != 0
}

/// The items a chain walk from `cur` visits along `dim`, away from `cur`
/// towards the near (`far == false`) or the far border, following the
/// neighbour handles while the anchoring flag is set; `None` when the walk
/// needs more than `budget` steps.
pub open spec fn chain_from<H>(its: Seq<ItemImp<H>>, cur: int, dim: usize, far: bool, budget: nat) -> Option<
    Seq<int>,
>
    decreases budget,
{
    let it = its[cur];
    let bit = if far {
        RIGHT
    } else {
        LEFT
    };
    let nxt = if far {
        it.relto[dim + 2]
    } else {
        it.relto[dim as int]
    };
    if anchored(it, dim, bit) && nxt.is_valid() {
        if budget == 0 {
            None
        } else {
            match chain_from(its, nxt.id(), dim, far, (budget - 1) as nat) {
                Some(rest) => Some(seq![nxt.id()] + rest),
                None => None,
            }
        }
    } else {
        Some(seq![])
    }
}

/// `its` with `bit` set in the visited flags of the items listed in `s`.
pub open spec fn mark<H>(its: Seq<ItemImp<H>>, s: Seq<int>, bit: u32) -> Seq<ItemImp<H>> {
    Seq::new(
        its.len(),
        |j: int|
            if s.contains(j) {
                ItemImp { visited: its[j].visited | bit, ..its[j] }
            } else {
                its[j]
            },
    )
}

/// The wrapping sum of the shares of the items listed in `s`.
pub open spec fn shares<H>(its: Seq<ItemImp<H>>, s: Seq<int>, dim: usize, hard: bool) -> i32
    decreases s.len(),
{
    if s.len() == 0 {
        0
    } else {
        shares(its, s.drop_last(), dim, hard).wrapping_add(share(its[s.last()], dim, hard))
    }
}

/// The chain of `item` along `dim` (the item, its near neighbours, its far
/// neighbours), the items with the chain marked visited, and the space the
/// chain needs and the space its fixed-size items need; `None` when a walk is
/// too long.
pub open spec fn chain<H>(its: Seq<ItemImp<H>>, item: int, dim: usize) -> Option<
    (Seq<ItemImp<H>>, i32, i32),
> {
    match (
        chain_from(its, item, dim, false, CHAIN_STEPS as nat),
        chain_from(its, item, dim, true, CHAIN_STEPS as nat),
    ) {
        (Some(l), Some(r)) => {
            let all = seq![item] + l + r;
            Some((mark(its, all, chain_bit(dim)), shares(its, all, dim, false), shares(its, all, dim, true)))
        },
        _ => None,
    }
}


/// Folds the chains of the kids `ks[k..]` of an item along `dim`: each kid not
/// yet in a chain starts one; `need` and `hard` grow to the largest chain needs.
pub open spec fn size_fold<H>(
    its: Seq<ItemImp<H>>,
    ks: Seq<int>,
    k: int,
    dim: usize,
    need: i32,
    hard: i32,
) -> Option<(Seq<ItemImp<H>>, i32, i32)>
    decreases ks.len() - k,
{
    if k < 0 || k >= ks.len() {
        Some((its, need, hard))
    } else if its[ks[k]].visited & chain_bit(dim) == 0 {
        match chain(its, ks[k], dim) {
            Some(c) => size_fold(c.0, ks, k + 1, dim, spec_max(need, c.1), spec_max(hard, c.2)),
            None => None,
        }
    } else {
        size_fold(its, ks, k + 1, dim, need, hard)
    }
}

/// The items after sizing item `item` along `dim` from the chains of its kids
/// `ks`: its computed size is what the fixed-size items need, its extent is its
/// requested size, or, when none is requested, what its widest chain needs.
pub open spec fn size_dim<H>(its: Seq<ItemImp<H>>, ks: Seq<int>, item: int, dim: usize) -> Option<
    Seq<ItemImp<H>>,
> {
    match size_fold(its, ks, 0, dim, 0, 0) {
        Some(f) => {
            let it = f.0[item];
            let ext = if it.size.at(dim as int) > 0 {
                it.size.at(dim as int)
            } else {
                f.1
            };
            Some(
                f.0.update(
                    item,
                    ItemImp {
                        computed_size: it.computed_size.with(dim as int, f.2),
                        rect: it.rect.with(dim + 2, ext),
                        ..it
                    },
                ),
            )
        },
        None => None,
    }
}

/// The items after the size pass along `dim` over the tree below `item`: the
/// visited flags of `item` are cleared, its kids are sized in order, then the
/// item itself. `fuel` bounds the depth.
pub open spec fn best<H>(
    its: Seq<ItemImp<H>>,
    kids: Seq<Seq<int>>,
    item: int,
    dim: usize,
    fuel: nat,
) -> Option<Seq<ItemImp<H>>>
    decreases fuel, 0int, 0int,
{
    if fuel == 0 {
        None
    } else {
        let its1 = its.update(item, ItemImp { visited: 0, ..its[item] });
        match best_kids(its1, kids, kids[item], 0, dim, (fuel - 1) as nat) {
            Some(its2) => size_dim(its2, kids[item], item, dim),
            None => None,
        }
    }
}

/// The size pass over the trees below the kids `ks[k..]`, in order.
pub open spec fn best_kids<H>(
    its: Seq<ItemImp<H>>,
    kids: Seq<Seq<int>>,
    ks: Seq<int>,
    k: int,
    dim: usize,
    fuel: nat,
) -> Option<Seq<ItemImp<H>>>
    decreases fuel, 1int, ks.len() - k,
{
    if k < 0 || k >= ks.len() {
        Some(its)
    } else {
        match best(its, kids, ks[k], dim, fuel) {
            Some(its2) => best_kids(its2, kids, ks, k + 1, dim, fuel),
            None => None,
        }
    }
}


/// Where the far edge of the near neighbour `pl` lies along `dim`, margin included.
pub open spec fn near_edge<H>(pl: ItemImp<H>, dim: usize) -> i32 {
    pl.rect.at(dim as int).wrapping_add(pl.rect.at(dim + 2)).wrapping_add(pl.margins[dim + 2])
}

/// The space left between `x` and the near edge of the far neighbour `pr` along `dim`.
pub open spec fn far_space<H>(pr: ItemImp<H>, dim: usize, x: i32) -> i32 {
    pr.rect.at(dim as int).wrapping_sub(pr.margins[dim as int]).wrapping_sub(x)
}

/// The rectangle of item `item` positioned along `dim` in the space of `s` that
/// starts at `x`, by its anchoring flags: at the near edge, at the far edge,
/// stretched over the space (or, after a near neighbour, over an equal share of
/// what the parent has left among the `dc` stretchable items), or centered.
/// `None` when the share cannot be computed.
pub open spec fn position<H>(
    its: Seq<ItemImp<H>>,
    parent: int,
    item: int,
    dim: usize,
    x: i32,
    s: i32,
    hasl: bool,
    dc: i32,
) -> Option<Seq<ItemImp<H>>> {
    let it = its[item];
    let wdim = dim + 2;
    let m0 = it.margins[dim as int];
    let m2 = it.margins[wdim as int];
    let w = it.rect.at(wdim as int);
    let r = it.rect;
    let fl = (it.layout_flags >> dim) & HFILL;
    let near = x.wrapping_add(m0);
    let far = x.wrapping_add(s).wrapping_sub(w).wrapping_sub(m2);
    let nr = if fl == LEFT {
        Some(r.with(dim as int, near))
    } else if fl == RIGHT {
        Some(r.with(dim as int, far))
    } else if fl == HFILL {
        if it.size.at(dim as int) > 0 {
            Some(
                r.with(
                    dim as int,
                    if hasl {
                        far
                    } else {
                        near
                    },
                ),
            )
        } else {
            let pp = its[parent];
            let width = pp.rect.at(wdim as int).wrapping_sub(pp.computed_size.at(dim as int));
            match width.checked_div(dc) {
                None => None,
                Some(space) => if !hasl {
                    Some(r.with(dim as int, near).with(wdim as int, s.wrapping_sub(m0).wrapping_sub(m2)))
                } else {
                    let w2 = space.wrapping_sub(m0).wrapping_sub(m2);
                    Some(
                        r.with(wdim as int, w2).with(
                            dim as int,
                            x.wrapping_add(s).wrapping_sub(w2).wrapping_sub(m2),
                        ),
                    )
                },
            }
        }
    } else {
        Some(r.with(dim as int, x.wrapping_add(s.wrapping_sub(w).checked_div(2).unwrap()).wrapping_add(m0)))
    };
    match nr {
        Some(nr) => Some(its.update(item, ItemImp { rect: nr, ..it })),
        None => None,
    }
}

/// The items after positioning `item` along `dim` inside `parent`, and the count
/// of stretchable items met: an item already placed stays; otherwise it is marked
/// placed, counted when its size along `dim` is 0, its anchoring neighbours are
/// placed first, and it is positioned between them. `fuel` bounds the nesting;
/// `None` when it runs out or a share cannot be computed.
pub open spec fn place<H>(
    its: Seq<ItemImp<H>>,
    parent: int,
    item: int,
    dc: i32,
    dim: usize,
    fuel: nat,
) -> Option<(Seq<ItemImp<H>>, i32)>
    decreases fuel,
{
    let it = its[item];
    if it.visited & placed_bit(dim) != 0 {
        Some((its, dc))
    } else if fuel == 0 {
        None
    } else {
        let wdim = dim + 2;
        let its1 = its.update(item, ItemImp { visited: it.visited | placed_bit(dim), ..it });
        let dc1 = if it.size.at(dim as int) == 0 {
            dc.wrapping_add(1)
        } else {
            dc
        };
        let s0 = its1[parent].rect.at(wdim as int);
        let flags = it.layout_flags >> dim;
        let l = it.relto[dim as int];
        let r = it.relto[wdim as int];
        let hasl = flags & LEFT != 0 && l.is_valid();
        let hasr = flags & RIGHT != 0 && r.is_valid();
        let left = if hasl {
            match place(its1, parent, l.id(), dc1, dim, (fuel - 1) as nat) {
                Some(q) => Some((q.0, q.1, near_edge(q.0[l.id()], dim))),
                None => None,
            }
        } else {
            Some((its1, dc1, 0i32))
        };
        match left {
            None => None,
            Some(a) => {
                let x = a.2;
                let s1 = if hasl {
                    s0.wrapping_sub(x)
                } else {
                    s0
                };
                let right = if hasr {
                    match place(a.0, parent, r.id(), a.1, dim, (fuel - 1) as nat) {
                        Some(q) => Some((q.0, q.1, far_space(q.0[r.id()], dim, x))),
                        None => None,
                    }
                } else {
                    Some((a.0, a.1, s1))
                };
                match right {
                    None => None,
                    Some(b) => match position(b.0, parent, item, dim, x, b.2, hasl, b.1) {
                        Some(its4) => Some((its4, b.1)),
                        None => None,
                    },
                }
            },
        }
    }
}

/// The items after placing the kids `ks[k..]` of `parent` along `dim`, each with
/// a fresh count of stretchable items.
pub open spec fn place_kids<H>(its: Seq<ItemImp<H>>, ks: Seq<int>, k: int, parent: int, dim: usize) -> Option<
    Seq<ItemImp<H>>,
>
    decreases ks.len() - k,
{
    if k < 0 || k >= ks.len() {
        Some(its)
    } else {
        match place(its, parent, ks[k], 0, dim, its.len() as nat) {
            Some(q) => place_kids(q.0, ks, k + 1, parent, dim),
            None => None,
        }
    }
}

/// The items after the positioning pass along `dim` over the tree below `item`:
/// its kids are placed, then the trees below them are arranged in order.
pub open spec fn arrange<H>(
    its: Seq<ItemImp<H>>,
    kids: Seq<Seq<int>>,
    item: int,
    dim: usize,
    fuel: nat,
) -> Option<Seq<ItemImp<H>>>
    decreases fuel, 0int, 0int,
{
    if fuel == 0 {
        None
    } else {
        match place_kids(its, kids[item], 0, item, dim) {
            Some(its1) => arrange_kids(its1, kids, kids[item], 0, dim, (fuel - 1) as nat),
            None => None,
        }
    }
}

/// The positioning pass over the trees below the kids `ks[k..]`, in order.
pub open spec fn arrange_kids<H>(
    its: Seq<ItemImp<H>>,
    kids: Seq<Seq<int>>,
    ks: Seq<int>,
    k: int,
    dim: usize,
    fuel: nat,
) -> Option<Seq<ItemImp<H>>>
    decreases fuel, 1int, ks.len() - k,
{
    if k < 0 || k >= ks.len() {
        Some(its)
    } else {
        match arrange(its, kids, ks[k], dim, fuel) {
            Some(its2) => arrange_kids(its2, kids, ks, k + 1, dim, fuel),
            None => None,
        }
    }
}

/// The items after laying out the tree of the root (item 0) with passes that
/// nest at most `fuel` deep: widths are sized and the root is put at its left
/// margin, then positions along x are arranged; then the same along y. `None`
/// when a chain walk is too long, a share of stretchable space cannot be
/// computed, or the nesting is deeper than `fuel`.
pub open spec fn laid_out_with<H>(its: Seq<ItemImp<H>>, kids: Seq<Seq<int>>, fuel: nat) -> Option<
    Seq<ItemImp<H>>,
> {
    if its.len() == 0 {
        Some(its)
    } else {
        match best(its, kids, 0, 0, fuel) {
            None => None,
            Some(a) => {
                let r = a[0];
                let a1 = a.update(0, ItemImp { rect: Rect { x: r.margins[0], ..r.rect }, ..r });
                match arrange(a1, kids, 0, 0, fuel) {
                    None => None,
                    Some(b) => match best(b, kids, 0, 1, fuel) {
                        None => None,
                        Some(c) => {
                            let r2 = c[0];
                            let c1 = c.update(
                                0,
                                ItemImp { rect: Rect { y: r2.margins[1], ..r2.rect }, ..r2 },
                            );
                            arrange(c1, kids, 0, 1, fuel)
                        },
                    },
                }
            },
        }
    }
}

/// The items after laying out the tree of the root, with passes allowed to nest
/// as deep as the root's tree can reach.
pub open spec fn laid_out<H>(its: Seq<ItemImp<H>>, kids: Seq<Seq<int>>, depth: Seq<nat>) -> Option<
    Seq<ItemImp<H>>,
> {
    laid_out_with(its, kids, (its.len() - depth[0]) as nat)
}

impl<Wgt, H> ContextModel<Wgt, H> {
    /// The items after `layout`, or `None` when it cannot complete.
    pub open spec fn layout_result(self) -> Option<Seq<ItemImp<H>>> {
        laid_out(self.items, self.kids, self.depth)
    }
}


/// `its2` holds the items of `its1`, changed at most in their rectangles,
/// computed sizes and visited flags.
pub open spec fn same_but_geometry<H>(its1: Seq<ItemImp<H>>, its2: Seq<ItemImp<H>>) -> bool {
    &&& its1.len() == its2.len()
    &&& forall|j: int|
        0 <= j < its1.len() ==> #[trigger] its2[j] == (ItemImp {
            rect: its2[j].rect,
            computed_size: its2[j].computed_size,
            visited: its2[j].visited,
            ..its1[j]
        })
}

/// Changing geometry twice changes geometry.
pub proof fn lemma_geometry_trans<H>(a: Seq<ItemImp<H>>, b: Seq<ItemImp<H>>, c: Seq<ItemImp<H>>)
    requires
        same_but_geometry(a, b),
        same_but_geometry(b, c),
    ensures
        same_but_geometry(a, c),
{
    assert forall|j: int| 0 <= j < a.len() implies #[trigger] c[j] == (ItemImp {
        rect: c[j].rect,
        computed_size: c[j].computed_size,
        visited: c[j].visited,
        ..a[j]
    }) by {
        assert(b[j] == (ItemImp {
            rect: b[j].rect,
            computed_size: b[j].computed_size,
            visited: b[j].visited,
            ..a[j]
        }));
        assert(c[j] == (ItemImp {
            rect: c[j].rect,
            computed_size: c[j].computed_size,
            visited: c[j].visited,
            ..b[j]
        }));
    }
}

/// Changing the geometry of one item changes geometry.
pub proof fn lemma_geometry_update<H>(its: Seq<ItemImp<H>>, i: int, it: ItemImp<H>)
    requires
        0 <= i < its.len(),
        it == (ItemImp { rect: it.rect, computed_size: it.computed_size, visited: it.visited, ..its[i] }),
    ensures
        same_but_geometry(its, its.update(i, it)),
{
}

/// Changing geometry keeps a forest a forest.
pub proof fn lemma_geometry_forest<H>(
    its1: Seq<ItemImp<H>>,
    its2: Seq<ItemImp<H>>,
    kids: Seq<Seq<int>>,
    depth: Seq<nat>,
    used: usize,
)
    requires
        forest_ok(its1, kids, depth, used),
        same_but_geometry(its1, its2),
    ensures
        forest_ok(its2, kids, depth, used),
{
    assert forall|j: int| 0 <= j < its1.len() implies #[trigger] item_ok(its2, kids, depth, used, j) by {
        assert(item_ok(its1, kids, depth, used, j));
        assert(its2[j] == (ItemImp { rect: its2[j].rect, computed_size: its2[j].computed_size, visited: its2[j].visited, ..its1[j] }));
        let ks = kids[j];
        assert forall|k: int| 0 <= k < ks.len() implies #[trigger] kid_ok(its2, kids, j, k) by {
            assert(kid_ok(its1, kids, j, k));
            let c = ks[k];
            assert(its2[c] == (ItemImp { rect: its2[c].rect, computed_size: its2[c].computed_size, visited: its2[c].visited, ..its1[c] }));
        }
        if its1[j].parent.id() != -1 {
            assert(item_ok(its1, kids, depth, used, its1[j].parent.id()));
        }
    }
}

/// A chain only marks items visited.
pub proof fn lemma_chain_geometry<H>(its: Seq<ItemImp<H>>, item: int, dim: usize)
    ensures
        chain(its, item, dim) matches Some(c) ==> same_but_geometry(its, c.0),
{
}

/// Sizing the chains of kids changes only geometry.
pub proof fn lemma_size_fold_geometry<H>(
    its: Seq<ItemImp<H>>,
    ks: Seq<int>,
    k: int,
    dim: usize,
    need: i32,
    hard: i32,
)
    ensures
        size_fold(its, ks, k, dim, need, hard) matches Some(f) ==> same_but_geometry(its, f.0),
    decreases ks.len() - k,
{
    if 0 <= k < ks.len() {
        if its[ks[k]].visited & chain_bit(dim) == 0 {
            if let Some(c) = chain(its, ks[k], dim) {
                lemma_chain_geometry(its, ks[k], dim);
                lemma_size_fold_geometry(c.0, ks, k + 1, dim, spec_max(need, c.1), spec_max(hard, c.2));
                if let Some(f) = size_fold(c.0, ks, k + 1, dim, spec_max(need, c.1), spec_max(hard, c.2)) {
                    lemma_geometry_trans(its, c.0, f.0);
                }
            }
        } else {
            lemma_size_fold_geometry(its, ks, k + 1, dim, need, hard);
        }
    }
}

/// Sizing an item changes only geometry.
pub proof fn lemma_size_dim_geometry<H>(its: Seq<ItemImp<H>>, ks: Seq<int>, item: int, dim: usize)
    requires
        0 <= item < its.len(),
    ensures
        size_dim(its, ks, item, dim) matches Some(r) ==> same_but_geometry(its, r),
{
    lemma_size_fold_geometry(its, ks, 0, dim, 0, 0);
    if let Some(f) = size_fold(its, ks, 0, dim, 0, 0) {
        let it = f.0[item];
        let ext = if it.size.at(dim as int) > 0 {
            it.size.at(dim as int)
        } else {
            f.1
        };
        lemma_geometry_update(
            f.0,
            item,
            ItemImp {
                computed_size: it.computed_size.with(dim as int, f.2),
                rect: it.rect.with(dim + 2, ext),
                ..it
            },
        );
        lemma_geometry_trans(its, f.0, size_dim(its, ks, item, dim).unwrap());
    }
}

/// The size pass over a tree changes only geometry.
pub proof fn lemma_best_geometry<H>(
    its: Seq<ItemImp<H>>,
    kids: Seq<Seq<int>>,
    depth: Seq<nat>,
    used: usize,
    item: int,
    dim: usize,
    fuel: nat,
)
    requires
        forest_ok(its, kids, depth, used),
        0 <= item < its.len(),
    ensures
        best(its, kids, item, dim, fuel) matches Some(r) ==> same_but_geometry(its, r),
    decreases fuel, 0int, 0int,
{
    if fuel > 0 {
        let its1 = its.update(item, ItemImp { visited: 0, ..its[item] });
        lemma_geometry_update(its, item, ItemImp { visited: 0, ..its[item] });
        lemma_geometry_forest(its, its1, kids, depth, used);
        lemma_best_kids_geometry(its1, kids, depth, used, item, 0, dim, (fuel - 1) as nat);
        if let Some(its2) = best_kids(its1, kids, kids[item], 0, dim, (fuel - 1) as nat) {
            lemma_geometry_trans(its, its1, its2);
            lemma_size_dim_geometry(its2, kids[item], item, dim);
            if let Some(r) = size_dim(its2, kids[item], item, dim) {
                lemma_geometry_trans(its, its2, r);
            }
        }
    }
}

/// The size pass over the trees of the kids `kids[p][k..]` changes only geometry.
pub proof fn lemma_best_kids_geometry<H>(
    its: Seq<ItemImp<H>>,
    kids: Seq<Seq<int>>,
    depth: Seq<nat>,
    used: usize,
    p: int,
    k: int,
    dim: usize,
    fuel: nat,
)
    requires
        forest_ok(its, kids, depth, used),
        0 <= p < its.len(),
    ensures
        best_kids(its, kids, kids[p], k, dim, fuel) matches Some(r) ==> same_but_geometry(its, r),
    decreases fuel, 1int, kids[p].len() - k,
{
    let ks = kids[p];
    if 0 <= k < ks.len() {
        assert(item_ok(its, kids, depth, used, p));
        assert(kid_ok(its, kids, p, k));
        lemma_best_geometry(its, kids, depth, used, ks[k], dim, fuel);
        if let Some(its2) = best(its, kids, ks[k], dim, fuel) {
            lemma_geometry_forest(its, its2, kids, depth, used);
            lemma_best_kids_geometry(its2, kids, depth, used, p, k + 1, dim, fuel);
            if let Some(r) = best_kids(its2, kids, ks, k + 1, dim, fuel) {
                lemma_geometry_trans(its, its2, r);
            }
        }
    }
}


/// Positioning an item changes only geometry.
pub proof fn lemma_position_geometry<H>(
    its: Seq<ItemImp<H>>,
    parent: int,
    item: int,
    dim: usize,
    x: i32,
    s: i32,
    hasl: bool,
    dc: i32,
)
    requires
        0 <= item < its.len(),
    ensures
        position(its, parent, item, dim, x, s, hasl, dc) matches Some(r) ==> same_but_geometry(its, r),
        position(its, parent, item, dim, x, s, hasl, dc) matches Some(r) ==> forall|j: int|
            0 <= j < its.len() ==> #[trigger] r[j].visited == its[j].visited,
        position(its, parent, item, dim, x, s, hasl, dc) matches Some(r) ==> r == its.update(item, r[item]),
{
    if let Some(r) = position(its, parent, item, dim, x, s, hasl, dc) {
        lemma_geometry_update(its, item, r[item]);
        assert(r == its.update(item, r[item]));
    }
}

/// Placing an item (and its anchoring neighbours) changes only geometry.
pub proof fn lemma_place_geometry<H>(
    its: Seq<ItemImp<H>>,
    kids: Seq<Seq<int>>,
    depth: Seq<nat>,
    used: usize,
    parent: int,
    item: int,
    dc: i32,
    dim: usize,
    fuel: nat,
)
    requires
        forest_ok(its, kids, depth, used),
        0 <= parent < its.len(),
        0 <= item < its.len(),
        dim < 2,
    ensures
        place(its, parent, item, dc, dim, fuel) matches Some(q) ==> same_but_geometry(its, q.0),
    decreases fuel,
{
    let it = its[item];
    if it.visited & placed_bit(dim) == 0 && fuel > 0 {
        assert(item_ok(its, kids, depth, used, item));
        let wdim = dim + 2;
        let its1 = its.update(item, ItemImp { visited: it.visited | placed_bit(dim), ..it });
        lemma_geometry_update(its, item, ItemImp { visited: it.visited | placed_bit(dim), ..it });
        lemma_geometry_forest(its, its1, kids, depth, used);
        let dc1 = if it.size.at(dim as int) == 0 {
            dc.wrapping_add(1)
        } else {
            dc
        };
        let flags = it.layout_flags >> dim;
        let l = it.relto[dim as int];
        let r = it.relto[wdim as int];
        let hasl = flags & LEFT != 0 && l.is_valid();
        let hasr = flags & RIGHT != 0 && r.is_valid();
        assert(its[item].refs_ok(its.len() as int));
        assert(ref_ok(l, its.len() as int) && ref_ok(r, its.len() as int)) by {
            if dim == 0 {
            } else {
            }
        }
        let mut its2 = its1;
        let mut dc2 = dc1;
        if hasl {
            lemma_place_geometry(its1, kids, depth, used, parent, l.id(), dc1, dim, (fuel - 1) as nat);
            if let Some(q) = place(its1, parent, l.id(), dc1, dim, (fuel - 1) as nat) {
                its2 = q.0;
                dc2 = q.1;
                lemma_geometry_trans(its, its1, its2);
                lemma_geometry_forest(its, its2, kids, depth, used);
            }
        }
        if hasl && place(its1, parent, l.id(), dc1, dim, (fuel - 1) as nat) is None {
        } else {
            let mut its3 = its2;
            if hasr {
                lemma_place_geometry(its2, kids, depth, used, parent, r.id(), dc2, dim, (fuel - 1) as nat);
                if let Some(q) = place(its2, parent, r.id(), dc2, dim, (fuel - 1) as nat) {
                    its3 = q.0;
                    lemma_geometry_trans(its, its2, its3);
                }
            }
            if hasr && place(its2, parent, r.id(), dc2, dim, (fuel - 1) as nat) is None {
            } else {
                assert(same_but_geometry(its, its3));
                if let Some(q) = place(its, parent, item, dc, dim, fuel) {
                    let x = if hasl {
                        near_edge(its2[l.id()], dim)
                    } else {
                        0i32
                    };
                    let s0 = its1[parent].rect.at(wdim as int);
                    let s1 = if hasl {
                        s0.wrapping_sub(x)
                    } else {
                        s0
                    };
                    let sr = if hasr {
                        far_space(its3[r.id()], dim, x)
                    } else {
                        s1
                    };
                    let dc3 = if hasr {
                        place(its2, parent, r.id(), dc2, dim, (fuel - 1) as nat).unwrap().1
                    } else {
                        dc2
                    };
                    assert(position(its3, parent, item, dim, x, sr, hasl, dc3) == Some(q.0));
                    lemma_position_geometry(its3, parent, item, dim, x, sr, hasl, dc3);
                    lemma_geometry_trans(its, its3, q.0);
                }
            }
        }
    }
}


/// Placing the kids `kids[p][k..]` changes only geometry.
pub proof fn lemma_place_kids_geometry<H>(
    its: Seq<ItemImp<H>>,
    kids: Seq<Seq<int>>,
    depth: Seq<nat>,
    used: usize,
    p: int,
    k: int,
    dim: usize,
)
    requires
        forest_ok(its, kids, depth, used),
        0 <= p < its.len(),
        dim < 2,
    ensures
        place_kids(its, kids[p], k, p, dim) matches Some(r) ==> same_but_geometry(its, r),
    decreases kids[p].len() - k,
{
    let ks = kids[p];
    if 0 <= k < ks.len() {
        assert(item_ok(its, kids, depth, used, p));
        assert(kid_ok(its, kids, p, k));
        lemma_place_geometry(its, kids, depth, used, p, ks[k], 0, dim, its.len() as nat);
        if let Some(q) = place(its, p, ks[k], 0, dim, its.len() as nat) {
            lemma_geometry_forest(its, q.0, kids, depth, used);
            lemma_place_kids_geometry(q.0, kids, depth, used, p, k + 1, dim);
            if let Some(r) = place_kids(q.0, ks, k + 1, p, dim) {
                lemma_geometry_trans(its, q.0, r);
            }
        }
    }
}

/// The positioning pass over a tree changes only geometry.
pub proof fn lemma_arrange_geometry<H>(
    its: Seq<ItemImp<H>>,
    kids: Seq<Seq<int>>,
    depth: Seq<nat>,
    used: usize,
    item: int,
    dim: usize,
    fuel: nat,
)
    requires
        forest_ok(its, kids, depth, used),
        0 <= item < its.len(),
        dim < 2,
    ensures
        arrange(its, kids, item, dim, fuel) matches Some(r) ==> same_but_geometry(its, r),
    decreases fuel, 0int, 0int,
{
    if fuel > 0 {
        lemma_place_kids_geometry(its, kids, depth, used, item, 0, dim);
        if let Some(its1) = place_kids(its, kids[item], 0, item, dim) {
            lemma_geometry_forest(its, its1, kids, depth, used);
            lemma_arrange_kids_geometry(its1, kids, depth, used, item, 0, dim, (fuel - 1) as nat);
            if let Some(r) = arrange_kids(its1, kids, kids[item], 0, dim, (fuel - 1) as nat) {
                lemma_geometry_trans(its, its1, r);
            }
        }
    }
}

/// The positioning pass over the trees of the kids `kids[p][k..]` changes only geometry.
pub proof fn lemma_arrange_kids_geometry<H>(
    its: Seq<ItemImp<H>>,
    kids: Seq<Seq<int>>,
    depth: Seq<nat>,
    used: usize,
    p: int,
    k: int,
    dim: usize,
    fuel: nat,
)
    requires
        forest_ok(its, kids, depth, used),
        0 <= p < its.len(),
        dim < 2,
    ensures
        arrange_kids(its, kids, kids[p], k, dim, fuel) matches Some(r) ==> same_but_geometry(its, r),
    decreases fuel, 1int, kids[p].len() - k,
{
    let ks = kids[p];
    if 0 <= k < ks.len() {
        assert(item_ok(its, kids, depth, used, p));
        assert(kid_ok(its, kids, p, k));
        lemma_arrange_geometry(its, kids, depth, used, ks[k], dim, fuel);
        if let Some(its2) = arrange(its, kids, ks[k], dim, fuel) {
            lemma_geometry_forest(its, its2, kids, depth, used);
            lemma_arrange_kids_geometry(its2, kids, depth, used, p, k + 1, dim, fuel);
            if let Some(r) = arrange_kids(its2, kids, ks, k + 1, dim, fuel) {
                lemma_geometry_trans(its, its2, r);
            }
        }
    }
}

/// Laying out changes only the rectangles, computed sizes and visited flags
/// of the items.
pub proof fn lemma_laid_out_geometry<H>(
    its: Seq<ItemImp<H>>,
    kids: Seq<Seq<int>>,
    depth: Seq<nat>,
    used: usize,
)
    requires
        forest_ok(its, kids, depth, used),
    ensures
        laid_out(its, kids, depth) matches Some(r) ==> same_but_geometry(its, r),
{
    if its.len() > 0 {
        let fuel = (its.len() - depth[0]) as nat;
        lemma_best_geometry(its, kids, depth, used, 0, 0, fuel);
        if let Some(a) = best(its, kids, 0, 0, fuel) {
            let r = a[0];
            let a1 = a.update(0, ItemImp { rect: Rect { x: r.margins[0], ..r.rect }, ..r });
            lemma_geometry_update(a, 0, ItemImp { rect: Rect { x: r.margins[0], ..r.rect }, ..r });
            lemma_geometry_trans(its, a, a1);
            lemma_geometry_forest(its, a1, kids, depth, used);
            lemma_arrange_geometry(a1, kids, depth, used, 0, 0, fuel);
            if let Some(b) = arrange(a1, kids, 0, 0, fuel) {
                lemma_geometry_trans(its, a1, b);
                lemma_geometry_forest(its, b, kids, depth, used);
                lemma_best_geometry(b, kids, depth, used, 0, 1, fuel);
                if let Some(c) = best(b, kids, 0, 1, fuel) {
                    lemma_geometry_trans(its, b, c);
                    lemma_geometry_forest(its, c, kids, depth, used);
                    let r2 = c[0];
                    let c1 = c.update(0, ItemImp { rect: Rect { y: r2.margins[1], ..r2.rect }, ..r2 });
                    lemma_geometry_update(c, 0, ItemImp { rect: Rect { y: r2.margins[1], ..r2.rect }, ..r2 });
                    lemma_geometry_trans(its, c, c1);
                    lemma_geometry_forest(its, c1, kids, depth, used);
                    lemma_arrange_geometry(c1, kids, depth, used, 0, 1, fuel);
                    if let Some(d) = arrange(c1, kids, 0, 1, fuel) {
                        lemma_geometry_trans(its, c1, d);
                    }
                }
            }
        }
    }
}


/// An item with a requested extent along `dim` has that extent.
pub open spec fn keeps_size<H>(it: ItemImp<H>, dim: usize) -> bool {
    it.size.at(dim as int) > 0 ==> it.rect.at(dim + 2) == it.size.at(dim as int)
}

/// Every item that keeps its requested extents in `its1` keeps them in `its2`.
pub open spec fn sizes_kept<H>(its1: Seq<ItemImp<H>>, its2: Seq<ItemImp<H>>) -> bool {
    forall|j: int, d: usize|
        0 <= j < its1.len() && d < 2 && #[trigger] keeps_size(its1[j], d) ==> #[trigger] keeps_size(
            its2[j],
            d,
        )
}

/// Item `j` lies in the tree below `item` (or is `item`).
pub open spec fn below<H>(its: Seq<ItemImp<H>>, depth: Seq<nat>, j: int, item: int) -> bool {
    depth[j] >= depth[item] && anc(its, j, (depth[j] - depth[item]) as nat) == item
}

/// An item strictly below `item` is below one of the kids of `item`.
pub proof fn lemma_below_kid<H>(
    its: Seq<ItemImp<H>>,
    kids: Seq<Seq<int>>,
    depth: Seq<nat>,
    used: usize,
    item: int,
    j: int,
)
    requires
        forest_ok(its, kids, depth, used),
        0 <= item < its.len(),
        0 <= j < its.len(),
        below(its, depth, j, item),
        j != item,
    ensures
        exists|k: int| 0 <= k < kids[item].len() && below(its, depth, j, #[trigger] kids[item][k]),
{
    let d = (depth[j] - depth[item]) as nat;
    assert(d >= 1);
    let a = anc(its, j, (d - 1) as nat);
    lemma_anc_depth(its, kids, depth, used, j, (d - 1) as nat);
    assert(anc(its, j, d) == its[a].parent.id());
    assert(item_ok(its, kids, depth, used, a));
    let k = its[a].kidid as int;
    assert(kids[item][k] == a);
    assert((depth[j] - depth[a]) as nat == (d - 1) as nat);
    assert(below(its, depth, j, kids[item][k]));
}

/// Keeping requested extents is transitive.
pub proof fn lemma_kept_trans<H>(a: Seq<ItemImp<H>>, b: Seq<ItemImp<H>>, c: Seq<ItemImp<H>>)
    requires
        a.len() == b.len(),
        sizes_kept(a, b),
        sizes_kept(b, c),
    ensures
        sizes_kept(a, c),
{
    assert forall|j: int, d: usize|
        0 <= j < a.len() && d < 2 && #[trigger] keeps_size(a[j], d) implies #[trigger] keeps_size(c[j], d) by {
        assert(keeps_size(b[j], d));
    }
}

/// Chains leave every rectangle as it is.
pub proof fn lemma_size_fold_rects<H>(
    its: Seq<ItemImp<H>>,
    ks: Seq<int>,
    k: int,
    dim: usize,
    need: i32,
    hard: i32,
)
    ensures
        size_fold(its, ks, k, dim, need, hard) matches Some(f) ==> f.0.len() == its.len() && forall|j: int|
            0 <= j < its.len() ==> (#[trigger] f.0[j]).rect == its[j].rect && f.0[j].size == its[j].size,
    decreases ks.len() - k,
{
    if 0 <= k < ks.len() {
        if its[ks[k]].visited & chain_bit(dim) == 0 {
            if let Some(c) = chain(its, ks[k], dim) {
                assert(c.0.len() == its.len());
                lemma_size_fold_rects(c.0, ks, k + 1, dim, spec_max(need, c.1), spec_max(hard, c.2));
                if let Some(f) = size_fold(c.0, ks, k + 1, dim, spec_max(need, c.1), spec_max(hard, c.2)) {
                    assert forall|j: int| 0 <= j < its.len() implies (#[trigger] f.0[j]).rect == its[j].rect
                        && f.0[j].size == its[j].size by {
                        assert(c.0[j].rect == its[j].rect);
                        assert(c.0[j].size == its[j].size);
                        assert(f.0[j].rect == c.0[j].rect);
                    }
                }
            }
        } else {
            lemma_size_fold_rects(its, ks, k + 1, dim, need, hard);
        }
    }
}

/// Sizing an item gives it its requested extent and takes no item's away.
pub proof fn lemma_size_dim_kept<H>(its: Seq<ItemImp<H>>, ks: Seq<int>, item: int, dim: usize)
    requires
        0 <= item < its.len(),
        dim < 2,
    ensures
        size_dim(its, ks, item, dim) matches Some(r) ==> r.len() == its.len() && sizes_kept(its, r)
            && keeps_size(r[item], dim),
{
    lemma_size_fold_rects(its, ks, 0, dim, 0, 0);
    if let Some(r) = size_dim(its, ks, item, dim) {
        let f = size_fold(its, ks, 0, dim, 0, 0).unwrap();
        assert forall|j: int, d: usize|
            0 <= j < its.len() && d < 2 && #[trigger] keeps_size(its[j], d) implies #[trigger] keeps_size(r[j], d) by {
            assert(f.0[j].rect == its[j].rect);
        }
    }
}

/// The size pass over a tree gives every item below `item` its requested extent
/// along `dim` and takes no item's away.
pub proof fn lemma_best_kept<H>(
    its0: Seq<ItemImp<H>>,
    its: Seq<ItemImp<H>>,
    kids: Seq<Seq<int>>,
    depth: Seq<nat>,
    used: usize,
    item: int,
    dim: usize,
    fuel: nat,
)
    requires
        forest_ok(its0, kids, depth, used),
        same_but_geometry(its0, its),
        0 <= item < its.len(),
        dim < 2,
    ensures
        best(its, kids, item, dim, fuel) matches Some(r) ==> r.len() == its.len() && sizes_kept(its, r)
            && forall|j: int|
            0 <= j < its.len() && below(its0, depth, j, item) ==> #[trigger] keeps_size(r[j], dim),
    decreases fuel, 0int, 0int,
{
    if fuel > 0 {
        let its1 = its.update(item, ItemImp { visited: 0, ..its[item] });
        lemma_geometry_update(its, item, ItemImp { visited: 0, ..its[item] });
        lemma_geometry_trans(its0, its, its1);
        lemma_geometry_forest(its0, its, kids, depth, used);
        lemma_geometry_forest(its0, its1, kids, depth, used);
        assert(sizes_kept(its, its1));
        lemma_best_kids_kept(its0, its1, kids, depth, used, item, 0, dim, (fuel - 1) as nat);
        lemma_best_kids_geometry(its1, kids, depth, used, item, 0, dim, (fuel - 1) as nat);
        if let Some(its2) = best_kids(its1, kids, kids[item], 0, dim, (fuel - 1) as nat) {
            lemma_size_dim_kept(its2, kids[item], item, dim);
            if let Some(r) = size_dim(its2, kids[item], item, dim) {
                lemma_kept_trans(its, its1, its2);
                lemma_kept_trans(its, its2, r);
                assert forall|j: int| 0 <= j < its.len() && below(its0, depth, j, item) implies #[trigger] keeps_size(r[j], dim) by {
                    if j != item {
                        lemma_below_kid(its0, kids, depth, used, item, j);
                        let k = choose|k: int| 0 <= k < kids[item].len() && below(its0, depth, j, #[trigger] kids[item][k]);
                        assert(keeps_size(its2[j], dim));
                    }
                }
            }
        }
    }
}

/// The size pass over the trees of the kids `kids[p][k..]` gives every item below
/// them its requested extent along `dim` and takes no item's away.
pub proof fn lemma_best_kids_kept<H>(
    its0: Seq<ItemImp<H>>,
    its: Seq<ItemImp<H>>,
    kids: Seq<Seq<int>>,
    depth: Seq<nat>,
    used: usize,
    p: int,
    k: int,
    dim: usize,
    fuel: nat,
)
    requires
        forest_ok(its0, kids, depth, used),
        same_but_geometry(its0, its),
        0 <= p < its.len(),
        0 <= k,
        dim < 2,
    ensures
        best_kids(its, kids, kids[p], k, dim, fuel) matches Some(r) ==> r.len() == its.len() && sizes_kept(
            its,
            r,
        ) && forall|j: int, k2: int|
            0 <= j < its.len() && k <= k2 < kids[p].len() && below(its0, depth, j, #[trigger] kids[p][k2])
                ==> #[trigger] keeps_size(r[j], dim),
    decreases fuel, 1int, kids[p].len() - k,
{
    let ks = kids[p];
    lemma_geometry_forest(its0, its, kids, depth, used);
    if 0 <= k < ks.len() {
        assert(item_ok(its0, kids, depth, used, p));
        assert(kid_ok(its0, kids, p, k));
        lemma_best_kept(its0, its, kids, depth, used, ks[k], dim, fuel);
        lemma_best_geometry(its, kids, depth, used, ks[k], dim, fuel);
        if let Some(its2) = best(its, kids, ks[k], dim, fuel) {
            lemma_geometry_trans(its0, its, its2);
            lemma_best_kids_kept(its0, its2, kids, depth, used, p, k + 1, dim, fuel);
            if let Some(r) = best_kids(its2, kids, ks, k + 1, dim, fuel) {
                lemma_kept_trans(its, its2, r);
                assert forall|j: int, k2: int|
                    0 <= j < its.len() && k <= k2 < ks.len() && below(its0, depth, j, #[trigger] ks[k2])
                        implies #[trigger] keeps_size(r[j], dim) by {
                    if k2 == k {
                        assert(keeps_size(its2[j], dim));
                        assert(keeps_size(r[j], dim));
                    } else {
                        assert(keeps_size(r[j], dim));
                    }
                }
            }
        }
    } else {
        assert(sizes_kept(its, its));
    }
}


/// Positioning an item takes no item's requested extent away.
pub proof fn lemma_position_kept<H>(
    its: Seq<ItemImp<H>>,
    parent: int,
    item: int,
    dim: usize,
    x: i32,
    s: i32,
    hasl: bool,
    dc: i32,
)
    requires
        0 <= item < its.len(),
        dim < 2,
    ensures
        position(its, parent, item, dim, x, s, hasl, dc) matches Some(r) ==> r.len() == its.len() && sizes_kept(its, r),
{
    if let Some(r) = position(its, parent, item, dim, x, s, hasl, dc) {
        assert forall|j: int, d: usize|
            0 <= j < its.len() && d < 2 && #[trigger] keeps_size(its[j], d) implies #[trigger] keeps_size(r[j], d) by {
            if j == item {
                assert(r[j].size == its[j].size);
                if d != dim {
                    assert(r[j].rect.at(d + 2) == its[j].rect.at(d + 2));
                }
            }
        }
    }
}

/// Placing an item (and its anchoring neighbours) takes no item's requested
/// extent away.
pub proof fn lemma_place_kept<H>(
    its: Seq<ItemImp<H>>,
    kids: Seq<Seq<int>>,
    depth: Seq<nat>,
    used: usize,
    parent: int,
    item: int,
    dc: i32,
    dim: usize,
    fuel: nat,
)
    requires
        forest_ok(its, kids, depth, used),
        0 <= parent < its.len(),
        0 <= item < its.len(),
        dim < 2,
    ensures
        place(its, parent, item, dc, dim, fuel) matches Some(q) ==> q.0.len() == its.len() && sizes_kept(its, q.0),
    decreases fuel,
{
    lemma_place_geometry(its, kids, depth, used, parent, item, dc, dim, fuel);
    let it = its[item];
    if it.visited & placed_bit(dim) == 0 && fuel > 0 {
        assert(item_ok(its, kids, depth, used, item));
        let wdim = dim + 2;
        let its1 = its.update(item, ItemImp { visited: it.visited | placed_bit(dim), ..it });
        lemma_geometry_update(its, item, ItemImp { visited: it.visited | placed_bit(dim), ..it });
        lemma_geometry_forest(its, its1, kids, depth, used);
        assert(sizes_kept(its, its1));
        let dc1 = if it.size.at(dim as int) == 0 {
            dc.wrapping_add(1)
        } else {
            dc
        };
        let flags = it.layout_flags >> dim;
        let l = it.relto[dim as int];
        let r = it.relto[wdim as int];
        let hasl = flags & LEFT != 0 && l.is_valid();
        let hasr = flags & RIGHT != 0 && r.is_valid();
        assert(its[item].refs_ok(its.len() as int));
        assert(ref_ok(l, its.len() as int) && ref_ok(r, its.len() as int)) by {
            if dim == 0 {
            } else {
            }
        }
        let mut its2 = its1;
        let mut dc2 = dc1;
        if hasl {
            lemma_place_kept(its1, kids, depth, used, parent, l.id(), dc1, dim, (fuel - 1) as nat);
            lemma_place_geometry(its1, kids, depth, used, parent, l.id(), dc1, dim, (fuel - 1) as nat);
            if let Some(q) = place(its1, parent, l.id(), dc1, dim, (fuel - 1) as nat) {
                its2 = q.0;
                dc2 = q.1;
                lemma_kept_trans(its, its1, its2);
                lemma_geometry_trans(its, its1, its2);
                lemma_geometry_forest(its, its2, kids, depth, used);
            }
        }
        if hasl && place(its1, parent, l.id(), dc1, dim, (fuel - 1) as nat) is None {
        } else {
            let mut its3 = its2;
            if hasr {
                lemma_place_kept(its2, kids, depth, used, parent, r.id(), dc2, dim, (fuel - 1) as nat);
                if let Some(q) = place(its2, parent, r.id(), dc2, dim, (fuel - 1) as nat) {
                    its3 = q.0;
                    lemma_kept_trans(its, its2, its3);
                }
            }
            if hasr && place(its2, parent, r.id(), dc2, dim, (fuel - 1) as nat) is None {
            } else {
                assert(sizes_kept(its, its3));
                if let Some(q) = place(its, parent, item, dc, dim, fuel) {
                    let x = if hasl {
                        near_edge(its2[l.id()], dim)
                    } else {
                        0i32
                    };
                    let s0 = its1[parent].rect.at(wdim as int);
                    let s1 = if hasl {
                        s0.wrapping_sub(x)
                    } else {
                        s0
                    };
                    let sr = if hasr {
                        far_space(its3[r.id()], dim, x)
                    } else {
                        s1
                    };
                    let dc3 = if hasr {
                        place(its2, parent, r.id(), dc2, dim, (fuel - 1) as nat).unwrap().1
                    } else {
                        dc2
                    };
                    assert(position(its3, parent, item, dim, x, sr, hasl, dc3) == Some(q.0));
                    lemma_position_kept(its3, parent, item, dim, x, sr, hasl, dc3);
                    lemma_kept_trans(its, its3, q.0);
                }
            }
        }
    } else {
        assert(sizes_kept(its, its));
    }
}

/// Placing the kids `kids[p][k..]` takes no item's requested extent away.
pub proof fn lemma_place_kids_kept<H>(
    its: Seq<ItemImp<H>>,
    kids: Seq<Seq<int>>,
    depth: Seq<nat>,
    used: usize,
    p: int,
    k: int,
    dim: usize,
)
    requires
        forest_ok(its, kids, depth, used),
        0 <= p < its.len(),
        dim < 2,
    ensures
        place_kids(its, kids[p], k, p, dim) matches Some(r) ==> r.len() == its.len() && sizes_kept(its, r),
    decreases kids[p].len() - k,
{
    let ks = kids[p];
    if 0 <= k < ks.len() {
        assert(item_ok(its, kids, depth, used, p));
        assert(kid_ok(its, kids, p, k));
        lemma_place_kept(its, kids, depth, used, p, ks[k], 0, dim, its.len() as nat);
        lemma_place_geometry(its, kids, depth, used, p, ks[k], 0, dim, its.len() as nat);
        if let Some(q) = place(its, p, ks[k], 0, dim, its.len() as nat) {
            lemma_geometry_forest(its, q.0, kids, depth, used);
            lemma_place_kids_kept(q.0, kids, depth, used, p, k + 1, dim);
            if let Some(r) = place_kids(q.0, ks, k + 1, p, dim) {
                lemma_kept_trans(its, q.0, r);
            }
        }
    } else {
        assert(sizes_kept(its, its));
    }
}

/// The positioning pass over a tree takes no item's requested extent away.
pub proof fn lemma_arrange_kept<H>(
    its: Seq<ItemImp<H>>,
    kids: Seq<Seq<int>>,
    depth: Seq<nat>,
    used: usize,
    item: int,
    dim: usize,
    fuel: nat,
)
    requires
        forest_ok(its, kids, depth, used),
        0 <= item < its.len(),
        dim < 2,
    ensures
        arrange(its, kids, item, dim, fuel) matches Some(r) ==> r.len() == its.len() && sizes_kept(its, r),
    decreases fuel, 0int, 0int,
{
    if fuel > 0 {
        lemma_place_kids_kept(its, kids, depth, used, item, 0, dim);
        lemma_place_kids_geometry(its, kids, depth, used, item, 0, dim);
        if let Some(its1) = place_kids(its, kids[item], 0, item, dim) {
            lemma_geometry_forest(its, its1, kids, depth, used);
            lemma_arrange_kids_kept(its1, kids, depth, used, item, 0, dim, (fuel - 1) as nat);
            if let Some(r) = arrange_kids(its1, kids, kids[item], 0, dim, (fuel - 1) as nat) {
                lemma_kept_trans(its, its1, r);
            }
        }
    }
}

/// The positioning pass over the trees of the kids `kids[p][k..]` takes no
/// item's requested extent away.
pub proof fn lemma_arrange_kids_kept<H>(
    its: Seq<ItemImp<H>>,
    kids: Seq<Seq<int>>,
    depth: Seq<nat>,
    used: usize,
    p: int,
    k: int,
    dim: usize,
    fuel: nat,
)
    requires
        forest_ok(its, kids, depth, used),
        0 <= p < its.len(),
        dim < 2,
    ensures
        arrange_kids(its, kids, kids[p], k, dim, fuel) matches Some(r) ==> r.len() == its.len() && sizes_kept(its, r),
    decreases fuel, 1int, kids[p].len() - k,
{
    let ks = kids[p];
    if 0 <= k < ks.len() {
        assert(item_ok(its, kids, depth, used, p));
        assert(kid_ok(its, kids, p, k));
        lemma_arrange_kept(its, kids, depth, used, ks[k], dim, fuel);
        lemma_arrange_geometry(its, kids, depth, used, ks[k], dim, fuel);
        if let Some(its2) = arrange(its, kids, ks[k], dim, fuel) {
            lemma_geometry_forest(its, its2, kids, depth, used);
            lemma_arrange_kids_kept(its2, kids, depth, used, p, k + 1, dim, fuel);
            if let Some(r) = arrange_kids(its2, kids, ks, k + 1, dim, fuel) {
                lemma_kept_trans(its, its2, r);
            }
        }
    } else {
        assert(sizes_kept(its, its));
    }
}

/// After layout, every item of the tree of the root that requested an extent
/// has that extent: a fixed size is a hard maximum, layout never stretches it.
pub proof fn lemma_laid_out_kept<H>(
    its: Seq<ItemImp<H>>,
    kids: Seq<Seq<int>>,
    depth: Seq<nat>,
    used: usize,
)
    requires
        forest_ok(its, kids, depth, used),
    ensures
        laid_out(its, kids, depth) matches Some(r) ==> forall|j: int, d: usize|
            0 <= j < its.len() && d < 2 && below(its, depth, j, 0) ==> #[trigger] keeps_size(r[j], d),
{
    if its.len() > 0 {
        let fuel = (its.len() - depth[0]) as nat;
        assert(same_but_geometry(its, its));
        lemma_best_kept(its, its, kids, depth, used, 0, 0, fuel);
        lemma_best_geometry(its, kids, depth, used, 0, 0, fuel);
        if let Some(a) = best(its, kids, 0, 0, fuel) {
            let r = a[0];
            let a1 = a.update(0, ItemImp { rect: Rect { x: r.margins[0], ..r.rect }, ..r });
            lemma_geometry_update(a, 0, ItemImp { rect: Rect { x: r.margins[0], ..r.rect }, ..r });
            lemma_geometry_trans(its, a, a1);
            lemma_geometry_forest(its, a1, kids, depth, used);
            assert(sizes_kept(a, a1));
            lemma_arrange_kept(a1, kids, depth, used, 0, 0, fuel);
            lemma_arrange_geometry(a1, kids, depth, used, 0, 0, fuel);
            if let Some(b) = arrange(a1, kids, 0, 0, fuel) {
                lemma_geometry_trans(its, a1, b);
                lemma_geometry_forest(its, b, kids, depth, used);
                lemma_best_kept(its, b, kids, depth, used, 0, 1, fuel);
                lemma_best_geometry(b, kids, depth, used, 0, 1, fuel);
                if let Some(c) = best(b, kids, 0, 1, fuel) {
                    lemma_geometry_trans(its, b, c);
                    lemma_geometry_forest(its, c, kids, depth, used);
                    let r2 = c[0];
                    let c1 = c.update(0, ItemImp { rect: Rect { y: r2.margins[1], ..r2.rect }, ..r2 });
                    lemma_geometry_update(c, 0, ItemImp { rect: Rect { y: r2.margins[1], ..r2.rect }, ..r2 });
                    lemma_geometry_trans(its, c, c1);
                    lemma_geometry_forest(its, c1, kids, depth, used);
                    assert(sizes_kept(c, c1));
                    lemma_arrange_kept(c1, kids, depth, used, 0, 1, fuel);
                    if let Some(d) = arrange(c1, kids, 0, 1, fuel) {
                        lemma_kept_trans(a, a1, b);
                        lemma_kept_trans(c, c1, d);
                        assert forall|j: int, dd: usize|
                            0 <= j < its.len() && dd < 2 && below(its, depth, j, 0) implies #[trigger] keeps_size(d[j], dd) by {
                            if dd == 0 {
                                assert(keeps_size(a[j], 0));
                                assert(keeps_size(b[j], 0));
                                assert(keeps_size(c[j], 0));
                            } else {
                                assert(keeps_size(c[j], 1));
                            }
                        }
                    }
                }
            }
        }
    }
}


/// The number of the first `n` items not yet placed along `dim`.
pub open spec fn unplaced<H>(its: Seq<ItemImp<H>>, dim: usize, n: int) -> nat
    decreases n,
{
    if n <= 0 {
        0
    } else {
        unplaced(its, dim, n - 1) + if its[n - 1].visited & placed_bit(dim) == 0 {
            1nat
        } else {
            0nat
        }
    }
}

/// Every item placed along `dim` in `its1` is placed in `its2`.
pub open spec fn placed_grow<H>(its1: Seq<ItemImp<H>>, its2: Seq<ItemImp<H>>, dim: usize) -> bool {
    &&& its1.len() == its2.len()
    &&& forall|j: int|
        0 <= j < its1.len() && #[trigger] its1[j].visited & placed_bit(dim) != 0 ==> its2[j].visited
            & placed_bit(dim) != 0
}

/// Setting the placed bit makes an item placed.
pub proof fn lemma_placed_bit(v: u32, dim: usize)
    requires
        dim < 2,
    ensures
        (v | placed_bit(dim)) & placed_bit(dim) != 0,
{
    let b = placed_bit(dim);
    assert(b == 4 || b == 8) by (bit_vector)
        requires
            b == 4u32 << dim,
            dim < 2,
    ;
    assert((v | b) & b != 0) by (bit_vector)
        requires
            b == 4 || b == 8,
    ;
}

/// Fewer items are unplaced after more got placed.
pub proof fn lemma_unplaced_mono<H>(its1: Seq<ItemImp<H>>, its2: Seq<ItemImp<H>>, dim: usize, n: int)
    requires
        placed_grow(its1, its2, dim),
        n <= its1.len(),
    ensures
        unplaced(its2, dim, n) <= unplaced(its1, dim, n),
    decreases n,
{
    if n > 0 {
        lemma_unplaced_mono(its1, its2, dim, n - 1);
    }
}

/// Placing one unplaced item leaves one item fewer unplaced.
pub proof fn lemma_unplaced_mark<H>(its: Seq<ItemImp<H>>, i: int, dim: usize, n: int)
    requires
        0 <= i < its.len(),
        n <= its.len(),
        dim < 2,
        its[i].visited & placed_bit(dim) == 0,
    ensures
        i < n ==> unplaced(its.update(i, ItemImp { visited: its[i].visited | placed_bit(dim), ..its[i] }), dim, n) + 1
            == unplaced(its, dim, n),
        i >= n ==> unplaced(its.update(i, ItemImp { visited: its[i].visited | placed_bit(dim), ..its[i] }), dim, n)
            == unplaced(its, dim, n),
    decreases n,
{
    if n > 0 {
        lemma_unplaced_mark(its, i, dim, n - 1);
        lemma_placed_bit(its[i].visited, dim);
    }
}

/// Placed bits that grow twice grow.
pub proof fn lemma_grow_trans<H>(a: Seq<ItemImp<H>>, b: Seq<ItemImp<H>>, c: Seq<ItemImp<H>>, dim: usize)
    requires
        placed_grow(a, b, dim),
        placed_grow(b, c, dim),
    ensures
        placed_grow(a, c, dim),
{
    assert forall|j: int| 0 <= j < a.len() && #[trigger] a[j].visited & placed_bit(dim) != 0 implies c[j].visited
        & placed_bit(dim) != 0 by {
        assert(b[j].visited & placed_bit(dim) != 0);
    }
}

/// A change of geometry that keeps visited flags keeps placed bits.
pub proof fn lemma_grow_same_visited<H>(a: Seq<ItemImp<H>>, b: Seq<ItemImp<H>>, dim: usize)
    requires
        a.len() == b.len(),
        forall|j: int| 0 <= j < a.len() ==> #[trigger] b[j].visited == a[j].visited,
    ensures
        placed_grow(a, b, dim),
{
}

/// Placing never clears a placed bit.
#[verifier::rlimit(60)]
pub proof fn lemma_place_grow<H>(
    its: Seq<ItemImp<H>>,
    kids: Seq<Seq<int>>,
    depth: Seq<nat>,
    used: usize,
    parent: int,
    item: int,
    dc: i32,
    dim: usize,
    fuel: nat,
)
    requires
        forest_ok(its, kids, depth, used),
        0 <= parent < its.len(),
        0 <= item < its.len(),
        dim < 2,
    ensures
        place(its, parent, item, dc, dim, fuel) matches Some(q) ==> placed_grow(its, q.0, dim),
        place(its, parent, item, dc, dim, fuel) matches Some(q) ==> q.0[item].visited & placed_bit(dim)
            != 0,
    decreases fuel,
{
    lemma_place_geometry(its, kids, depth, used, parent, item, dc, dim, fuel);
    let it = its[item];
    if it.visited & placed_bit(dim) == 0 && fuel > 0 {
        assert(item_ok(its, kids, depth, used, item));
        let wdim = dim + 2;
        let its1 = its.update(item, ItemImp { visited: it.visited | placed_bit(dim), ..it });
        lemma_geometry_update(its, item, ItemImp { visited: it.visited | placed_bit(dim), ..it });
        lemma_geometry_forest(its, its1, kids, depth, used);
        lemma_placed_bit(it.visited, dim);
        assert(placed_grow(its, its1, dim));
        let dc1 = if it.size.at(dim as int) == 0 {
            dc.wrapping_add(1)
        } else {
            dc
        };
        let flags = it.layout_flags >> dim;
        let l = it.relto[dim as int];
        let r = it.relto[wdim as int];
        let hasl = flags & LEFT != 0 && l.is_valid();
        let hasr = flags & RIGHT != 0 && r.is_valid();
        assert(its[item].refs_ok(its.len() as int));
        assert(ref_ok(l, its.len() as int) && ref_ok(r, its.len() as int)) by {
            if dim == 0 {
            } else {
            }
        }
        let mut its2 = its1;
        let mut dc2 = dc1;
        if hasl {
            lemma_place_grow(its1, kids, depth, used, parent, l.id(), dc1, dim, (fuel - 1) as nat);
            lemma_place_geometry(its1, kids, depth, used, parent, l.id(), dc1, dim, (fuel - 1) as nat);
            if let Some(q) = place(its1, parent, l.id(), dc1, dim, (fuel - 1) as nat) {
                its2 = q.0;
                dc2 = q.1;
                lemma_geometry_trans(its, its1, its2);
                lemma_geometry_forest(its, its2, kids, depth, used);
            }
        }
        if hasl && place(its1, parent, l.id(), dc1, dim, (fuel - 1) as nat) is None {
        } else {
            if hasl {
                lemma_grow_trans(its, its1, its2, dim);
            }
            assert(placed_grow(its, its2, dim));
            let mut its3 = its2;
            if hasr {
                lemma_place_grow(its2, kids, depth, used, parent, r.id(), dc2, dim, (fuel - 1) as nat);
                if let Some(q) = place(its2, parent, r.id(), dc2, dim, (fuel - 1) as nat) {
                    its3 = q.0;
                    lemma_grow_trans(its, its2, its3, dim);
                }
            }
            if hasr && place(its2, parent, r.id(), dc2, dim, (fuel - 1) as nat) is None {
            } else {
                assert(placed_grow(its, its3, dim));
                if let Some(q) = place(its, parent, item, dc, dim, fuel) {
                    let x = if hasl {
                        near_edge(its2[l.id()], dim)
                    } else {
                        0i32
                    };
                    let s0 = its1[parent].rect.at(wdim as int);
                    let s1 = if hasl {
                        s0.wrapping_sub(x)
                    } else {
                        s0
                    };
                    let sr = if hasr {
                        far_space(its3[r.id()], dim, x)
                    } else {
                        s1
                    };
                    let dc3 = if hasr {
                        place(its2, parent, r.id(), dc2, dim, (fuel - 1) as nat).unwrap().1
                    } else {
                        dc2
                    };
                    lemma_position_geometry(its3, parent, item, dim, x, sr, hasl, dc3);
                    assert(position(its3, parent, item, dim, x, sr, hasl, dc3) == Some(q.0));
                    lemma_grow_same_visited(its3, q.0, dim);
                    lemma_grow_trans(its, its3, q.0, dim);
                    assert(placed_grow(its1, its2, dim));
                    assert(placed_grow(its2, its3, dim));
                    lemma_grow_trans(its1, its2, its3, dim);
                    lemma_grow_trans(its1, its3, q.0, dim);
                    assert(its1[item].visited & placed_bit(dim) != 0);
                }
            }
        }
    }
}

/// Placing leaves every item that was already placed as it was.
#[verifier::rlimit(60)]
pub proof fn lemma_place_keeps<H>(
    its: Seq<ItemImp<H>>,
    kids: Seq<Seq<int>>,
    depth: Seq<nat>,
    used: usize,
    parent: int,
    item: int,
    dc: i32,
    dim: usize,
    fuel: nat,
)
    requires
        forest_ok(its, kids, depth, used),
        0 <= parent < its.len(),
        0 <= item < its.len(),
        dim < 2,
    ensures
        place(its, parent, item, dc, dim, fuel) matches Some(q) ==> forall|j: int|
            0 <= j < its.len() && #[trigger] its[j].visited & placed_bit(dim) != 0 ==> q.0[j] == its[j],
    decreases fuel,
{
    lemma_place_geometry(its, kids, depth, used, parent, item, dc, dim, fuel);
    let it = its[item];
    if it.visited & placed_bit(dim) == 0 && fuel > 0 {
        assert(item_ok(its, kids, depth, used, item));
        let wdim = dim + 2;
        let its1 = its.update(item, ItemImp { visited: it.visited | placed_bit(dim), ..it });
        lemma_geometry_update(its, item, ItemImp { visited: it.visited | placed_bit(dim), ..it });
        lemma_geometry_forest(its, its1, kids, depth, used);
        let dc1 = if it.size.at(dim as int) == 0 {
            dc.wrapping_add(1)
        } else {
            dc
        };
        let f1 = (fuel - 1) as nat;
        let flags = it.layout_flags >> dim;
        let l = it.relto[dim as int];
        let r = it.relto[wdim as int];
        let hasl = flags & LEFT != 0 && l.is_valid();
        let hasr = flags & RIGHT != 0 && r.is_valid();
        assert(its[item].refs_ok(its.len() as int));
        assert(ref_ok(l, its.len() as int) && ref_ok(r, its.len() as int)) by {
            if dim == 0 {
            } else {
            }
        }
        let mut its2 = its1;
        let mut dc2 = dc1;
        if hasl {
            lemma_place_keeps(its1, kids, depth, used, parent, l.id(), dc1, dim, f1);
            lemma_place_geometry(its1, kids, depth, used, parent, l.id(), dc1, dim, f1);
            if let Some(q) = place(its1, parent, l.id(), dc1, dim, f1) {
                its2 = q.0;
                dc2 = q.1;
                lemma_geometry_trans(its, its1, its2);
                lemma_geometry_forest(its, its2, kids, depth, used);
            }
        }
        if !(hasl && place(its1, parent, l.id(), dc1, dim, f1) is None) {
            assert forall|j: int| 0 <= j < its.len() && #[trigger] its[j].visited & placed_bit(dim) != 0 implies its2[j]
                == its[j] by {
                assert(j != item);
                assert(its1[j] == its[j]);
            }
            let mut its3 = its2;
            if hasr {
                lemma_place_keeps(its2, kids, depth, used, parent, r.id(), dc2, dim, f1);
                lemma_place_geometry(its2, kids, depth, used, parent, r.id(), dc2, dim, f1);
                if let Some(q) = place(its2, parent, r.id(), dc2, dim, f1) {
                    its3 = q.0;
                    assert forall|j: int| 0 <= j < its.len() && #[trigger] its[j].visited & placed_bit(dim) != 0 implies its3[j]
                        == its[j] by {
                        assert(its2[j] == its[j]);
                        assert(its2[j].visited & placed_bit(dim) != 0);
                    }
                }
            }
            if !(hasr && place(its2, parent, r.id(), dc2, dim, f1) is None) {
                assert(forall|j: int| 0 <= j < its.len() && #[trigger] its[j].visited & placed_bit(dim) != 0 ==> its3[j]
                    == its[j]);
                if let Some(q) = place(its, parent, item, dc, dim, fuel) {
                    let x = if hasl {
                        near_edge(its2[l.id()], dim)
                    } else {
                        0i32
                    };
                    let s0 = its1[parent].rect.at(wdim as int);
                    let s1 = if hasl {
                        s0.wrapping_sub(x)
                    } else {
                        s0
                    };
                    let sr = if hasr {
                        far_space(its3[r.id()], dim, x)
                    } else {
                        s1
                    };
                    let dc3 = if hasr {
                        place(its2, parent, r.id(), dc2, dim, f1).unwrap().1
                    } else {
                        dc2
                    };
                    assert(position(its3, parent, item, dim, x, sr, hasl, dc3) == Some(q.0));
                    lemma_position_geometry(its3, parent, item, dim, x, sr, hasl, dc3);
                    assert forall|j: int| 0 <= j < its.len() && #[trigger] its[j].visited & placed_bit(dim) != 0 implies q.0[j]
                        == its[j] by {
                        assert(j != item);
                        assert(its3[j] == its[j]);
                    }
                }
            }
        }
    }
}

/// With at least as much fuel as there are unplaced items, placing never runs
/// out of fuel: one more unit changes nothing.
pub proof fn lemma_place_fuel<H>(
    its: Seq<ItemImp<H>>,
    kids: Seq<Seq<int>>,
    depth: Seq<nat>,
    used: usize,
    parent: int,
    item: int,
    dc: i32,
    dim: usize,
    fuel: nat,
)
    requires
        forest_ok(its, kids, depth, used),
        0 <= parent < its.len(),
        0 <= item < its.len(),
        dim < 2,
        fuel >= unplaced(its, dim, its.len() as int),
    ensures
        place(its, parent, item, dc, dim, fuel) == place(its, parent, item, dc, dim, fuel + 1),
    decreases fuel,
{
    let it = its[item];
    if it.visited & placed_bit(dim) == 0 {
        let n = its.len() as int;
        let wdim = dim + 2;
        let its1 = its.update(item, ItemImp { visited: it.visited | placed_bit(dim), ..it });
        lemma_unplaced_mark(its, item, dim, n);
        assert(fuel >= 1);
        lemma_geometry_update(its, item, ItemImp { visited: it.visited | placed_bit(dim), ..it });
        lemma_geometry_forest(its, its1, kids, depth, used);
        assert(item_ok(its, kids, depth, used, item));
        let dc1 = if it.size.at(dim as int) == 0 {
            dc.wrapping_add(1)
        } else {
            dc
        };
        let flags = it.layout_flags >> dim;
        let l = it.relto[dim as int];
        let r = it.relto[wdim as int];
        let hasl = flags & LEFT != 0 && l.is_valid();
        let hasr = flags & RIGHT != 0 && r.is_valid();
        assert(its[item].refs_ok(its.len() as int));
        assert(ref_ok(l, its.len() as int) && ref_ok(r, its.len() as int)) by {
            if dim == 0 {
            } else {
            }
        }
        let f1 = (fuel - 1) as nat;
        let mut its2 = its1;
        let mut dc2 = dc1;
        if hasl {
            lemma_place_fuel(its1, kids, depth, used, parent, l.id(), dc1, dim, f1);
            lemma_place_grow(its1, kids, depth, used, parent, l.id(), dc1, dim, f1);
            lemma_place_geometry(its1, kids, depth, used, parent, l.id(), dc1, dim, f1);
            if let Some(q) = place(its1, parent, l.id(), dc1, dim, f1) {
                its2 = q.0;
                dc2 = q.1;
                lemma_unplaced_mono(its1, its2, dim, n);
                lemma_geometry_trans(its, its1, its2);
                lemma_geometry_forest(its, its2, kids, depth, used);
            }
        }
        if hasl && place(its1, parent, l.id(), dc1, dim, f1) is None {
        } else if hasr {
            lemma_place_fuel(its2, kids, depth, used, parent, r.id(), dc2, dim, f1);
        }
    }
}

/// With at least as much fuel as there are unplaced items, adding fuel changes
/// nothing.
pub proof fn lemma_place_fuel_more<H>(
    its: Seq<ItemImp<H>>,
    kids: Seq<Seq<int>>,
    depth: Seq<nat>,
    used: usize,
    parent: int,
    item: int,
    dc: i32,
    dim: usize,
    fuel: nat,
    extra: nat,
)
    requires
        forest_ok(its, kids, depth, used),
        0 <= parent < its.len(),
        0 <= item < its.len(),
        dim < 2,
        fuel >= unplaced(its, dim, its.len() as int),
    ensures
        place(its, parent, item, dc, dim, fuel) == place(its, parent, item, dc, dim, fuel + extra),
    decreases extra,
{
    if extra > 0 {
        lemma_place_fuel(its, kids, depth, used, parent, item, dc, dim, fuel);
        lemma_place_fuel_more(its, kids, depth, used, parent, item, dc, dim, fuel + 1, (extra - 1) as nat);
    }
}

/// No more of the first `n` items are unplaced than `n`.
pub proof fn lemma_unplaced_le<H>(its: Seq<ItemImp<H>>, dim: usize, n: int)
    requires
        0 <= n,
    ensures
        unplaced(its, dim, n) <= n,
    decreases n,
{
    if n > 0 {
        lemma_unplaced_le(its, dim, n - 1);
    }
}

/// Every kid listed in `kids` is one of `n` items, one level deeper than its
/// parent, and every item lies less deep than there are items.
pub open spec fn depths_ok(kids: Seq<Seq<int>>, depth: Seq<nat>, n: int) -> bool {
    &&& kids.len() == n
    &&& depth.len() == n
    &&& forall|i: int| 0 <= i < n ==> #[trigger] depth[i] < n
    &&& forall|i: int, k: int|
        0 <= i < n && 0 <= k < kids[i].len() ==> 0 <= #[trigger] kids[i][k] < n && depth[kids[i][k]]
            == depth[i] + 1
}

/// A consistent forest has consistent depths.
pub proof fn lemma_forest_depths<H>(
    items: Seq<ItemImp<H>>,
    kids: Seq<Seq<int>>,
    depth: Seq<nat>,
    used: usize,
)
    requires
        forest_ok(items, kids, depth, used),
    ensures
        depths_ok(kids, depth, items.len() as int),
{
    let n = items.len() as int;
    assert forall|i: int| 0 <= i < n implies #[trigger] depth[i] < n by {
        lemma_depth_bound(items, kids, depth, used, i);
    }
    assert forall|i: int, k: int| 0 <= i < n && 0 <= k < kids[i].len() implies 0 <= #[trigger] kids[i][k] < n
        && depth[kids[i][k]] == depth[i] + 1 by {
        assert(item_ok(items, kids, depth, used, i));
        assert(kid_ok(items, kids, i, k));
        assert(item_ok(items, kids, depth, used, kids[i][k]));
    }
}

/// The size pass below `item` with fuel for the depth left below it is as with
/// one unit more.
pub proof fn lemma_best_fuel<H>(
    its: Seq<ItemImp<H>>,
    kids: Seq<Seq<int>>,
    depth: Seq<nat>,
    n: int,
    item: int,
    dim: usize,
    fuel: nat,
)
    requires
        depths_ok(kids, depth, n),
        0 <= item < n,
        fuel >= n - depth[item],
    ensures
        best(its, kids, item, dim, fuel) == best(its, kids, item, dim, fuel + 1),
    decreases fuel, 0int, 0int,
{
    let its1 = its.update(item, ItemImp { visited: 0, ..its[item] });
    lemma_best_kids_fuel(its1, kids, depth, n, item, 0, dim, (fuel - 1) as nat);
}

/// The size pass below the kids `k..` of `parent` with fuel for the depth left
/// below them is as with one unit more.
pub proof fn lemma_best_kids_fuel<H>(
    its: Seq<ItemImp<H>>,
    kids: Seq<Seq<int>>,
    depth: Seq<nat>,
    n: int,
    parent: int,
    k: int,
    dim: usize,
    fuel: nat,
)
    requires
        depths_ok(kids, depth, n),
        0 <= parent < n,
        fuel + 1 >= n - depth[parent],
    ensures
        best_kids(its, kids, kids[parent], k, dim, fuel) == best_kids(its, kids, kids[parent], k, dim, fuel + 1),
    decreases fuel, 1int, kids[parent].len() - k,
{
    let ks = kids[parent];
    if 0 <= k < ks.len() {
        lemma_best_fuel(its, kids, depth, n, ks[k], dim, fuel);
        if let Some(its2) = best(its, kids, ks[k], dim, fuel) {
            lemma_best_kids_fuel(its2, kids, depth, n, parent, k + 1, dim, fuel);
        }
    }
}

/// The positioning pass below `item` with fuel for the depth left below it is
/// as with one unit more.
pub proof fn lemma_arrange_fuel<H>(
    its: Seq<ItemImp<H>>,
    kids: Seq<Seq<int>>,
    depth: Seq<nat>,
    n: int,
    item: int,
    dim: usize,
    fuel: nat,
)
    requires
        depths_ok(kids, depth, n),
        0 <= item < n,
        fuel >= n - depth[item],
    ensures
        arrange(its, kids, item, dim, fuel) == arrange(its, kids, item, dim, fuel + 1),
    decreases fuel, 0int, 0int,
{
    if let Some(its1) = place_kids(its, kids[item], 0, item, dim) {
        lemma_arrange_kids_fuel(its1, kids, depth, n, item, 0, dim, (fuel - 1) as nat);
    }
}

/// The positioning pass below the kids `k..` of `parent` with fuel for the
/// depth left below them is as with one unit more.
pub proof fn lemma_arrange_kids_fuel<H>(
    its: Seq<ItemImp<H>>,
    kids: Seq<Seq<int>>,
    depth: Seq<nat>,
    n: int,
    parent: int,
    k: int,
    dim: usize,
    fuel: nat,
)
    requires
        depths_ok(kids, depth, n),
        0 <= parent < n,
        fuel + 1 >= n - depth[parent],
    ensures
        arrange_kids(its, kids, kids[parent], k, dim, fuel) == arrange_kids(
            its,
            kids,
            kids[parent],
            k,
            dim,
            fuel + 1,
        ),
    decreases fuel, 1int, kids[parent].len() - k,
{
    let ks = kids[parent];
    if 0 <= k < ks.len() {
        lemma_arrange_fuel(its, kids, depth, n, ks[k], dim, fuel);
        if let Some(its2) = arrange(its, kids, ks[k], dim, fuel) {
            lemma_arrange_kids_fuel(its2, kids, depth, n, parent, k + 1, dim, fuel);
        }
    }
}

/// Laying out with fuel for the depth of the root's tree is as with any more.
pub proof fn lemma_laid_out_fuel<H>(
    its: Seq<ItemImp<H>>,
    kids: Seq<Seq<int>>,
    depth: Seq<nat>,
    fuel: nat,
    extra: nat,
)
    requires
        depths_ok(kids, depth, its.len() as int),
        its.len() > 0 ==> fuel >= its.len() - depth[0],
    ensures
        laid_out_with(its, kids, fuel) == laid_out_with(its, kids, fuel + extra),
    decreases extra,
{
    if extra > 0 && its.len() > 0 {
        let n = its.len() as int;
        lemma_best_fuel(its, kids, depth, n, 0, 0, fuel);
        if let Some(a) = best(its, kids, 0, 0, fuel) {
            let r = a[0];
            let a1 = a.update(0, ItemImp { rect: Rect { x: r.margins[0], ..r.rect }, ..r });
            lemma_arrange_fuel(a1, kids, depth, n, 0, 0, fuel);
            if let Some(b) = arrange(a1, kids, 0, 0, fuel) {
                lemma_best_fuel(b, kids, depth, n, 0, 1, fuel);
                if let Some(c) = best(b, kids, 0, 1, fuel) {
                    let r2 = c[0];
                    let c1 = c.update(0, ItemImp { rect: Rect { y: r2.margins[1], ..r2.rect }, ..r2 });
                    lemma_arrange_fuel(c1, kids, depth, n, 0, 1, fuel);
                }
            }
        }
        lemma_laid_out_fuel(its, kids, depth, fuel + 1, (extra - 1) as nat);
    }
}

/// Setting a bit twice sets it once.
pub proof fn lemma_or_idem(v: u32, b: u32)
    ensures
        (v | b) | b == v | b,
{
    assert((v | b) | b == v | b) by (bit_vector);
}

/// Marking no item changes nothing.
pub proof fn lemma_mark_empty<H>(its: Seq<ItemImp<H>>, bit: u32)
    ensures
        mark(its, seq![], bit) == its,
{
    assert(mark(its, seq![], bit) =~= its);
}

/// Marking one more item sets its bit.
pub proof fn lemma_mark_push<H>(its: Seq<ItemImp<H>>, s: Seq<int>, x: int, bit: u32)
    requires
        0 <= x < its.len(),
    ensures
        mark(its, s.push(x), bit) == mark(its, s, bit).update(
            x,
            ItemImp { visited: mark(its, s, bit)[x].visited | bit, ..mark(its, s, bit)[x] },
        ),
{
    let a = mark(its, s.push(x), bit);
    let b = mark(its, s, bit).update(
        x,
        ItemImp { visited: mark(its, s, bit)[x].visited | bit, ..mark(its, s, bit)[x] },
    );
    assert forall|j: int| 0 <= j < its.len() implies a[j] == b[j] by {
        if j == x {
            assert(s.push(x)[s.len() as int] == x);
            lemma_or_idem(its[x].visited, bit);
        } else {
            if s.push(x).contains(j) {
                let k = choose|k: int| 0 <= k < s.push(x).len() && s.push(x)[k] == j;
                assert(s[k] == j);
            }
            if s.contains(j) {
                let k = choose|k: int| 0 <= k < s.len() && s[k] == j;
                assert(s.push(x)[k] == j);
            }
        }
    }
    assert(a =~= b);
}

/// Adding one more item to a sum adds its share.
pub proof fn lemma_shares_push<H>(its: Seq<ItemImp<H>>, s: Seq<int>, x: int, dim: usize, hard: bool)
    ensures
        shares(its, s.push(x), dim, hard) == shares(its, s, dim, hard).wrapping_add(
            share(its[x], dim, hard),
        ),
{
    assert(s.push(x).drop_last() =~= s);
}

impl<Wgt, H: EventHandler<Wgt>> Context<Wgt, H> {
    fn compute_chain_size(
        &mut self,
        item: Item,
        need_size: &mut i32,
        hard_size: &mut i32,
        dim: usize,
    )
        requires
            old(self)@.has(item),
            dim < 2,
            chain(old(self)@.items, item.id(), dim) is Some,
        ensures
            final(self)@ == (ContextModel {
                items: chain(old(self)@.items, item.id(), dim).unwrap().0,
                ..old(self)@
            }),
            *final(need_size) == chain(old(self)@.items, item.id(), dim).unwrap().1,
            *final(hard_size) == chain(old(self)@.items, item.id(), dim).unwrap().2,
    {
        proof {
            use_type_invariant(&*self);
        }
        let ghost m = self@;
        let ghost its0 = self@.items;
        let ghost i = item.id();
        let ghost l = chain_from(its0, i, dim, false, CHAIN_STEPS as nat).unwrap();
        let ghost r = chain_from(its0, i, dim, true, CHAIN_STEPS as nat).unwrap();
        let ghost bit = chain_bit(dim);
        let wdim = dim + 2;
        let pitem = *self.get(item);
        let mut size = pitem.rect.index(wdim).wrapping_add(pitem.margins[dim]).wrapping_add(
            pitem.margins[wdim],
        );
        *need_size = size;
        *hard_size = if pitem.size.index(dim) > 0 {
            size
        } else {
            0
        };
        let mut it = pitem;
        it.visited = it.visited | (1u32 << dim);
        self.put(item, it);
        proof {
            lemma_mark_empty(its0, bit);
            lemma_mark_push(its0, seq![], i, bit);
            assert(seq![i] =~= Seq::<int>::empty().push(i));
            assert(self@.items == mark(its0, seq![i], bit));
            lemma_shares_push(its0, seq![], i, dim, false);
            lemma_shares_push(its0, seq![], i, dim, true);
            assert(seq![i] + Seq::<int>::empty() =~= seq![i]);
        }
        // traverse along near neighbours
        let mut iter: u32 = 0;
        let mut prev = item;
        let ghost mut steps: Seq<int> = seq![];
        loop
            invariant
                m.wf(),
                m.has(item),
                its0 == m.items,
                i == item.id(),
                dim < 2,
                wdim == dim + 2,
                bit == chain_bit(dim),
                iter <= CHAIN_STEPS,
                steps.len() == iter,
                forall|k: int| 0 <= k < steps.len() ==> 0 <= #[trigger] steps[k] < its0.len(),
                prev.id() == (if steps.len() == 0 {
                    i
                } else {
                    steps.last()
                }),
                chain_from(its0, prev.id(), dim, false, (CHAIN_STEPS - iter) as nat) is Some,
                l == steps + chain_from(its0, prev.id(), dim, false, (CHAIN_STEPS - iter) as nat).unwrap(),
                self@ == (ContextModel { items: mark(its0, seq![i] + steps, bit), ..m }),
                *need_size == shares(its0, seq![i] + steps, dim, false),
                *hard_size == shares(its0, seq![i] + steps, dim, true),
            ensures
                steps == l,
                self@ == (ContextModel { items: mark(its0, seq![i] + steps, bit), ..m }),
                *need_size == shares(its0, seq![i] + steps, dim, false),
                *hard_size == shares(its0, seq![i] + steps, dim, true),
            decreases CHAIN_STEPS - iter,
        {
            proof {
                use_type_invariant(&*self);
                assert(item_ok(its0, m.kids, m.depth, m.datasize, prev.id()));
            }
            let cur = *self.get(prev);
            if (cur.layout_flags >> dim) & LEFT == 0 {
                proof {
                    assert(chain_from(its0, prev.id(), dim, false, (CHAIN_STEPS - iter) as nat) == Some(Seq::<int>::empty()));
                    assert(l =~= steps);
                }
                break;
            }
            let nxt = cur.relto[dim];
            if nxt.invalid() {
                proof {
                    assert(l =~= steps);
                }
                break;
            }
            proof {
                assert(item_ok(its0, m.kids, m.depth, m.datasize, nxt.id()));
            }
            prev = nxt;
            let mut p = *self.get(prev);
            let ghost s0 = seq![i] + steps;
            let ghost s1 = seq![i] + steps.push(prev.id());
            proof {
                assert(s1 =~= s0.push(prev.id()));
                lemma_mark_push(its0, s0, prev.id(), bit);
                lemma_shares_push(its0, s0, prev.id(), dim, false);
                lemma_shares_push(its0, s0, prev.id(), dim, true);
            }
            p.visited = p.visited | (1u32 << dim);
            self.put(prev, p);
            size = p.rect.index(wdim).wrapping_add(p.margins[dim]).wrapping_add(p.margins[wdim]);
            *need_size = (*need_size).wrapping_add(size);
            *hard_size = (*hard_size).wrapping_add(
                if p.size.index(dim) > 0 {
                    size
                } else {
                    0
                },
            );
            iter = iter + 1;
            proof {
                steps = steps.push(prev.id());
                assert(l =~= steps + chain_from(its0, prev.id(), dim, false, (CHAIN_STEPS - iter) as nat).unwrap());
            }
        }
        // traverse along far neighbours
        let ghost base = seq![i] + l;
        let mut iter: u32 = 0;
        let mut next = item;
        let ghost mut steps: Seq<int> = seq![];
        proof {
            assert(base + steps =~= base);
        }
        loop
            invariant
                m.wf(),
                m.has(item),
                its0 == m.items,
                i == item.id(),
                dim < 2,
                wdim == dim + 2,
                bit == chain_bit(dim),
                base == seq![i] + l,
                iter <= CHAIN_STEPS,
                steps.len() == iter,
                forall|k: int| 0 <= k < steps.len() ==> 0 <= #[trigger] steps[k] < its0.len(),
                next.id() == (if steps.len() == 0 {
                    i
                } else {
                    steps.last()
                }),
                chain_from(its0, next.id(), dim, true, (CHAIN_STEPS - iter) as nat) is Some,
                r == steps + chain_from(its0, next.id(), dim, true, (CHAIN_STEPS - iter) as nat).unwrap(),
                self@ == (ContextModel { items: mark(its0, base + steps, bit), ..m }),
                *need_size == shares(its0, base + steps, dim, false),
                *hard_size == shares(its0, base + steps, dim, true),
            ensures
                steps == r,
                self@ == (ContextModel { items: mark(its0, base + steps, bit), ..m }),
                *need_size == shares(its0, base + steps, dim, false),
                *hard_size == shares(its0, base + steps, dim, true),
            decreases CHAIN_STEPS - iter,
        {
            proof {
                use_type_invariant(&*self);
                assert(item_ok(its0, m.kids, m.depth, m.datasize, next.id()));
            }
            let cur = *self.get(next);
            if (cur.layout_flags >> dim) & RIGHT == 0 {
                proof {
                    assert(chain_from(its0, next.id(), dim, true, (CHAIN_STEPS - iter) as nat) == Some(Seq::<int>::empty()));
                    assert(r =~= steps);
                }
                break;
            }
            let nxt = cur.relto[wdim];
            if nxt.invalid() {
                proof {
                    assert(r =~= steps);
                }
                break;
            }
            proof {
                assert(item_ok(its0, m.kids, m.depth, m.datasize, nxt.id()));
            }
            next = nxt;
            let mut p = *self.get(next);
            let ghost s0 = base + steps;
            let ghost s1 = base + steps.push(next.id());
            proof {
                assert(s1 =~= s0.push(next.id()));
                lemma_mark_push(its0, s0, next.id(), bit);
                lemma_shares_push(its0, s0, next.id(), dim, false);
                lemma_shares_push(its0, s0, next.id(), dim, true);
            }
            p.visited = p.visited | (1u32 << dim);
            self.put(next, p);
            size = p.rect.index(wdim).wrapping_add(p.margins[dim]).wrapping_add(p.margins[wdim]);
            *need_size = (*need_size).wrapping_add(size);
            *hard_size = (*hard_size).wrapping_add(
                if p.size.index(dim) > 0 {
                    size
                } else {
                    0
                },
            );
            iter = iter + 1;
            proof {
                steps = steps.push(next.id());
                assert(r =~= steps + chain_from(its0, next.id(), dim, true, (CHAIN_STEPS - iter) as nat).unwrap());
            }
        }
    }

    fn compute_size_dim(&mut self, item: Item, dim: usize)
        requires
            old(self)@.has(item),
            dim < 2,
            size_dim(old(self)@.items, old(self)@.kids[item.id()], item.id(), dim) is Some,
        ensures
            final(self)@ == (ContextModel {
                items: size_dim(old(self)@.items, old(self)@.kids[item.id()], item.id(), dim).unwrap(),
                ..old(self)@
            }),
    {
        proof {
            use_type_invariant(&*self);
        }
        let ghost m = self@;
        let ghost i = item.id();
        let ghost ks = m.kids[i];
        let wdim = dim + 2;
        let mut need_size: i32 = 0;
        let mut hard_size: i32 = 0;
        let mut kid = self.get(item).firstkid;
        let ghost mut k: int = 0;
        proof {
            assert(item_ok(m.items, m.kids, m.depth, m.datasize, i));
        }
        while kid.valid()
            invariant
                self@ == (ContextModel { items: self@.items, ..m }),
                self@.items.len() == m.items.len(),
                m.has(item),
                i == item.id(),
                ks == m.kids[i],
                dim < 2,
                0 <= k <= ks.len(),
                kid.id() == (if k < ks.len() {
                    ks[k]
                } else {
                    -1
                }),
                size_fold(m.items, ks, 0, dim, 0, 0) == size_fold(self@.items, ks, k, dim, need_size, hard_size),
                size_fold(m.items, ks, 0, dim, 0, 0) is Some,
            decreases ks.len() - k,
        {
            proof {
                use_type_invariant(&*self);
                assert(item_ok(self@.items, self@.kids, self@.depth, self@.datasize, i));
                assert(kid_ok(self@.items, self@.kids, i, k));
            }
            let visited = self.get(kid).visited;
            if visited & (1u32 << dim) == 0 {
                let mut ns: i32 = 0;
                let mut hs: i32 = 0;
                self.compute_chain_size(kid, &mut ns, &mut hs, dim);
                need_size = max(need_size, ns);
                hard_size = max(hard_size, hs);
            }
            proof {
                use_type_invariant(&*self);
                assert(item_ok(self@.items, self@.kids, self@.depth, self@.datasize, i));
                assert(kid_ok(self@.items, self@.kids, i, k));
            }
            kid = self.next_sibling(kid);
            proof {
                k = k + 1;
            }
        }
        proof {
            use_type_invariant(&*self);
            if k < ks.len() {
                assert(item_ok(self@.items, self@.kids, self@.depth, self@.datasize, i));
                assert(kid_ok(self@.items, self@.kids, i, k));
            }
        }
        let mut pitem = *self.get(item);
        *pitem.computed_size.index_mut(dim) = hard_size;
        if pitem.size.index(dim) > 0 {
            let sz = pitem.size.index(dim);
            *pitem.rect.index_mut(wdim) = sz;
        } else {
            *pitem.rect.index_mut(wdim) = need_size;
        }
        self.put(item, pitem);
    }

    fn compute_best_size(&mut self, item: Item, dim: usize)
        requires
            old(self)@.has(item),
            dim < 2,
            best(old(self)@.items, old(self)@.kids, item.id(), dim, old(self)@.height_bound(item)) is Some,
        ensures
            final(self)@ == (ContextModel {
                items: best(old(self)@.items, old(self)@.kids, item.id(), dim, old(self)@.height_bound(item)).unwrap(),
                ..old(self)@
            }),
        decreases old(self)@.height_bound(item),
    {
        proof {
            use_type_invariant(&*self);
            lemma_depth_bound(self@.items, self@.kids, self@.depth, self@.datasize, item.id());
        }
        let ghost m = self@;
        let ghost i = item.id();
        let ghost ks = m.kids[i];
        let ghost fuel = m.height_bound(item);
        let mut it = *self.get(item);
        it.visited = 0;
        self.put(item, it);
        let mut kid = self.first_child(item);
        let ghost mut k: int = 0;
        proof {
            assert(item_ok(m.items, m.kids, m.depth, m.datasize, i));
        }
        while kid.valid()
            invariant
                self@ == (ContextModel { items: self@.items, ..m }),
                old(self)@ == m,
                self@.items.len() == m.items.len(),
                m.wf(),
                m.has(item),
                i == item.id(),
                ks == m.kids[i],
                dim < 2,
                fuel == m.height_bound(item),
                fuel > 0,
                0 <= k <= ks.len(),
                kid.id() == (if k < ks.len() {
                    ks[k]
                } else {
                    -1
                }),
                best_kids(m.items.update(i, ItemImp { visited: 0, ..m.items[i] }), m.kids, ks, 0, dim, (fuel - 1) as nat)
                    == best_kids(self@.items, m.kids, ks, k, dim, (fuel - 1) as nat),
                best_kids(self@.items, m.kids, ks, k, dim, (fuel - 1) as nat) is Some,
            decreases ks.len() - k,
        {
            proof {
                use_type_invariant(&*self);
                assert(item_ok(self@.items, self@.kids, self@.depth, self@.datasize, i));
                assert(kid_ok(self@.items, self@.kids, i, k));
                let c = ks[k];
                assert(item_ok(m.items, m.kids, m.depth, m.datasize, i));
                assert(kid_ok(m.items, m.kids, i, k));
                assert(item_ok(m.items, m.kids, m.depth, m.datasize, c));
                lemma_depth_bound(m.items, m.kids, m.depth, m.datasize, c);
                assert(m.depth[c] == m.depth[i] + 1);
                assert(self@.height_bound(kid) == fuel - 1);
                assert(kid == Item::from_id(c));
            }
            self.compute_best_size(kid, dim);
            proof {
                use_type_invariant(&*self);
                assert(item_ok(self@.items, self@.kids, self@.depth, self@.datasize, i));
                assert(kid_ok(self@.items, self@.kids, i, k));
            }
            kid = self.next_sibling(kid);
            proof {
                k = k + 1;
            }
        }
        proof {
            use_type_invariant(&*self);
            if k < ks.len() {
                assert(item_ok(self@.items, self@.kids, self@.depth, self@.datasize, i));
                assert(kid_ok(self@.items, self@.kids, i, k));
            }
        }
        self.compute_size_dim(item, dim);
    }

    fn layout_child_item(
        &mut self,
        parent: Item,
        item: Item,
        dyncount: &mut i32,
        dim: usize,
        Ghost(fuel): Ghost<nat>,
    )
        requires
            old(self)@.has(parent),
            old(self)@.has(item),
            dim < 2,
            place(old(self)@.items, parent.id(), item.id(), *old(dyncount), dim, fuel) is Some,
        ensures
            final(self)@ == (ContextModel {
                items: place(old(self)@.items, parent.id(), item.id(), *old(dyncount), dim, fuel).unwrap().0,
                ..old(self)@
            }),
            *final(dyncount) == place(old(self)@.items, parent.id(), item.id(), *old(dyncount), dim, fuel).unwrap().1,
        decreases fuel,
    {
        proof {
            use_type_invariant(&*self);
        }
        let ghost m = self@;
        let ghost i = item.id();
        let ghost p = parent.id();
        let it0 = *self.get(item);
        if it0.visited & (4u32 << dim) != 0 {
            return ;
        }
        proof {
            assert(item_ok(m.items, m.kids, m.depth, m.datasize, i));
        }
        let mut it = it0;
        it.visited = it.visited | (4u32 << dim);
        self.put(item, it);
        if it0.size.index(dim) == 0 {
            *dyncount = (*dyncount).wrapping_add(1);
        }
        let wdim = dim + 2;
        let mut x: i32 = 0;
        let mut s = self.get(parent).rect.index(wdim);
        let flags = it0.layout_flags >> dim;
        let hasl = flags & LEFT != 0 && it0.relto[dim].valid();
        let hasr = flags & RIGHT != 0 && it0.relto[wdim].valid();
        if hasl {
            let l = it0.relto[dim];
            self.layout_child_item(parent, l, dyncount, dim, Ghost((fuel - 1) as nat));
            proof {
                use_type_invariant(&*self);
            }
            let pl = *self.get(l);
            x = pl.rect.index(dim).wrapping_add(pl.rect.index(wdim)).wrapping_add(pl.margins[wdim]);
            s = s.wrapping_sub(x);
        }
        if hasr {
            let r = it0.relto[wdim];
            self.layout_child_item(parent, r, dyncount, dim, Ghost((fuel - 1) as nat));
            proof {
                use_type_invariant(&*self);
            }
            let pr = *self.get(r);
            s = pr.rect.index(dim).wrapping_sub(pr.margins[dim]).wrapping_sub(x);
        }
        self.position_item(parent, item, dim, x, s, hasl, *dyncount);
    }

    fn position_item(
        &mut self,
        parent: Item,
        item: Item,
        dim: usize,
        x: i32,
        s: i32,
        hasl: bool,
        dyncount: i32,
    )
        requires
            old(self)@.has(parent),
            old(self)@.has(item),
            dim < 2,
            position(old(self)@.items, parent.id(), item.id(), dim, x, s, hasl, dyncount) is Some,
        ensures
            final(self)@ == (ContextModel {
                items: position(old(self)@.items, parent.id(), item.id(), dim, x, s, hasl, dyncount).unwrap(),
                ..old(self)@
            }),
    {
        let wdim = dim + 2;
        let mut cur = *self.get(item);
        let m0 = cur.margins[dim];
        let m2 = cur.margins[wdim];
        let fl = (cur.layout_flags >> dim) & HFILL;
        if fl == LEFT {
            *cur.rect.index_mut(dim) = x.wrapping_add(m0);
        } else if fl == RIGHT {
            let w = cur.rect.index(wdim);
            *cur.rect.index_mut(dim) = x.wrapping_add(s).wrapping_sub(w).wrapping_sub(m2);
        } else if fl == HFILL {
            if cur.size.index(dim) > 0 {
                if !hasl {
                    *cur.rect.index_mut(dim) = x.wrapping_add(m0);
                } else {
                    let w = cur.rect.index(wdim);
                    *cur.rect.index_mut(dim) = x.wrapping_add(s).wrapping_sub(w).wrapping_sub(m2);
                }
            } else {
                let pp = *self.get(parent);
                let width = pp.rect.index(wdim).wrapping_sub(pp.computed_size.index(dim));
                let space = width.checked_div(dyncount).unwrap();
                if !hasl {
                    *cur.rect.index_mut(dim) = x.wrapping_add(m0);
                    *cur.rect.index_mut(wdim) = s.wrapping_sub(m0).wrapping_sub(m2);
                } else {
                    let w2 = space.wrapping_sub(m0).wrapping_sub(m2);
                    *cur.rect.index_mut(wdim) = w2;
                    *cur.rect.index_mut(dim) = x.wrapping_add(s).wrapping_sub(w2).wrapping_sub(m2);
                }
            }
        } else {
            let w = cur.rect.index(wdim);
            let half = s.wrapping_sub(w).checked_div(2).unwrap();
            *cur.rect.index_mut(dim) = x.wrapping_add(half).wrapping_add(m0);
        }
        self.put(item, cur);
    }

    fn layout_item_dim(&mut self, item: Item, dim: usize)
        requires
            old(self)@.has(item),
            dim < 2,
            place_kids(old(self)@.items, old(self)@.kids[item.id()], 0, item.id(), dim) is Some,
        ensures
            final(self)@ == (ContextModel {
                items: place_kids(old(self)@.items, old(self)@.kids[item.id()], 0, item.id(), dim).unwrap(),
                ..old(self)@
            }),
    {
        proof {
            use_type_invariant(&*self);
        }
        let ghost m = self@;
        let ghost i = item.id();
        let ghost ks = m.kids[i];
        let mut kid = self.get(item).firstkid;
        let ghost mut k: int = 0;
        proof {
            assert(item_ok(m.items, m.kids, m.depth, m.datasize, i));
        }
        while kid.valid()
            invariant
                self@ == (ContextModel { items: self@.items, ..m }),
                self@.items.len() == m.items.len(),
                m.has(item),
                i == item.id(),
                ks == m.kids[i],
                dim < 2,
                0 <= k <= ks.len(),
                kid.id() == (if k < ks.len() {
                    ks[k]
                } else {
                    -1
                }),
                place_kids(m.items, ks, 0, i, dim) == place_kids(self@.items, ks, k, i, dim),
                place_kids(m.items, ks, 0, i, dim) is Some,
            decreases ks.len() - k,
        {
            proof {
                use_type_invariant(&*self);
                assert(item_ok(self@.items, self@.kids, self@.depth, self@.datasize, i));
                assert(kid_ok(self@.items, self@.kids, i, k));
            }
            let mut dyncount: i32 = 0;
            self.layout_child_item(item, kid, &mut dyncount, dim, Ghost(self@.items.len() as nat));
            proof {
                use_type_invariant(&*self);
                assert(item_ok(self@.items, self@.kids, self@.depth, self@.datasize, i));
                assert(kid_ok(self@.items, self@.kids, i, k));
            }
            kid = self.next_sibling(kid);
            proof {
                k = k + 1;
            }
        }
        proof {
            use_type_invariant(&*self);
            if k < ks.len() {
                assert(item_ok(self@.items, self@.kids, self@.depth, self@.datasize, i));
                assert(kid_ok(self@.items, self@.kids, i, k));
            }
        }
    }

    fn layout_item(&mut self, item: Item, dim: usize)
        requires
            old(self)@.has(item),
            dim < 2,
            arrange(old(self)@.items, old(self)@.kids, item.id(), dim, old(self)@.height_bound(item)) is Some,
        ensures
            final(self)@ == (ContextModel {
                items: arrange(old(self)@.items, old(self)@.kids, item.id(), dim, old(self)@.height_bound(item)).unwrap(),
                ..old(self)@
            }),
        decreases old(self)@.height_bound(item),
    {
        proof {
            use_type_invariant(&*self);
            lemma_depth_bound(self@.items, self@.kids, self@.depth, self@.datasize, item.id());
        }
        let ghost m = self@;
        let ghost i = item.id();
        let ghost ks = m.kids[i];
        let ghost fuel = m.height_bound(item);
        self.layout_item_dim(item, dim);
        proof {
            use_type_invariant(&*self);
        }
        let ghost m1 = self@;
        let mut kid = self.first_child(item);
        let ghost mut k: int = 0;
        proof {
            use_type_invariant(&*self);
            assert(item_ok(m1.items, m1.kids, m1.depth, m1.datasize, i));
        }
        while kid.valid()
            invariant
                self@ == (ContextModel { items: self@.items, ..m }),
                old(self)@ == m,
                self@.items.len() == m.items.len(),
                m.wf(),
                m.has(item),
                i == item.id(),
                ks == m.kids[i],
                dim < 2,
                fuel == m.height_bound(item),
                fuel > 0,
                0 <= k <= ks.len(),
                kid.id() == (if k < ks.len() {
                    ks[k]
                } else {
                    -1
                }),
                arrange_kids(m1.items, m.kids, ks, 0, dim, (fuel - 1) as nat) == arrange_kids(
                    self@.items,
                    m.kids,
                    ks,
                    k,
                    dim,
                    (fuel - 1) as nat,
                ),
                arrange_kids(self@.items, m.kids, ks, k, dim, (fuel - 1) as nat) is Some,
            decreases ks.len() - k,
        {
            proof {
                use_type_invariant(&*self);
                assert(item_ok(self@.items, self@.kids, self@.depth, self@.datasize, i));
                assert(kid_ok(self@.items, self@.kids, i, k));
                let c = ks[k];
                assert(item_ok(m.items, m.kids, m.depth, m.datasize, i));
                assert(kid_ok(m.items, m.kids, i, k));
                assert(item_ok(m.items, m.kids, m.depth, m.datasize, c));
                lemma_depth_bound(m.items, m.kids, m.depth, m.datasize, c);
                assert(m.depth[c] == m.depth[i] + 1);
                assert(self@.height_bound(kid) == fuel - 1);
                assert(kid == Item::from_id(c));
            }
            self.layout_item(kid, dim);
            proof {
                use_type_invariant(&*self);
                assert(item_ok(self@.items, self@.kids, self@.depth, self@.datasize, i));
                assert(kid_ok(self@.items, self@.kids, i, k));
            }
            kid = self.next_sibling(kid);
            proof {
                k = k + 1;
            }
        }
        proof {
            use_type_invariant(&*self);
            if k < ks.len() {
                assert(item_ok(self@.items, self@.kids, self@.depth, self@.datasize, i));
                assert(kid_ok(self@.items, self@.kids, i, k));
            }
        }
    }

    /// Lays out the tree of the root: sizes every item along x from the chains
    /// of its kids and positions the kids by their anchoring flags, then does
    /// the same along y. Items outside the tree of the root keep their place.
    pub fn layout(&mut self)
        requires
            old(self)@.layout_result() is Some,
        ensures
            final(self)@ == (ContextModel { items: old(self)@.layout_result().unwrap(), ..old(self)@ }),
    {
        proof {
            use_type_invariant(&*self);
        }
        if self.count() == 0 {
            return ;
        }
        let ghost m = self@;
        let root = self.root();
        proof {
            assert(root == Item::from_id(0));
        }
        // compute widths
        self.compute_best_size(root, 0);
        proof {
            use_type_invariant(&*self);
        }
        // position root element rect
        let mut r = *self.get(root);
        r.rect.x = r.margins[0];
        self.put(root, r);
        proof {
            use_type_invariant(&*self);
        }
        self.layout_item(root, 0);
        proof {
            use_type_invariant(&*self);
        }
        // compute heights
        self.compute_best_size(root, 1);
        proof {
            use_type_invariant(&*self);
        }
        // position root element rect
        let mut r = *self.get(root);
        r.rect.y = r.margins[1];
        self.put(root, r);
        proof {
            use_type_invariant(&*self);
        }
        self.layout_item(root, 1);
    }
}

} // verus!
