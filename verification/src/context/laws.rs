use vstd::prelude::*;

use super::layout::{
    chain, chain_bit, chain_from, extent, mark, share, shares, size_dim, size_fold, CHAIN_STEPS,
    below, keeps_size, laid_out_with, lemma_forest_depths, lemma_laid_out_fuel, lemma_laid_out_geometry,
    lemma_laid_out_kept, lemma_place_fuel_more, lemma_place_grow, lemma_unplaced_le, place, placed_bit, position, near_edge, far_space,
    lemma_geometry_update, lemma_geometry_forest, lemma_place_geometry, lemma_place_keeps, lemma_placed_bit, same_but_geometry,
};
use super::tree::lemma_append_wf;
use super::{
    button_down, forest_ok, item_ok, ref_ok, EventHandler, kid_ok, parent_ok, with_button, with_relto, ContextModel, Item, ItemImp,
};
use crate::flags::{ItemState, BUTTON0_CAPTURE, BUTTON0_HOT_UP, BUTTON0_UP, HFILL, LEFT, RIGHT};
use crate::geom::spec_max;
use super::{lemma_item_eq, MAX_BUFFERSIZE};

verus! {

/// Appending links the child as the last kid of the item: the child's parent is
/// the item, its position is the item's former kid count, its previous sibling
/// the item's former last kid; the item counts one kid more and points at the
/// child as its last (and, when it had none, first) kid; no other item changes
/// parent; and the context stays consistent.
pub proof fn lemma_append_links<Wgt, H>(m: ContextModel<Wgt, H>, item: Item, child: Item)
    requires
        m.wf(),
        m.has(item),
        m.has(child),
        m.at(child).parent.id() == -1,
        m.root_of(item.id()) != child.id(),
    ensures
        m.appended(item, child).wf(),
        m.appended(item, child).at(child).parent == item,
        m.appended(item, child).at(child).kidid == m.at(item).numkids,
        m.appended(item, child).at(child).previtem == m.at(item).lastkid,
        m.appended(item, child).at(item).lastkid == child,
        m.appended(item, child).at(item).numkids == m.at(item).numkids + 1,
        m.at(item).numkids == 0 ==> m.appended(item, child).at(item).firstkid == child,
        m.at(item).numkids > 0 ==> m.appended(item, child).at(item).firstkid == m.at(
            item,
        ).firstkid,
        m.appended(item, child).kids[item.id()] == m.kids[item.id()].push(child.id()),
        forall|j: int|
            0 <= j < m.items.len() && j != child.id() ==> (#[trigger] m.appended(
                item,
                child,
            ).items[j]).parent == m.items[j].parent,
{
    lemma_append_wf(m, item, child);
    let p = item.id();
    let c = child.id();
    assert(item_ok(m.items, m.kids, m.depth, m.datasize, p));
    assert(item_ok(m.items, m.kids, m.depth, m.datasize, c));
    let last = m.items[p].lastkid;
    if last.is_valid() {
        assert(kid_ok(m.items, m.kids, p, m.kids[p].len() - 1));
    }
    assert(p != c);
}

/// Setting a button down or up is what reading it back gives, and leaves every
/// other button as it was.
pub proof fn lemma_button_round_trip(buttons: u64, b: u64, enabled: bool, other: u64)
    requires
        b < 64,
        other < 64,
    ensures
        button_down(with_button(buttons, b, enabled), b) == enabled,
        other != b ==> button_down(with_button(buttons, b, enabled), other) == button_down(
            buttons,
            other,
        ),
{
    assert(((buttons | (1u64 << b)) & (1u64 << b)) != 0) by (bit_vector)
        requires
            b < 64,
    ;
    assert(((buttons & !(1u64 << b)) & (1u64 << b)) == 0) by (bit_vector)
        requires
            b < 64,
    ;
    assert(other != b ==> (((buttons | (1u64 << b)) & (1u64 << other)) != 0) == ((buttons & (1u64
        << other)) != 0)) by (bit_vector)
        requires
            b < 64,
            other < 64,
    ;
    assert(other != b ==> (((buttons & !(1u64 << b)) & (1u64 << other)) != 0) == ((buttons & (1u64
        << other)) != 0)) by (bit_vector)
        requires
            b < 64,
            other < 64,
    ;
}

/// A requested size reads back as it was requested.
pub proof fn lemma_size_round_trip(w: u32)
    ensures
        (w as i32) as u32 == w,
{
    assert((w as i32) as u32 == w) by (bit_vector);
}

/// Anchoring one border to `other` is what reading that border back gives, and
/// leaves the other borders as they were.
pub proof fn lemma_relto_round_trip<H>(it: ItemImp<H>, k: int, other: Item)
    requires
        0 <= k < 4,
    ensures
        with_relto(it, k, other).relto[k] == other,
        forall|j: int| 0 <= j < 4 && j != k ==> #[trigger] with_relto(it, k, other).relto[j] == it.relto[j],
{
    broadcast use vstd::array::group_array_axioms;

}

/// A frozen item is in the frozen state, whatever else holds of it.
pub proof fn lemma_frozen_state<Wgt, H>(m: ContextModel<Wgt, H>, item: Item)
    requires
        m.has(item),
        m.at(item).frozen,
    ensures
        m.state_of(item) == ItemState::FROZEN,
{
}

/// The interaction states: an item is FROZEN exactly when it is frozen; HOT
/// exactly when, not frozen, it is the hot item but not the active one; ACTIVE
/// only as the active item. The active item is never HOT: it is ACTIVE while
/// its handler takes the capture or the release of button 0, or the hot
/// release while it is hot, and COLD otherwise. An item that is neither hot
/// nor active is COLD unless frozen.
pub proof fn lemma_state_rules<Wgt, H>(m: ContextModel<Wgt, H>, item: Item)
    requires
        m.has(item),
    ensures
        (m.state_of(item) == ItemState::FROZEN) <==> m.at(item).frozen,
        (m.state_of(item) == ItemState::HOT) <==> (!m.at(item).frozen && m.hot_item == item
            && m.active_item != item),
        m.state_of(item) == ItemState::ACTIVE ==> !m.at(item).frozen && m.active_item == item,
        !m.at(item).frozen && m.active_item == item ==> (m.state_of(item) == ItemState::ACTIVE
            || m.state_of(item) == ItemState::COLD),
        !m.at(item).frozen && m.active_item != item && m.hot_item != item ==> m.state_of(item)
            == ItemState::COLD,
        !m.at(item).frozen && m.active_item == item ==> ((m.state_of(item) == ItemState::ACTIVE) <==> (
        m.at(item).event_flags & BUTTON0_CAPTURE != 0 || m.at(item).event_flags & BUTTON0_UP != 0 || (
        m.at(item).event_flags & BUTTON0_HOT_UP != 0 && m.hot_item == item))),
{
    let f = m.at(item).event_flags;
    assert((f & (BUTTON0_CAPTURE | BUTTON0_UP) != 0) == (f & BUTTON0_CAPTURE != 0 || f & BUTTON0_UP != 0))
        by (bit_vector);
    assert((f & BUTTON0_HOT_UP == BUTTON0_HOT_UP) == (f & BUTTON0_HOT_UP != 0)) by (bit_vector);
}

/// While button 0 is captured (held, or released in this frame), a frame keeps
/// the cursor start where the capture began: the context handed to the capture handler has it,
/// and a frame in which no handler runs ends with it.
pub proof fn lemma_capture_keeps_start<Wgt, H: EventHandler<Wgt>>(m: ContextModel<Wgt, H>)
    requires
        m.items.len() > 0,
        m.capturing,
    ensures
        m.frame_start().start_cursor == m.start_cursor,
        m.process_quiet() ==> m.processed().start_cursor == m.start_cursor,
{
}

/// A frame that starts idle (button 0 not captured) sets the cursor start to
/// the cursor, so that a capture begun by a press starts where the press was:
/// so it is in the context handed to the press handler and, with no handler
/// run, at the end of the frame.
pub proof fn lemma_idle_sets_start<Wgt, H: EventHandler<Wgt>>(m: ContextModel<Wgt, H>)
    requires
        m.items.len() > 0,
        !m.capturing,
    ensures
        m.frame_start().start_cursor == m.cursor,
        m.process_quiet() ==> m.processed().start_cursor == m.cursor,
{
}

/// A hit among the kids `ks[k..]` is what the search from one of them finds.
pub proof fn lemma_hit_kids_from<Wgt, H>(
    m: ContextModel<Wgt, H>,
    ks: Seq<int>,
    k: int,
    x: i32,
    y: i32,
    ox: i32,
    oy: i32,
    fuel: nat,
)
    ensures
        m.find_kids(ks, k, x, y, ox, oy, fuel) matches Some(h) ==> exists|j: int|
            0 <= k <= j < ks.len() && m.find(#[trigger] ks[j], x, y, ox, oy, fuel) == Some(h),
    decreases ks.len() - k,
{
    if 0 <= k < ks.len() {
        lemma_hit_kids_from(m, ks, k + 1, x, y, ox, oy, fuel);
        if m.find(ks[k], x, y, ox, oy, fuel) is Some {
            assert(m.find(ks[k], x, y, ox, oy, fuel) == m.find_kids(ks, k, x, y, ox, oy, fuel));
        }
    }
}

/// Hit testing finds only what lies under the point: when the search from item
/// `i` finds anything, the point, taken relative to `i`, lies inside `i`'s
/// rectangle along both dimensions, `i` is not frozen, and what is found is `i`
/// itself or what the search from one of `i`'s kids finds for the point taken
/// relative to `i`. So the point lies inside the rectangle of the item found
/// and of each of its ancestors on the way down.
pub proof fn lemma_hit_inside<Wgt, H>(
    m: ContextModel<Wgt, H>,
    i: int,
    x: i32,
    y: i32,
    ox: i32,
    oy: i32,
    fuel: nat,
)
    ensures
        m.find(i, x, y, ox, oy, fuel) matches Some(h) ==> ({
            let r = m.items[i].rect;
            let lx = x.wrapping_sub(r.x);
            let ly = y.wrapping_sub(r.y);
            &&& 0 <= lx < r.w
            &&& 0 <= ly < r.h
            &&& !m.items[i].frozen
            &&& h.0 == Item::from_id(i) || exists|k: int|
                0 <= k < m.kids[i].len() && m.find(
                    #[trigger] m.kids[i][k],
                    lx,
                    ly,
                    ox.wrapping_add(r.x),
                    oy.wrapping_add(r.y),
                    (fuel - 1) as nat,
                ) == Some(h)
        }),
{
    if fuel > 0 {
        let r = m.items[i].rect;
        lemma_hit_kids_from(
            m,
            m.kids[i],
            0,
            x.wrapping_sub(r.x),
            y.wrapping_sub(r.y),
            ox.wrapping_add(r.x),
            oy.wrapping_add(r.y),
            (fuel - 1) as nat,
        );
    }
}

/// Hit testing finds only items, and never a frozen one.
pub proof fn lemma_hit_unfrozen<Wgt, H>(
    m: ContextModel<Wgt, H>,
    i: int,
    x: i32,
    y: i32,
    ox: i32,
    oy: i32,
    fuel: nat,
)
    requires
        m.wf(),
        0 <= i < m.items.len(),
    ensures
        m.find(i, x, y, ox, oy, fuel) matches Some(h) ==> m.has(h.0) && !m.at(h.0).frozen,
    decreases fuel, 0int, 0int,
{
    if fuel > 0 {
        let r = m.items[i].rect;
        lemma_hit_kids_unfrozen(
            m,
            i,
            0,
            x.wrapping_sub(r.x),
            y.wrapping_sub(r.y),
            ox.wrapping_add(r.x),
            oy.wrapping_add(r.y),
            (fuel - 1) as nat,
        );
    }
}

/// Hit testing among the kids of item `i` finds only items, and never a frozen one.
pub proof fn lemma_hit_kids_unfrozen<Wgt, H>(
    m: ContextModel<Wgt, H>,
    i: int,
    k: int,
    x: i32,
    y: i32,
    ox: i32,
    oy: i32,
    fuel: nat,
)
    requires
        m.wf(),
        0 <= i < m.items.len(),
    ensures
        m.find_kids(m.kids[i], k, x, y, ox, oy, fuel) matches Some(h) ==> m.has(h.0) && !m.at(
            h.0,
        ).frozen,
    decreases fuel, 1int, m.kids[i].len() - k,
{
    let ks = m.kids[i];
    if 0 <= k < ks.len() {
        assert(item_ok(m.items, m.kids, m.depth, m.datasize, i));
        assert(parent_ok(m.items, m.kids, i));
        assert(kid_ok(m.items, m.kids, i, k));
        lemma_hit_unfrozen(m, ks[k], x, y, ox, oy, fuel);
        lemma_hit_kids_unfrozen(m, i, k + 1, x, y, ox, oy, fuel);
    }
}

/// One quiet frame of `process`: hovering makes the item under the cursor hot;
/// pressing button 0 makes it active and starts the capture; holding the button
/// keeps the active item, which is hot only while under the cursor; releasing
/// it ends the capture; the cursor and the buttons become the previous frame's.
pub proof fn lemma_process_transitions<Wgt, H>(m: ContextModel<Wgt, H>)
    requires
        m.wf(),
        m.items.len() > 0,
    ensures
        ({
            let p = m.processed();
            let hot = ContextModel::<Wgt, H>::hit_item(
                m.hit(Item::from_id(0), m.cursor.x, m.cursor.y, 0, 0),
            );
            let down = button_down(m.buttons, 0);
            &&& !m.capturing && !down ==> !p.capturing && p.hot_item == hot && p.active_item
                == m.active_item && p.start_cursor == m.cursor
            &&& !m.capturing && down ==> p.capturing && p.active_item == hot && !p.hot_item.is_valid()
                && p.start_cursor == m.cursor
            &&& m.capturing && down ==> p.capturing && p.active_item == m.active_item && p.hot_item
                == (if hot == m.active_item {
                hot
            } else {
                Item::from_id(-1)
            })
            &&& m.capturing && !down ==> !p.capturing && !p.active_item.is_valid()
            &&& p.last_cursor == m.cursor
            &&& p.last_buttons == m.buttons
            &&& p.items == m.items
        }),
{
    super::lemma_from_id(-1);
}

/// Whatever the handlers run in a frame do, the frame ends with the cursor and
/// the buttons remembered as the previous frame's and the tags of the hot and
/// the active item remembered; a press leaves button 0 captured, and a release
/// ends the capture with no item active.
pub proof fn lemma_frame_end<Wgt, H: EventHandler<Wgt>>(
    m: ContextModel<Wgt, H>,
    ma: ContextModel<Wgt, H>,
    mb: ContextModel<Wgt, H>,
    after: ContextModel<Wgt, H>,
)
    requires
        m.wf(),
        m.items.len() > 0,
        m.frame(ma, mb, after),
    ensures
        after.last_cursor == after.cursor,
        after.last_buttons == after.buttons,
        after.hot_item.is_valid() ==> after.hot_tag == after.at(after.hot_item).tag,
        after.active_item.is_valid() ==> after.active_tag == after.at(after.active_item).tag,
        !m.capturing && button_down(m.buttons, 0) ==> after.capturing,
        m.capturing && !button_down(m.buttons, 0) ==> !after.capturing && !after.active_item.is_valid(),
        m.capturing && button_down(m.buttons, 0) && after.hot_item.is_valid() ==> after.hot_item
            == m.active_item && after.hot_item == m.frame_hot(),
{
    super::lemma_from_id(-1);
}

/// Layout moves and sizes items and nothing else: every item keeps its links,
/// flags, margins, requested size, tag, handler and data; only its rectangle,
/// computed size and visited flags may change.
pub proof fn lemma_layout_only_geometry<Wgt, H>(m: ContextModel<Wgt, H>)
    requires
        m.wf(),
        m.layout_result() is Some,
    ensures
        same_but_geometry(m.items, m.layout_result().unwrap()),
{
    lemma_laid_out_geometry(m.items, m.kids, m.depth, m.datasize);
}

/// A requested size is a hard maximum: after layout, every item of the tree of
/// the root that requested an extent along x or y has exactly that extent.
pub proof fn lemma_layout_keeps_fixed_sizes<Wgt, H>(m: ContextModel<Wgt, H>)
    requires
        m.wf(),
        m.layout_result() is Some,
    ensures
        forall|j: int, d: usize|
            0 <= j < m.items.len() && d < 2 && below(m.items, m.depth, j, 0) ==> #[trigger] keeps_size(
                m.layout_result().unwrap()[j],
                d,
            ),
{
    lemma_laid_out_kept(m.items, m.kids, m.depth, m.datasize);
}

/// The layout passes never stop short for want of depth: they nest no deeper
/// than the tree of the root reaches, and allowing them any deeper nesting
/// gives the same result.
pub proof fn lemma_layout_depth_enough<Wgt, H>(m: ContextModel<Wgt, H>, extra: nat)
    requires
        m.wf(),
    ensures
        laid_out_with(m.items, m.kids, (m.items.len() - m.depth[0]) as nat + extra) == m.layout_result(),
{
    lemma_forest_depths(m.items, m.kids, m.depth, m.datasize);
    lemma_laid_out_fuel(m.items, m.kids, m.depth, (m.items.len() - m.depth[0]) as nat, extra);
}

/// Positioning an item never stops short for want of steps: it follows each
/// anchoring neighbour at most once, so as many steps as there are items give
/// the same result as any more.
pub proof fn lemma_place_steps_enough<H>(
    its: Seq<ItemImp<H>>,
    kids: Seq<Seq<int>>,
    depth: Seq<nat>,
    used: usize,
    parent: int,
    item: int,
    dc: i32,
    dim: usize,
    extra: nat,
)
    requires
        forest_ok(its, kids, depth, used),
        0 <= parent < its.len(),
        0 <= item < its.len(),
        dim < 2,
    ensures
        place(its, parent, item, dc, dim, its.len() as nat) == place(
            its,
            parent,
            item,
            dc,
            dim,
            its.len() + extra,
        ),
{
    lemma_unplaced_le(its, dim, its.len() as int);
    lemma_place_fuel_more(its, kids, depth, used, parent, item, dc, dim, its.len() as nat, extra);
}

/// Each item is positioned at most once per pass: once placing an item has
/// succeeded, placing it again, with any count of stretchable items so far,
/// changes no item and counts nothing more.
pub proof fn lemma_place_once<H>(
    its: Seq<ItemImp<H>>,
    kids: Seq<Seq<int>>,
    depth: Seq<nat>,
    used: usize,
    parent: int,
    item: int,
    dc: i32,
    dim: usize,
    fuel: nat,
    dc2: i32,
    fuel2: nat,
)
    requires
        forest_ok(its, kids, depth, used),
        0 <= parent < its.len(),
        0 <= item < its.len(),
        dim < 2,
        place(its, parent, item, dc, dim, fuel) is Some,
    ensures
        ({
            let once = place(its, parent, item, dc, dim, fuel).unwrap().0;
            place(once, parent, item, dc2, dim, fuel2) == Some((once, dc2))
        }),
{
    lemma_place_grow(its, kids, depth, used, parent, item, dc, dim, fuel);
}

/// Truncating division by 2, as `/` computes it on `i32`.
pub open spec fn half(v: i32) -> i32 {
    if v >= 0 {
        (v / 2) as i32
    } else {
        (-((-v) / 2)) as i32
    }
}

/// The placement rules along `dim` (0 for x, 1 for y; `LEFT` and `RIGHT` stand
/// for the near and the far border) for an item with no neighbour to anchor to
/// there, inside a parent whose extent is `s`: anchored to the near border
/// only, it sits at its near margin; to the far border only, its far margin
/// touches the parent's far border; to both, with a requested size, it sits at
/// its near margin, and with none, it stretches between its two margins;
/// anchored to neither, it is centered, offset by its near margin. Only that
/// item changes, in its rectangle and its placed mark; its size counts as
/// stretchable when it requests none along `dim`. (A requested size of 2^31 or
/// more reads as negative and is left out: stretching can then divide by zero.)
pub proof fn lemma_place_rules<H>(
    its: Seq<ItemImp<H>>,
    parent: int,
    item: int,
    dc: i32,
    dim: usize,
    fuel: nat,
)
    requires
        0 <= parent < its.len(),
        0 <= item < its.len(),
        dim < 2,
        fuel > 0,
        its[item].visited & placed_bit(dim) == 0,
        !its[item].relto[dim as int].is_valid(),
        !its[item].relto[dim + 2].is_valid(),
        its[item].size.at(dim as int) >= 0,
        0 <= dc < i32::MAX,
    ensures
        ({
            let it = its[item];
            let wdim = (dim + 2) as int;
            let s = its[parent].rect.at(wdim);
            let w = it.rect.at(wdim);
            let m0 = it.margins[dim as int];
            let m2 = it.margins[wdim];
            let fl = (it.layout_flags >> dim) & HFILL;
            let q = place(its, parent, item, dc, dim, fuel);
            let r = q.unwrap().0[item].rect;
            &&& q is Some
            &&& q.unwrap().0 == its.update(
                item,
                ItemImp { rect: r, visited: it.visited | placed_bit(dim), ..it },
            )
            &&& q.unwrap().1 == if it.size.at(dim as int) == 0 {
                dc + 1
            } else {
                dc as int
            }
            &&& fl == LEFT ==> r == it.rect.with(dim as int, m0)
            &&& fl == RIGHT ==> r == it.rect.with(dim as int, s.wrapping_sub(w).wrapping_sub(m2))
            &&& fl == HFILL && it.size.at(dim as int) > 0 ==> r == it.rect.with(dim as int, m0)
            &&& fl == HFILL && it.size.at(dim as int) == 0 ==> r == it.rect.with(dim as int, m0).with(
                wdim,
                s.wrapping_sub(m0).wrapping_sub(m2),
            )
            &&& fl == 0 ==> r == it.rect.with(dim as int, half(s.wrapping_sub(w)).wrapping_add(m0))
        }),
{
    let it = its[item];
    let wdim = (dim + 2) as int;
    let v = its[parent].rect.at(wdim).wrapping_sub(it.rect.at(wdim));
    let its1 = its.update(item, ItemImp { visited: it.visited | placed_bit(dim), ..it });
    let dc1 = if it.size.at(dim as int) == 0 {
        dc.wrapping_add(1)
    } else {
        dc
    };
    let s0 = its1[parent].rect.at(wdim);
    let p4 = super::layout::position(its1, parent, item, dim, 0, s0, false, dc1);
    assert(place(its, parent, item, dc, dim, fuel) == match p4 {
        Some(its4) => Some((its4, dc1)),
        None => None,
    });
    if it.size.at(dim as int) == 0 {
        let pp = its1[parent];
        let width = pp.rect.at(wdim).wrapping_sub(pp.computed_size.at(dim as int));
        let x = width as int;
        let d = dc1 as int;
        assert(x > 0 ==> 0 <= x / d <= x) by (nonlinear_arith)
            requires
                d >= 1,
        ;
        assert(x < 0 ==> 0 <= (x * -1) / d <= x * -1) by (nonlinear_arith)
            requires
                d >= 1,
        ;
        assert(width.checked_div(dc1) is Some);
    }
    assert(0i32.wrapping_add(v.checked_div(2).unwrap()) == half(v));
    assert(0i32.wrapping_add(it.margins[dim as int]) == it.margins[dim as int]);
    assert(0i32.wrapping_add(its[parent].rect.at(wdim)) == its[parent].rect.at(wdim));
}

/// No two items own overlapping bytes of the pool.
pub proof fn lemma_data_disjoint<Wgt, H>(m: ContextModel<Wgt, H>, a: Item, b: Item)
    requires
        m.wf(),
        m.has(a),
        m.has(b),
        a != b,
    ensures
        ({
            let ra = m.at(a).data_range();
            let rb = m.at(b).data_range();
            ra.0 == ra.1 || rb.0 == rb.1 || ra.1 <= rb.0 || rb.1 <= ra.0
        }),
{
    assert(item_ok(m.items, m.kids, m.depth, m.datasize, a.id()));
    assert(item_ok(m.items, m.kids, m.depth, m.datasize, b.id()));
    if m.at(a).data >= 0 && m.at(b).data >= 0 {
        assert(a.id() != b.id());
    }
}

/// Allocating gives the item the next `size` bytes of the pool, and that is
/// the range its data is read from afterwards.
pub proof fn lemma_alloc_range<Wgt, H>(m: ContextModel<Wgt, H>, item: Item, size: usize)
    requires
        m.has(item),
        m.datasize + size <= MAX_BUFFERSIZE,
    ensures
        m.allocated(item, size).at(item).data_range() == (m.datasize as int, m.datasize + size),
        m.allocated(item, size).datasize == m.datasize + size,
{
}

/// What is written into the bytes `alloc_data` gives an item is the item's
/// data: with `w` written through the slice, `get_data` gives back `w`, and
/// every other item's data stays as it was.
pub proof fn lemma_data_round_trip<Wgt, H>(
    m: ContextModel<Wgt, H>,
    item: Item,
    size: usize,
    w: Seq<u8>,
    other: Item,
)
    requires
        m.wf(),
        m.has(item),
        m.has(other),
        other != item,
        0 < size,
        m.at(item).data < 0,
        m.datasize + size <= MAX_BUFFERSIZE,
        w.len() == size,
    ensures
        ({
            let m2 = ContextModel {
                data: m.data.subrange(0, m.datasize as int) + w + m.data.subrange(
                    m.datasize + size,
                    MAX_BUFFERSIZE as int,
                ),
                ..m.allocated(item, size)
            };
            let r = m2.at(item).data_range();
            let ro = m2.at(other).data_range();
            &&& m2.data.subrange(r.0, r.1) == w
            &&& m2.data.subrange(ro.0, ro.1) == m.data.subrange(
                m.at(other).data_range().0,
                m.at(other).data_range().1,
            )
        }),
{
    let o = other.id();
    assert(item_ok(m.items, m.kids, m.depth, m.datasize, o));
    assert(other.id() != item.id()) by {
        lemma_item_eq(other, item);
    }
    let m2 = ContextModel {
        data: m.data.subrange(0, m.datasize as int) + w + m.data.subrange(
            m.datasize + size,
            MAX_BUFFERSIZE as int,
        ),
        ..m.allocated(item, size)
    };
    let ro = m.at(other).data_range();
    assert(m2.at(other) == m.at(other));
    assert(ro.1 <= m.datasize);
    assert(m2.data.subrange(ro.0, ro.1) =~= m.data.subrange(ro.0, ro.1));
    assert(m2.data.subrange(m.datasize as int, m.datasize + size) =~= w);
}

/// The placement rules next to neighbours along `dim`: an item anchored to the
/// near border only, with a near neighbour, sits its near margin after the
/// neighbour's far edge and far margin; one anchored to the far border only,
/// with a far neighbour, has its far margin touch the neighbour's near margin.
/// Its extent stays; the neighbour is placed first and then left as it is.
pub proof fn lemma_place_next_to<H>(
    its: Seq<ItemImp<H>>,
    kids: Seq<Seq<int>>,
    depth: Seq<nat>,
    used: usize,
    parent: int,
    item: int,
    dc: i32,
    dim: usize,
    fuel: nat,
)
    requires
        forest_ok(its, kids, depth, used),
        0 <= parent < its.len(),
        0 <= item < its.len(),
        dim < 2,
        its[item].visited & placed_bit(dim) == 0,
        place(its, parent, item, dc, dim, fuel) is Some,
    ensures
        ({
            let it = its[item];
            let wdim = (dim + 2) as int;
            let w = it.rect.at(wdim);
            let m0 = it.margins[dim as int];
            let m2 = it.margins[wdim];
            let fl = (it.layout_flags >> dim) & HFILL;
            let l = it.relto[dim as int];
            let rn = it.relto[wdim];
            let q = place(its, parent, item, dc, dim, fuel).unwrap().0;
            &&& fl == LEFT && l.is_valid() && l.id() != item ==> q[item].rect == it.rect.with(
                dim as int,
                near_edge(q[l.id()], dim).wrapping_add(m0),
            )
            &&& fl == RIGHT && rn.is_valid() && rn.id() != item ==> q[item].rect == it.rect.with(
                dim as int,
                q[rn.id()].rect.at(dim as int).wrapping_sub(q[rn.id()].margins[dim as int]).wrapping_sub(
                    w,
                ).wrapping_sub(m2),
            )
        }),
{
    let it = its[item];
    let wdim = dim + 2;
    let fl = (it.layout_flags >> dim) & HFILL;
    let flags = it.layout_flags >> dim;
    let its1 = its.update(item, ItemImp { visited: it.visited | placed_bit(dim), ..it });
    let dc1 = if it.size.at(dim as int) == 0 {
        dc.wrapping_add(1)
    } else {
        dc
    };
    let f1 = (fuel - 1) as nat;
    let l = it.relto[dim as int];
    let rn = it.relto[wdim as int];
    let s0 = its1[parent].rect.at(wdim as int);
    assert(item_ok(its, kids, depth, used, item));
    assert(its[item].refs_ok(its.len() as int));
    assert(ref_ok(l, its.len() as int) && ref_ok(rn, its.len() as int)) by {
        if dim == 0 {
        } else {
        }
    }
    lemma_geometry_update(its, item, ItemImp { visited: it.visited | placed_bit(dim), ..it });
    lemma_geometry_forest(its, its1, kids, depth, used);
    lemma_placed_bit(it.visited, dim);
    assert(its1[item].visited & placed_bit(dim) != 0);
    assert(fl == LEFT ==> flags & RIGHT == 0 && flags & LEFT != 0) by (bit_vector)
        requires
            fl == flags & 5,
    ;
    assert(fl == RIGHT ==> flags & LEFT == 0 && flags & RIGHT != 0) by (bit_vector)
        requires
            fl == flags & 5,
    ;
    if fl == LEFT && l.is_valid() && l.id() != item {
        lemma_place_geometry(its1, kids, depth, used, parent, l.id(), dc1, dim, f1);
        lemma_place_keeps(its1, kids, depth, used, parent, l.id(), dc1, dim, f1);
        let q1 = place(its1, parent, l.id(), dc1, dim, f1).unwrap();
        let x = near_edge(q1.0[l.id()], dim);
        let p4 = position(q1.0, parent, item, dim, x, s0.wrapping_sub(x), true, q1.1);
        assert(place(its, parent, item, dc, dim, fuel) == match p4 {
            Some(r) => Some((r, q1.1)),
            None => None,
        });
        let its4 = p4.unwrap();
        assert(place(its, parent, item, dc, dim, fuel).unwrap().0 == its4);
        assert(its4[l.id()] == q1.0[l.id()]);
    }
    if fl == RIGHT && rn.is_valid() && rn.id() != item {
        lemma_place_geometry(its1, kids, depth, used, parent, rn.id(), dc1, dim, f1);
        lemma_place_keeps(its1, kids, depth, used, parent, rn.id(), dc1, dim, f1);
        let q2 = place(its1, parent, rn.id(), dc1, dim, f1).unwrap();
        let sr = far_space(q2.0[rn.id()], dim, 0);
        let p4 = position(q2.0, parent, item, dim, 0, sr, false, q2.1);
        assert(place(its, parent, item, dc, dim, fuel) == match p4 {
            Some(r) => Some((r, q2.1)),
            None => None,
        });
        let its4 = p4.unwrap();
        assert(place(its, parent, item, dc, dim, fuel).unwrap().0 == its4);
        assert(its4[rn.id()] == q2.0[rn.id()]);
        let pr = q2.0[rn.id()];
        assert(0i32.wrapping_add(sr) == sr);
        assert(pr.rect.at(dim as int).wrapping_sub(pr.margins[dim as int]).wrapping_sub(0) == pr.rect.at(
            dim as int,
        ).wrapping_sub(pr.margins[dim as int]));
    }
}

/// Adding to `a` what lies between `a` and `b` reaches `b`, wrapping around.
pub proof fn lemma_wrap_add_sub(a: i32, b: i32)
    ensures
        a.wrapping_add(b.wrapping_sub(a)) == b,
{
}

/// The placement rule between two neighbours along `dim`: an item anchored to
/// both borders, with a near and a far neighbour, fills the space between
/// them, so that its far edge plus its far margin is where the far neighbour's
/// near margin begins: its position is the far neighbour's position, less that
/// neighbour's near margin, less the item's own extent and far margin.
pub proof fn lemma_place_between<H>(
    its: Seq<ItemImp<H>>,
    kids: Seq<Seq<int>>,
    depth: Seq<nat>,
    used: usize,
    parent: int,
    item: int,
    dc: i32,
    dim: usize,
    fuel: nat,
)
    requires
        forest_ok(its, kids, depth, used),
        0 <= parent < its.len(),
        0 <= item < its.len(),
        dim < 2,
        its[item].visited & placed_bit(dim) == 0,
        (its[item].layout_flags >> dim) & HFILL == HFILL,
        its[item].relto[dim as int].is_valid(),
        its[item].relto[dim + 2].is_valid(),
        its[item].relto[dim as int].id() != item,
        its[item].relto[dim + 2].id() != item,
        place(its, parent, item, dc, dim, fuel) is Some,
    ensures
        ({
            let it = its[item];
            let wdim = (dim + 2) as int;
            let rn = it.relto[wdim].id();
            let q = place(its, parent, item, dc, dim, fuel).unwrap().0;
            q[item].rect.at(dim as int) == q[rn].rect.at(dim as int).wrapping_sub(
                q[rn].margins[dim as int],
            ).wrapping_sub(q[item].rect.at(wdim)).wrapping_sub(it.margins[wdim])
        }),
{
    let it = its[item];
    let wdim = dim + 2;
    let flags = it.layout_flags >> dim;
    let its1 = its.update(item, ItemImp { visited: it.visited | placed_bit(dim), ..it });
    let dc1 = if it.size.at(dim as int) == 0 {
        dc.wrapping_add(1)
    } else {
        dc
    };
    let f1 = (fuel - 1) as nat;
    let l = it.relto[dim as int];
    let rn = it.relto[wdim as int];
    assert(item_ok(its, kids, depth, used, item));
    assert(its[item].refs_ok(its.len() as int));
    assert(ref_ok(l, its.len() as int) && ref_ok(rn, its.len() as int)) by {
        if dim == 0 {
        } else {
        }
    }
    lemma_geometry_update(its, item, ItemImp { visited: it.visited | placed_bit(dim), ..it });
    lemma_geometry_forest(its, its1, kids, depth, used);
    lemma_placed_bit(it.visited, dim);
    assert(flags & HFILL == HFILL ==> flags & RIGHT != 0 && flags & LEFT != 0) by (bit_vector);
    lemma_place_geometry(its1, kids, depth, used, parent, l.id(), dc1, dim, f1);
    lemma_place_keeps(its1, kids, depth, used, parent, l.id(), dc1, dim, f1);
    let q1 = place(its1, parent, l.id(), dc1, dim, f1).unwrap();
    let its2 = q1.0;
    super::layout::lemma_geometry_trans(its, its1, its2);
    lemma_geometry_forest(its, its2, kids, depth, used);
    let x = near_edge(its2[l.id()], dim);
    lemma_place_geometry(its2, kids, depth, used, parent, rn.id(), q1.1, dim, f1);
    lemma_place_keeps(its2, kids, depth, used, parent, rn.id(), q1.1, dim, f1);
    let q2 = place(its2, parent, rn.id(), q1.1, dim, f1).unwrap();
    let its3 = q2.0;
    let sr = far_space(its3[rn.id()], dim, x);
    let p4 = position(its3, parent, item, dim, x, sr, true, q2.1);
    assert(place(its, parent, item, dc, dim, fuel) == match p4 {
        Some(r) => Some((r, q2.1)),
        None => None,
    });
    let its4 = p4.unwrap();
    super::layout::lemma_position_geometry(its3, parent, item, dim, x, sr, true, q2.1);
    assert(its4[rn.id()] == its3[rn.id()]);
    let pr = its3[rn.id()];
    lemma_wrap_add_sub(x, pr.rect.at(dim as int).wrapping_sub(pr.margins[dim as int]));
}

/// Sizing takes in the chain of every kid: when the kids `ks` anchor to no
/// neighbour along `dim` (each is a chain of its own), the space found needed
/// from the kids `ks[k..]` is at least the space `need` found so far and at
/// least the extent, margins included, of every kid not yet in a chain.
pub proof fn lemma_size_fold_covers<H>(
    its: Seq<ItemImp<H>>,
    ks: Seq<int>,
    k: int,
    dim: usize,
    need: i32,
    hard: i32,
)
    requires
        dim < 2,
        0 <= k,
        forall|j: int|
            0 <= j < ks.len() ==> 0 <= #[trigger] ks[j] < its.len() && !its[ks[j]].relto[dim as int].is_valid()
                && !its[ks[j]].relto[dim + 2].is_valid(),
    ensures
        size_fold(its, ks, k, dim, need, hard) matches Some(f) ==> f.1 >= need && forall|j: int|
            k <= j < ks.len() && #[trigger] its[ks[j]].visited & chain_bit(dim) == 0 ==> f.1 >= extent(
                its[ks[j]],
                dim,
            ),
        size_fold(its, ks, k, dim, need, hard) matches Some(f) ==> f.1 == need || exists|j: int|
            k <= j < ks.len() && #[trigger] its[ks[j]].visited & chain_bit(dim) == 0 && f.1 == extent(
                its[ks[j]],
                dim,
            ),
        size_fold(its, ks, k, dim, need, hard) matches Some(f) ==> f.2 >= hard && forall|j: int|
            k <= j < ks.len() && #[trigger] its[ks[j]].visited & chain_bit(dim) == 0 ==> f.2 >= share(
                its[ks[j]],
                dim,
                true,
            ),
    decreases ks.len() - k,
{
    if k < ks.len() {
        let x = ks[k];
        if its[x].visited & chain_bit(dim) == 0 {
            let l = chain_from(its, x, dim, false, CHAIN_STEPS as nat);
            let r = chain_from(its, x, dim, true, CHAIN_STEPS as nat);
            assert(l == Some(Seq::<int>::empty()));
            assert(r == Some(Seq::<int>::empty()));
            let all = seq![x] + Seq::<int>::empty() + Seq::<int>::empty();
            assert(all =~= seq![x]);
            assert(all.drop_last() =~= Seq::<int>::empty());
            let c = chain(its, x, dim).unwrap();
            assert(c.1 == shares(its, all, dim, false));
            assert(all.len() == 1 && all.last() == x);
            assert(shares(its, all.drop_last(), dim, false) == 0);
            assert(c.1 == 0i32.wrapping_add(share(its[x], dim, false)));
            assert(c.1 == extent(its[x], dim));
            assert(c.2 == shares(its, all, dim, true));
            assert(shares(its, all.drop_last(), dim, true) == 0);
            assert(c.2 == share(its[x], dim, true));
            let its2 = c.0;
            assert(its2 == mark(its, all, chain_bit(dim)));
            assert forall|j: int| 0 <= j < ks.len() implies 0 <= #[trigger] ks[j] < its2.len()
                && !its2[ks[j]].relto[dim as int].is_valid() && !its2[ks[j]].relto[dim + 2].is_valid() by {
                assert(its2[ks[j]].relto == its[ks[j]].relto);
            }
            lemma_size_fold_covers(its2, ks, k + 1, dim, spec_max(need, c.1), spec_max(hard, c.2));
            if let Some(f) = size_fold(its2, ks, k + 1, dim, spec_max(need, c.1), spec_max(hard, c.2)) {
                assert forall|j: int|
                    k <= j < ks.len() && #[trigger] its[ks[j]].visited & chain_bit(dim) == 0 implies f.1 >= extent(
                    its[ks[j]],
                    dim,
                ) && f.2 >= share(its[ks[j]], dim, true) by {
                    if ks[j] != x {
                        assert(!all.contains(ks[j]));
                        assert(its2[ks[j]] == its[ks[j]]);
                    }
                }
                if f.1 != need && f.1 != c.1 {
                    let j = choose|j: int|
                        k + 1 <= j < ks.len() && #[trigger] its2[ks[j]].visited & chain_bit(dim) == 0 && f.1
                            == extent(its2[ks[j]], dim);
                    if ks[j] == x {
                        assert(its2[x].visited == its[x].visited | chain_bit(dim));
                        lemma_or_bit(its[x].visited, dim);
                    }
                    assert(!all.contains(ks[j]));
                    assert(its2[ks[j]] == its[ks[j]]);
                    assert(its[ks[j]].visited & chain_bit(dim) == 0);
                } else if f.1 == c.1 && f.1 != need {
                    assert(its[ks[k]].visited & chain_bit(dim) == 0);
                }
            }
        } else {
            lemma_size_fold_covers(its, ks, k + 1, dim, need, hard);
        }
    }
}

/// An item that requests no extent along `dim` is sized to fit its kids: when
/// its kids anchor to no neighbour along `dim`, its extent after sizing is the
/// largest extent, margins included, of its kids not yet in a chain (0 when
/// there are none), and the size it records for its fixed-size content is at
/// least the extent of each of those kids that requests one.
pub proof fn lemma_size_fits_kids<H>(its: Seq<ItemImp<H>>, ks: Seq<int>, item: int, dim: usize)
    requires
        dim < 2,
        0 <= item < its.len(),
        its[item].size.at(dim as int) <= 0,
        forall|j: int|
            0 <= j < ks.len() ==> 0 <= #[trigger] ks[j] < its.len() && !its[ks[j]].relto[dim as int].is_valid()
                && !its[ks[j]].relto[dim + 2].is_valid(),
    ensures
        size_dim(its, ks, item, dim) matches Some(r) ==> forall|j: int|
            0 <= j < ks.len() && #[trigger] its[ks[j]].visited & chain_bit(dim) == 0 ==> r[item].rect.at(
                dim + 2,
            ) >= extent(its[ks[j]], dim) && r[item].computed_size.at(dim as int) >= share(
                its[ks[j]],
                dim,
                true,
            ),
        size_dim(its, ks, item, dim) matches Some(r) ==> r[item].rect.at(dim + 2) == 0 || exists|j: int|
            0 <= j < ks.len() && #[trigger] its[ks[j]].visited & chain_bit(dim) == 0 && r[item].rect.at(
                dim + 2,
            ) == extent(its[ks[j]], dim),
{
    lemma_size_fold_covers(its, ks, 0, dim, 0, 0);
    super::layout::lemma_size_fold_geometry(its, ks, 0, dim, 0, 0);
    if let Some(f) = size_fold(its, ks, 0, dim, 0, 0) {
        assert(f.0[item] == (ItemImp {
            rect: f.0[item].rect,
            computed_size: f.0[item].computed_size,
            visited: f.0[item].visited,
            ..its[item]
        }));
    }
}

/// Setting the chain bit along `dim` makes it set.
pub proof fn lemma_or_bit(v: u32, dim: usize)
    requires
        dim < 2,
    ensures
        (v | chain_bit(dim)) & chain_bit(dim) != 0,
{
    let b = chain_bit(dim);
    assert(b == 1 || b == 2) by (bit_vector)
        requires
            b == 1u32 << dim,
            dim < 2,
    ;
    assert((v | b) & b != 0) by (bit_vector)
        requires
            b == 1 || b == 2,
    ;
}

} // verus!
