use vstd::prelude::*;

use crate::flags::{
    has_flags, EventFlags, ItemState, LayoutFlags, Tag, BUTTON0_CAPTURE, BUTTON0_HOT_UP, BUTTON0_UP, FILL,
};
use crate::geom::{Rect, Vec2};

pub mod data;
pub mod hit;
pub mod laws;
pub mod layout;
pub mod layable;
pub mod tree;

verus! {

/// Size in bytes of the pool from which items take their application data.
pub const MAX_BUFFERSIZE: usize = 1048576;

/// Maximum size in bytes of one item's data.
pub const MAX_DATASIZE: usize = 4096;

/// A handle to an item of a context; `Item::none()` stands for no item.
#[derive(Clone, Copy, Debug, PartialEq, Eq, Structural)]
pub struct Item {
    itemid: i32,
}

impl Item {
    /// The index of the item in its context, or -1 for no item.
    pub closed spec fn id(self) -> int {
        self.itemid as int
    }

    /// The handle with index `i`.
    pub closed spec fn from_id(i: int) -> Item {
        Item { itemid: i as i32 }
    }

    /// Whether the handle names an item.
    pub open spec fn is_valid(self) -> bool {
        self.id() != -1
    }

    fn wrap(itemid: i32) -> (r: Item)
        ensures
            r.id() == itemid as int,
            r == Item::from_id(itemid as int),
    {
        Item { itemid }
    }

    /// The handle that names no item.
    pub fn none() -> (r: Item)
        ensures
            r.id() == -1,
    {
        Item::wrap(-1)
    }

    /// Whether the handle names an item.
    pub fn valid(&self) -> (r: bool)
        ensures
            r == self.is_valid(),
    {
        self.itemid != -1
    }

    /// Whether the handle names no item.
    pub fn invalid(&self) -> (r: bool)
        ensures
            r == !self.is_valid(),
    {
        !self.valid()
    }
}

/// Two handles are equal exactly when their indices are.
pub proof fn lemma_item_eq(a: Item, b: Item)
    ensures
        (a == b) <==> (a.id() == b.id()),
{
}

/// `from_id` gives back the index it was made from.
pub proof fn lemma_from_id(i: int)
    requires
        i32::MIN <= i <= i32::MAX,
    ensures
        Item::from_id(i).id() == i,
{
}

/// Code that an application attaches to items, run when one of the item's
/// events fires; it may change the context in any way its methods allow.
pub trait EventHandler<Wgt>: Sized + Copy {
    /// What handling `event` on `item` does: `before` is the context the
    /// handler finds, `after` the context it leaves. A handler that does not
    /// say promises nothing more than a consistent context.
    open spec fn handled(
        self,
        before: ContextModel<Wgt, Self>,
        item: Item,
        event: EventFlags,
        after: ContextModel<Wgt, Self>,
    ) -> bool {
        true
    }

    /// Handles `event`, which fired on `item` of `ui`.
    fn handle(self, ui: &mut Context<Wgt, Self>, item: Item, event: EventFlags)
        ensures
            self.handled(old(ui)@, item, event, final(ui)@),
    ;
}

/// A handler that does nothing, for contexts whose items need no handlers.
#[derive(Clone, Copy)]
pub struct NoHandler;

impl<Wgt> EventHandler<Wgt> for NoHandler {
    open spec fn handled(
        self,
        before: ContextModel<Wgt, Self>,
        item: Item,
        event: EventFlags,
        after: ContextModel<Wgt, Self>,
    ) -> bool {
        after == before
    }

    fn handle(self, ui: &mut Context<Wgt, Self>, item: Item, event: EventFlags) {
    }
}

/// The handler slot of an item.
pub type Handler<H> = Option<H>;

/// The stored state of one item.
#[derive(Clone, Copy)]
pub struct ItemImp<H> {
    /// declaration independent opaque tag (for persistence)
    pub tag: Tag,
    /// event handler
    pub handler: Handler<H>,
    /// number of kids
    pub numkids: i32,
    /// first kid
    pub firstkid: Item,
    /// last kid
    pub lastkid: Item,
    /// parent item
    pub parent: Item,
    /// position of this item among its parent's kids
    pub kidid: i32,
    /// next sibling with the same parent
    pub nextitem: Item,
    /// previous sibling with the same parent
    pub previtem: Item,
    /// anchoring flags
    pub layout_flags: LayoutFlags,
    /// requested size; a component of 0 means "as large as needed"
    pub size: Vec2,
    /// visited flags of the layout passes
    pub visited: u32,
    /// margins left, top, right, down
    pub margins: [i32; 4],
    /// neighbours to position the borders left, top, right, down to
    pub relto: [Item; 4],
    /// computed size of the fixed-size content
    pub computed_size: Vec2,
    /// rectangle relative to the parent
    pub rect: Rect,
    /// whether the item ignores the cursor
    pub frozen: bool,
    /// offset of the item's data in the pool, or -1 for none
    pub data: isize,
    /// size of the item's data
    pub datasize: usize,
    /// events the handler is run for
    pub event_flags: EventFlags,
}

impl<H> ItemImp<H> {
    /// A fresh item: no links, no size, no data.
    pub open spec fn fresh() -> ItemImp<H> {
        ItemImp {
            tag: 0,
            handler: None,
            numkids: 0,
            firstkid: Item::from_id(-1),
            lastkid: Item::from_id(-1),
            parent: Item::from_id(-1),
            kidid: 0,
            nextitem: Item::from_id(-1),
            previtem: Item::from_id(-1),
            layout_flags: 0,
            size: Vec2 { x: 0, y: 0 },
            visited: 0,
            margins: [0i32, 0i32, 0i32, 0i32],
            relto: [Item::from_id(-1), Item::from_id(-1), Item::from_id(-1), Item::from_id(-1)],
            computed_size: Vec2 { x: 0, y: 0 },
            rect: Rect { x: 0, y: 0, w: 0, h: 0 },
            frozen: false,
            data: -1isize,
            datasize: 0,
            event_flags: 0,
        }
    }

    /// Every handle stored in the item is `none` or names one of `n` items.
    pub open spec fn refs_ok(self, n: int) -> bool {
        &&& ref_ok(self.parent, n)
        &&& ref_ok(self.firstkid, n)
        &&& ref_ok(self.lastkid, n)
        &&& ref_ok(self.nextitem, n)
        &&& ref_ok(self.previtem, n)
        &&& ref_ok(self.relto[0], n)
        &&& ref_ok(self.relto[1], n)
        &&& ref_ok(self.relto[2], n)
        &&& ref_ok(self.relto[3], n)
    }

    /// `other` has the same links and data region as `self`, and valid layout flags.
    pub open spec fn same_links(self, other: ItemImp<H>) -> bool {
        &&& other.parent == self.parent
        &&& other.firstkid == self.firstkid
        &&& other.lastkid == self.lastkid
        &&& other.nextitem == self.nextitem
        &&& other.previtem == self.previtem
        &&& other.numkids == self.numkids
        &&& other.kidid == self.kidid
        &&& other.data == self.data
        &&& other.datasize == self.datasize
        &&& (other.layout_flags == self.layout_flags || other.layout_flags <= FILL)
    }

    fn new() -> (r: ItemImp<H>)
        ensures
            r == ItemImp::<H>::fresh(),
    {
        ItemImp {
            tag: 0,
            handler: None,
            numkids: 0,
            firstkid: Item::none(),
            lastkid: Item::none(),
            parent: Item::none(),
            kidid: 0,
            nextitem: Item::none(),
            previtem: Item::none(),
            layout_flags: 0,
            size: Vec2::zero(),
            visited: 0,
            margins: [0i32, 0i32, 0i32, 0i32],
            relto: [Item::none(), Item::none(), Item::none(), Item::none()],
            computed_size: Vec2::zero(),
            rect: Rect::zero(),
            frozen: false,
            data: -1,
            datasize: 0,
            event_flags: 0,
        }
    }
}

/// `it` with the neighbour handle `k` (0 left, 1 top, 2 right, 3 down) set to `other`.
pub open spec fn with_relto<H>(it: ItemImp<H>, k: int, other: Item) -> ItemImp<H> {
    ItemImp { relto: vstd::array::spec_array_update(it.relto, k, other), ..it }
}

/// `r` is `none` or names one of `n` items.
pub open spec fn ref_ok(r: Item, n: int) -> bool {
    r.id() == -1 || (0 <= r.id() < n)
}

#[derive(Clone, Copy, PartialEq, Eq, Structural)]
enum State {
    IDLE,
    CAPTURE,
}

/// The items of a context, with the handles into them that the context keeps.
struct Store<Wgt, H> {
    items: Vec<ItemImp<H>>,
    widgets: Vec<Wgt>,
    hot_item: Item,
    active_item: Item,
    /// bytes of the data pool in use
    datasize: usize,
    /// the kids of each item, in order
    kids: Ghost<Seq<Seq<int>>>,
    /// the number of ancestors of each item
    depth: Ghost<Seq<nat>>,
}

impl<Wgt, H> Store<Wgt, H> {
    fn empty() -> (r: Store<Wgt, H>)
        ensures
            r.items@ == Seq::<ItemImp<H>>::empty(),
            r.widgets@ == Seq::<Wgt>::empty(),
            r.hot_item.id() == -1,
            r.active_item.id() == -1,
            r.datasize == 0,
            r.kids@ == Seq::<Seq<int>>::empty(),
            r.depth@ == Seq::<nat>::empty(),
    {
        Store {
            items: Vec::new(),
            widgets: Vec::new(),
            hot_item: Item::none(),
            active_item: Item::none(),
            datasize: 0,
            kids: Ghost(Seq::empty()),
            depth: Ghost(Seq::empty()),
        }
    }
}

/// A context: a nested hierarchy of items, the state of the pointing device,
/// and a pool of per-item application data.
pub struct Context<Wgt, H> {
    /// button state in this frame
    buttons: u64,
    /// button state in the previous frame
    last_buttons: u64,
    /// where the cursor was at the beginning of the active state
    start_cursor: Vec2,
    /// where the cursor was last frame
    last_cursor: Vec2,
    /// where the cursor is currently
    cursor: Vec2,
    hot_tag: Tag,
    active_tag: Tag,
    hot_rect: Rect,
    active_rect: Rect,
    state: State,
    store: Store<Wgt, H>,
    data: Vec<u8>,
}

/// What a context holds, as mathematical values.
#[verifier::ext_equal]
pub ghost struct ContextModel<Wgt, H> {
    pub buttons: u64,
    pub last_buttons: u64,
    pub start_cursor: Vec2,
    pub last_cursor: Vec2,
    pub cursor: Vec2,
    pub hot_tag: Tag,
    pub active_tag: Tag,
    pub hot_item: Item,
    pub active_item: Item,
    pub hot_rect: Rect,
    pub active_rect: Rect,
    /// whether button 0 is captured by the active item
    pub capturing: bool,
    pub items: Seq<ItemImp<H>>,
    pub widgets: Seq<Wgt>,
    pub datasize: usize,
    pub data: Seq<u8>,
    /// the kids of each item, in order
    pub kids: Seq<Seq<int>>,
    /// the number of ancestors of each item
    pub depth: Seq<nat>,
}

impl<Wgt, H> View for Context<Wgt, H> {
    type V = ContextModel<Wgt, H>;

    closed spec fn view(&self) -> ContextModel<Wgt, H> {
        ContextModel {
            buttons: self.buttons,
            last_buttons: self.last_buttons,
            start_cursor: self.start_cursor,
            last_cursor: self.last_cursor,
            cursor: self.cursor,
            hot_tag: self.hot_tag,
            active_tag: self.active_tag,
            hot_item: self.store.hot_item,
            active_item: self.store.active_item,
            hot_rect: self.hot_rect,
            active_rect: self.active_rect,
            capturing: self.state == State::CAPTURE,
            items: self.store.items@,
            widgets: self.store.widgets@,
            datasize: self.store.datasize,
            data: self.data@,
            kids: self.store.kids@,
            depth: self.store.depth@,
        }
    }
}

impl<Wgt, H> ContextModel<Wgt, H> {
    /// `item` names one of the items.
    pub open spec fn has(self, item: Item) -> bool {
        0 <= item.id() < self.items.len()
    }

    /// The stored state of `item`.
    pub open spec fn at(self, item: Item) -> ItemImp<H> {
        self.items[item.id()]
    }

    /// The model with item `i` replaced by `it`.
    pub open spec fn with_item(self, i: int, it: ItemImp<H>) -> ContextModel<Wgt, H> {
        ContextModel { items: self.items.update(i, it), ..self }
    }

    /// `other` is no item, or a sibling of `item` (an item with the same parent).
    pub open spec fn may_relate(self, item: Item, other: Item) -> bool {
        other.id() == -1 || (self.has(other) && self.at(other).parent == self.at(item).parent)
    }

    /// The interaction state of `item`: frozen; active, when it is the active
    /// item and either captures the button or is hot and wants the hot release;
    /// hot; or cold.
    pub open spec fn state_of(self, item: Item) -> ItemState {
        let it = self.at(item);
        let hot = self.hot_item == item;
        if it.frozen {
            ItemState::FROZEN
        } else if self.active_item == item {
            if it.event_flags & (BUTTON0_CAPTURE | BUTTON0_UP) != 0 {
                ItemState::ACTIVE
            } else if has_flags(it.event_flags, BUTTON0_HOT_UP) && hot {
                ItemState::ACTIVE
            } else {
                ItemState::COLD
            }
        } else if hot {
            ItemState::HOT
        } else {
            ItemState::COLD
        }
    }

    /// The context is consistent: the items form a forest whose links agree
    /// with `kids` and `depth`, and every handle stored names an item.
    pub open spec fn wf(self) -> bool {
        let n = self.items.len();
        &&& forest_ok(self.items, self.kids, self.depth, self.datasize)
        &&& self.widgets.len() == n
        &&& self.data.len() == MAX_BUFFERSIZE
        &&& self.datasize <= MAX_BUFFERSIZE
        &&& ref_ok(self.hot_item, n as int)
        &&& ref_ok(self.active_item, n as int)
        &&& data_disjoint(self.items)
    }
}

/// No two items own overlapping bytes of the pool.
pub open spec fn data_disjoint<H>(items: Seq<ItemImp<H>>) -> bool {
    forall|i: int, j: int|
        0 <= i < items.len() && 0 <= j < items.len() && i != j && #[trigger] items[i].data >= 0
            && #[trigger] items[j].data >= 0 ==> items[i].data + items[i].datasize <= items[j].data
            || items[j].data + items[j].datasize <= items[i].data
}

/// The `k`-th kid of item `p` is linked to `p` and to its neighbours.
pub open spec fn kid_ok<H>(items: Seq<ItemImp<H>>, kids: Seq<Seq<int>>, p: int, k: int) -> bool {
    let ks = kids[p];
    let c = ks[k];
    &&& 0 <= c < items.len()
    &&& items[c].parent.id() == p
    &&& items[c].kidid == k
    &&& items[c].previtem.id() == (if k == 0 {
        -1
    } else {
        ks[k - 1]
    })
    &&& items[c].nextitem.id() == (if k + 1 == ks.len() {
        -1
    } else {
        ks[k + 1]
    })
}

/// Item `p` counts its kids and points at the first and the last one.
pub open spec fn parent_ok<H>(items: Seq<ItemImp<H>>, kids: Seq<Seq<int>>, p: int) -> bool {
    let ks = kids[p];
    let it = items[p];
    &&& it.numkids == ks.len()
    &&& it.firstkid.id() == (if ks.len() == 0 {
        -1
    } else {
        ks[0]
    })
    &&& it.lastkid.id() == (if ks.len() == 0 {
        -1
    } else {
        ks[ks.len() - 1]
    })
    &&& forall|k: int| 0 <= k < ks.len() ==> #[trigger] kid_ok(items, kids, p, k)
}

/// Item `c` is listed among its parent's kids one level deeper, or is a
/// root without siblings.
pub open spec fn child_ok<H>(
    items: Seq<ItemImp<H>>,
    kids: Seq<Seq<int>>,
    depth: Seq<nat>,
    c: int,
) -> bool {
    let it = items[c];
    if it.parent.id() == -1 {
        &&& depth[c] == 0
        &&& it.previtem.id() == -1
        &&& it.nextitem.id() == -1
    } else {
        let p = it.parent.id();
        &&& 0 <= it.kidid < kids[p].len()
        &&& kids[p][it.kidid as int] == c
        &&& depth[c] == depth[p] + 1
    }
}

/// Item `i` owns no data, or a region of the first `used` bytes of the pool.
pub open spec fn data_ok<H>(items: Seq<ItemImp<H>>, used: usize, i: int) -> bool {
    let it = items[i];
    (it.data == -1 && it.datasize == 0) || (0 <= it.data && it.data + it.datasize <= used)
}

/// Item `i` is consistent with the rest of the items.
pub open spec fn item_ok<H>(
    items: Seq<ItemImp<H>>,
    kids: Seq<Seq<int>>,
    depth: Seq<nat>,
    used: usize,
    i: int,
) -> bool {
    &&& items[i].refs_ok(items.len() as int)
    &&& items[i].layout_flags <= FILL
    &&& parent_ok(items, kids, i)
    &&& child_ok(items, kids, depth, i)
    &&& data_ok(items, used, i)
}

/// The items form a forest whose links agree with `kids` and `depth`.
pub open spec fn forest_ok<H>(
    items: Seq<ItemImp<H>>,
    kids: Seq<Seq<int>>,
    depth: Seq<nat>,
    used: usize,
) -> bool {
    let n = items.len();
    &&& n <= i32::MAX
    &&& kids.len() == n
    &&& depth.len() == n
    &&& forall|i: int| 0 <= i < n ==> #[trigger] item_ok(items, kids, depth, used, i)
}

impl<Wgt, H> Context<Wgt, H> {
    #[verifier::type_invariant]
    closed spec fn inv(self) -> bool {
        self@.wf()
    }

    /// Every context is consistent, so the laws about consistent models apply
    /// to the model of any context; a call does nothing at run time.
    pub fn lemma_wf(&self)
        ensures
            self@.wf(),
    {
        proof {
            use_type_invariant(self);
        }
    }

    /// The model of the context with its items taken from `st`.
    closed spec fn view_with(&self, st: Store<Wgt, H>) -> ContextModel<Wgt, H> {
        ContextModel {
            hot_item: st.hot_item,
            active_item: st.active_item,
            items: st.items@,
            widgets: st.widgets@,
            datasize: st.datasize,
            kids: st.kids@,
            depth: st.depth@,
            ..self@
        }
    }

    /// Takes the items out, leaving an empty store behind.
    fn take_store(&mut self) -> (st: Store<Wgt, H>)
        ensures
            final(self).view_with(st) == old(self)@,
            final(self)@ == (ContextModel {
                hot_item: Item::from_id(-1),
                active_item: Item::from_id(-1),
                items: Seq::empty(),
                widgets: Seq::empty(),
                datasize: 0,
                kids: Seq::empty(),
                depth: Seq::empty(),
                ..old(self)@
            }),
    {
        proof {
            use_type_invariant(&*self);
        }
        let mut st = Store::empty();
        std::mem::swap(&mut st, &mut self.store);
        st
    }

    /// Puts the items of `st` in place of the (empty) store.
    fn put_store(&mut self, st: Store<Wgt, H>)
        requires
            old(self).view_with(st).wf(),
        ensures
            final(self)@ == old(self).view_with(st),
    {
        let mut st = st;
        std::mem::swap(&mut st, &mut self.store);
    }
}

/// Replacing an item by one with the same links keeps a context consistent.
pub proof fn lemma_with_item_wf<Wgt, H>(m: ContextModel<Wgt, H>, i: int, it: ItemImp<H>)
    requires
        m.wf(),
        0 <= i < m.items.len(),
        m.items[i].same_links(it),
        it.relto == m.items[i].relto || it.refs_ok(m.items.len() as int),
    ensures
        m.with_item(i, it).wf(),
{
    let items2 = m.items.update(i, it);
    let n = m.items.len();
    assert forall|j: int| 0 <= j < n implies #[trigger] item_ok(
        items2,
        m.kids,
        m.depth,
        m.datasize,
        j,
    ) by {
        assert(item_ok(m.items, m.kids, m.depth, m.datasize, j));
        let ks = m.kids[j];
        assert forall|k: int| 0 <= k < ks.len() implies #[trigger] kid_ok(items2, m.kids, j, k) by {
            assert(kid_ok(m.items, m.kids, j, k));
        }
        if m.items[j].parent.id() != -1 {
            assert(item_ok(m.items, m.kids, m.depth, m.datasize, m.items[j].parent.id()));
        }
    }
}

/// Adding a fresh root item keeps a context consistent.
pub proof fn lemma_push_wf<Wgt, H>(m: ContextModel<Wgt, H>, wgt: Wgt)
    requires
        m.wf(),
        m.items.len() < i32::MAX,
    ensures
        (ContextModel {
            items: m.items.push(ItemImp::<H>::fresh()),
            widgets: m.widgets.push(wgt),
            kids: m.kids.push(Seq::empty()),
            depth: m.depth.push(0),
            ..m
        }).wf(),
{
    let n = m.items.len() as int;
    let items2 = m.items.push(ItemImp::<H>::fresh());
    let kids2 = m.kids.push(Seq::<int>::empty());
    let depth2 = m.depth.push(0nat);
    assert forall|j: int| 0 <= j <= n implies #[trigger] item_ok(
        items2,
        kids2,
        depth2,
        m.datasize,
        j,
    ) by {
        if j < n {
            assert(item_ok(m.items, m.kids, m.depth, m.datasize, j));
            let ks = m.kids[j];
            assert forall|k: int| 0 <= k < ks.len() implies #[trigger] kid_ok(
                items2,
                kids2,
                j,
                k,
            ) by {
                assert(kid_ok(m.items, m.kids, j, k));
            }
            if m.items[j].parent.id() != -1 {
                assert(item_ok(m.items, m.kids, m.depth, m.datasize, m.items[j].parent.id()));
            }
        } else {
            lemma_from_id(-1);
        }
    }
}

/// The model of a fresh context.
pub open spec fn initial_model<Wgt, H>() -> ContextModel<Wgt, H> {
    ContextModel {
        buttons: 0,
        last_buttons: 0,
        start_cursor: Vec2 { x: 0, y: 0 },
        last_cursor: Vec2 { x: 0, y: 0 },
        cursor: Vec2 { x: 0, y: 0 },
        hot_tag: u64::MAX,
        active_tag: u64::MAX,
        hot_item: Item::from_id(-1),
        active_item: Item::from_id(-1),
        hot_rect: Rect { x: 0, y: 0, w: 0, h: 0 },
        active_rect: Rect { x: 0, y: 0, w: 0, h: 0 },
        capturing: false,
        items: Seq::empty(),
        widgets: Seq::empty(),
        datasize: 0,
        data: Seq::new(MAX_BUFFERSIZE as nat, |i: int| 0u8),
        kids: Seq::empty(),
        depth: Seq::empty(),
    }
}

/// The bit of `button` in a button mask.
pub open spec fn button_bit(button: u64) -> u64 {
    1u64 << button
}

/// Whether `button` is down in the mask `buttons`.
pub open spec fn button_down(buttons: u64, button: u64) -> bool {
    buttons & button_bit(button) != 0
}

/// The mask `buttons` with `button` set down (`enabled`) or up.
pub open spec fn with_button(buttons: u64, button: u64, enabled: bool) -> u64 {
    if enabled {
        buttons | button_bit(button)
    } else {
        buttons & !button_bit(button)
    }
}

/// The component-wise difference `a - b`, wrapping around on overflow.
pub open spec fn vec2_sub(a: Vec2, b: Vec2) -> Vec2 {
    Vec2 { x: a.x.wrapping_sub(b.x), y: a.y.wrapping_sub(b.y) }
}

impl<Wgt, H: EventHandler<Wgt>> Context<Wgt, H> {
    /// A context with no items, no buttons down and the cursor at the origin.
    pub fn create_context() -> (r: Context<Wgt, H>)
        ensures
            r@ == initial_model::<Wgt, H>(),
    {
        let data: Vec<u8> = vec![0u8; MAX_BUFFERSIZE];
        assert(data@ =~= Seq::new(MAX_BUFFERSIZE as nat, |i: int| 0u8)) by {
            assert forall|i: int| 0 <= i < MAX_BUFFERSIZE implies data@[i] == 0u8 by {
                assert(cloned::<u8>(0u8, data@[i]));
            }
        }
        Context {
            buttons: 0,
            last_buttons: 0,
            start_cursor: Vec2::zero(),
            last_cursor: Vec2::zero(),
            cursor: Vec2::zero(),
            hot_tag: u64::MAX,
            active_tag: u64::MAX,
            hot_rect: Rect::zero(),
            active_rect: Rect::zero(),
            state: State::IDLE,
            store: Store::empty(),
            data,
        }
    }

    /// Sets `button` down (`enabled`) or up for this frame.
    pub fn set_button(&mut self, button: u64, enabled: bool)
        requires
            button < 64,
        ensures
            final(self)@ == (ContextModel {
                buttons: with_button(old(self)@.buttons, button, enabled),
                ..old(self)@
            }),
    {
        proof {
            use_type_invariant(&*self);
        }
        let mask = 1u64 << button;
        self.buttons = if enabled {
            self.buttons | mask
        } else {
            self.buttons & !mask
        };
    }

    /// Whether `button` was down in the previous frame.
    pub fn get_last_button(&self, button: u64) -> (r: bool)
        requires
            button < 64,
        ensures
            r == button_down(self@.last_buttons, button),
    {
        self.last_buttons & (1u64 << button) != 0
    }

    /// Whether `button` is down in this frame.
    pub fn get_button(&self, button: u64) -> (r: bool)
        requires
            button < 64,
        ensures
            r == button_down(self@.buttons, button),
    {
        self.buttons & (1u64 << button) != 0
    }

    /// Whether `button` went down since the previous frame.
    pub fn button_pressed(&self, button: u64) -> (r: bool)
        requires
            button < 64,
        ensures
            r == (!button_down(self@.last_buttons, button) && button_down(self@.buttons, button)),
    {
        !self.get_last_button(button) && self.get_button(button)
    }

    /// Whether `button` went up since the previous frame.
    pub fn button_released(&self, button: u64) -> (r: bool)
        requires
            button < 64,
        ensures
            r == (button_down(self@.last_buttons, button) && !button_down(self@.buttons, button)),
    {
        self.get_last_button(button) && !self.get_button(button)
    }

    /// Moves the cursor to (`x`, `y`).
    pub fn set_cursor(&mut self, x: i32, y: i32)
        ensures
            final(self)@ == (ContextModel { cursor: Vec2 { x, y }, ..old(self)@ }),
    {
        proof {
            use_type_invariant(&*self);
        }
        self.cursor.x = x;
        self.cursor.y = y;
    }

    /// Where the cursor is.
    pub fn get_cursor(&self) -> (r: Vec2)
        ensures
            r == self@.cursor,
    {
        self.cursor
    }

    /// Where the cursor was when the active state began.
    pub fn get_cursor_start(&self) -> (r: Vec2)
        ensures
            r == self@.start_cursor,
    {
        self.start_cursor
    }

    /// How far the cursor moved since the last frame.
    pub fn get_cursor_delta(&self) -> (r: Vec2)
        ensures
            r == vec2_sub(self@.cursor, self@.last_cursor),
    {
        Vec2 {
            x: self.cursor.x.wrapping_sub(self.last_cursor.x),
            y: self.cursor.y.wrapping_sub(self.last_cursor.y),
        }
    }

    /// How far the cursor moved since the active state began.
    pub fn get_cursor_start_delta(&self) -> (r: Vec2)
        ensures
            r == vec2_sub(self@.cursor, self@.start_cursor),
    {
        Vec2 {
            x: self.cursor.x.wrapping_sub(self.start_cursor.x),
            y: self.cursor.y.wrapping_sub(self.start_cursor.y),
        }
    }

    /// The root item (the first item made), or no item in an empty context.
    pub fn root(&mut self) -> (r: Item)
        ensures
            final(self)@ == old(self)@,
            r.id() == (if old(self)@.items.len() == 0 {
                -1
            } else {
                0
            }),
    {
        if self.count() == 0 {
            return Item::none();
        }
        Item::wrap(0)
    }

    fn count(&self) -> (r: usize)
        ensures
            r == self@.items.len(),
    {
        self.store.items.len()
    }

    fn get(&self, item: Item) -> (r: &ItemImp<H>)
        requires
            self@.has(item),
        ensures
            *r == self@.at(item),
    {
        &self.store.items[item.itemid as usize]
    }

    fn put(&mut self, item: Item, it: ItemImp<H>)
        requires
            old(self)@.has(item),
            old(self)@.at(item).same_links(it),
            it.relto == old(self)@.at(item).relto || it.refs_ok(old(self)@.items.len() as int),
        ensures
            final(self)@ == old(self)@.with_item(item.id(), it),
    {
        proof {
            use_type_invariant(&*self);
            lemma_with_item_wf(self@, item.id(), it);
        }
        let mut st = self.take_store();
        st.items.set(item.itemid as usize, it);
        self.put_store(st);
    }

    /// Removes every item and releases all item data; the pool's bytes stay.
    pub fn clear(&mut self)
        ensures
            final(self)@ == (ContextModel {
                items: Seq::empty(),
                widgets: Seq::empty(),
                datasize: 0,
                hot_item: Item::from_id(-1),
                active_item: Item::from_id(-1),
                kids: Seq::empty(),
                depth: Seq::empty(),
                ..old(self)@
            }),
    {
        proof {
            use_type_invariant(&*self);
        }
        let _items = self.take_store();
    }

    /// Makes a new root item carrying `wgt`; the first item made is the root.
    pub fn item(&mut self, wgt: Wgt) -> (r: Item)
        requires
            old(self)@.items.len() < i32::MAX,
        ensures
            r.id() == old(self)@.items.len(),
            final(self)@ == (ContextModel {
                items: old(self)@.items.push(ItemImp::<H>::fresh()),
                widgets: old(self)@.widgets.push(wgt),
                kids: old(self)@.kids.push(Seq::empty()),
                depth: old(self)@.depth.push(0),
                ..old(self)@
            }),
    {
        proof {
            use_type_invariant(&*self);
            lemma_push_wf(self@, wgt);
        }
        let idx = self.count();
        let it = Item::wrap(idx as i32);
        let mut st = self.take_store();
        st.items.push(ItemImp::new());
        st.widgets.push(wgt);
        st.kids = Ghost(st.kids@.push(Seq::empty()));
        st.depth = Ghost(st.depth@.push(0));
        self.put_store(st);
        it
    }

    /// Freezes (`enable`) or thaws `item`; a frozen item ignores the cursor.
    pub fn set_frozen(&mut self, item: Item, enable: bool)
        requires
            old(self)@.has(item),
        ensures
            final(self)@ == old(self)@.with_item(
                item.id(),
                ItemImp { frozen: enable, ..old(self)@.at(item) },
            ),
    {
        let mut it = *self.get(item);
        it.frozen = enable;
        self.put(item, it);
    }

    /// Requests the size `w` x `h` for `item`; a 0 means "as large as needed".
    pub fn set_size(&mut self, item: Item, w: u32, h: u32)
        requires
            old(self)@.has(item),
        ensures
            final(self)@ == old(self)@.with_item(
                item.id(),
                ItemImp { size: Vec2 { x: w as i32, y: h as i32 }, ..old(self)@.at(item) },
            ),
    {
        let mut it = *self.get(item);
        it.size.x = w as i32;
        it.size.y = h as i32;
        self.put(item, it);
    }

    /// The requested width of `item`.
    pub fn get_width(&mut self, item: Item) -> (r: u32)
        requires
            old(self)@.has(item),
        ensures
            final(self)@ == old(self)@,
            r == old(self)@.at(item).size.x as u32,
    {
        self.get(item).size.x as u32
    }

    /// The requested height of `item`.
    pub fn get_height(&mut self, item: Item) -> (r: u32)
        requires
            old(self)@.has(item),
        ensures
            final(self)@ == old(self)@,
            r == old(self)@.at(item).size.y as u32,
    {
        self.get(item).size.y as u32
    }

    /// Sets the anchoring flags of `item`.
    pub fn set_layout(&mut self, item: Item, flags: LayoutFlags)
        requires
            old(self)@.has(item),
            flags <= FILL,
        ensures
            final(self)@ == old(self)@.with_item(
                item.id(),
                ItemImp { layout_flags: flags, ..old(self)@.at(item) },
            ),
    {
        let mut it = *self.get(item);
        it.layout_flags = flags;
        self.put(item, it);
    }

    /// The anchoring flags of `item`.
    pub fn get_layout(&mut self, item: Item) -> (r: LayoutFlags)
        requires
            old(self)@.has(item),
        ensures
            final(self)@ == old(self)@,
            r == old(self)@.at(item).layout_flags,
    {
        self.get(item).layout_flags
    }

    /// Sets the margins of `item`: left, top, right and down.
    pub fn set_margins(&mut self, item: Item, l: i32, t: i32, r: i32, b: i32)
        requires
            old(self)@.has(item),
        ensures
            final(self)@ == old(self)@.with_item(
                item.id(),
                ItemImp { margins: [l, t, r, b], ..old(self)@.at(item) },
            ),
    {
        let mut it = *self.get(item);
        it.margins = [l, t, r, b];
        self.put(item, it);
    }

    /// The left margin of `item`.
    pub fn get_margin_left(&mut self, item: Item) -> (r: i32)
        requires
            old(self)@.has(item),
        ensures
            final(self)@ == old(self)@,
            r == old(self)@.at(item).margins[0],
    {
        self.get(item).margins[0]
    }

    /// The top margin of `item`.
    pub fn get_margin_top(&mut self, item: Item) -> (r: i32)
        requires
            old(self)@.has(item),
        ensures
            final(self)@ == old(self)@,
            r == old(self)@.at(item).margins[1],
    {
        self.get(item).margins[1]
    }

    /// The right margin of `item`.
    pub fn get_margin_right(&mut self, item: Item) -> (r: i32)
        requires
            old(self)@.has(item),
        ensures
            final(self)@ == old(self)@,
            r == old(self)@.at(item).margins[2],
    {
        self.get(item).margins[2]
    }

    /// The bottom margin of `item`.
    pub fn get_margin_down(&mut self, item: Item) -> (r: i32)
        requires
            old(self)@.has(item),
        ensures
            final(self)@ == old(self)@,
            r == old(self)@.at(item).margins[3],
    {
        self.get(item).margins[3]
    }

    fn set_rel_to(&mut self, item: Item, k: usize, other: Item)
        requires
            old(self)@.has(item),
            k < 4,
            old(self)@.may_relate(item, other),
        ensures
            final(self)@ == old(self)@.with_item(item.id(), with_relto(old(self)@.at(item), k as int, other)),
    {
        proof {
            use_type_invariant(&*self);
            broadcast use vstd::array::group_array_axioms;
        }
        let mut it = *self.get(item);
        it.relto[k] = other;
        assert(it == with_relto(self@.at(item), k as int, other));
        assert(item_ok(self@.items, self@.kids, self@.depth, self@.datasize, item.id()));
        assert(it.relto@ == self@.at(item).relto@.update(k as int, other));
        assert(it.refs_ok(self@.items.len() as int));
        self.put(item, it);
    }

    /// Anchors the left border of `item` to `other`, a sibling, or to its parent
    /// when `other` is no item.
    pub fn set_rel_to_left(&mut self, item: Item, other: Item)
        requires
            old(self)@.has(item),
            old(self)@.may_relate(item, other),
        ensures
            final(self)@ == old(self)@.with_item(item.id(), with_relto(old(self)@.at(item), 0, other)),
    {
        self.set_rel_to(item, 0, other);
    }

    /// The item the left border of `item` is anchored to.
    pub fn get_rel_to_left(&mut self, item: Item) -> (r: Item)
        requires
            old(self)@.has(item),
        ensures
            final(self)@ == old(self)@,
            r == old(self)@.at(item).relto[0],
    {
        self.get(item).relto[0]
    }

    /// Anchors the top border of `item` to `other`, a sibling, or to its parent
    /// when `other` is no item.
    pub fn set_rel_to_top(&mut self, item: Item, other: Item)
        requires
            old(self)@.has(item),
            old(self)@.may_relate(item, other),
        ensures
            final(self)@ == old(self)@.with_item(item.id(), with_relto(old(self)@.at(item), 1, other)),
    {
        self.set_rel_to(item, 1, other);
    }

    /// The item the top border of `item` is anchored to.
    pub fn get_rel_to_top(&mut self, item: Item) -> (r: Item)
        requires
            old(self)@.has(item),
        ensures
            final(self)@ == old(self)@,
            r == old(self)@.at(item).relto[1],
    {
        self.get(item).relto[1]
    }

    /// Anchors the right border of `item` to `other`, a sibling, or to its parent
    /// when `other` is no item.
    pub fn set_rel_to_right(&mut self, item: Item, other: Item)
        requires
            old(self)@.has(item),
            old(self)@.may_relate(item, other),
        ensures
            final(self)@ == old(self)@.with_item(item.id(), with_relto(old(self)@.at(item), 2, other)),
    {
        self.set_rel_to(item, 2, other);
    }

    /// The item the right border of `item` is anchored to.
    pub fn get_rel_to_right(&mut self, item: Item) -> (r: Item)
        requires
            old(self)@.has(item),
        ensures
            final(self)@ == old(self)@,
            r == old(self)@.at(item).relto[2],
    {
        self.get(item).relto[2]
    }

    /// Anchors the bottom border of `item` to `other`, a sibling, or to its parent
    /// when `other` is no item.
    pub fn set_rel_to_down(&mut self, item: Item, other: Item)
        requires
            old(self)@.has(item),
            old(self)@.may_relate(item, other),
        ensures
            final(self)@ == old(self)@.with_item(item.id(), with_relto(old(self)@.at(item), 3, other)),
    {
        self.set_rel_to(item, 3, other);
    }

    /// The item the bottom border of `item` is anchored to.
    pub fn get_rel_to_down(&mut self, item: Item) -> (r: Item)
        requires
            old(self)@.has(item),
        ensures
            final(self)@ == old(self)@,
            r == old(self)@.at(item).relto[3],
    {
        self.get(item).relto[3]
    }

    /// The laid-out rectangle of `item`, relative to its parent.
    pub fn get_rect(&mut self, item: Item) -> (r: Rect)
        requires
            old(self)@.has(item),
        ensures
            final(self)@ == old(self)@,
            r == old(self)@.at(item).rect,
    {
        self.get(item).rect
    }

    /// The rectangle of the active item, in absolute coordinates.
    pub fn get_active_rect(&self) -> (r: Rect)
        ensures
            r == self@.active_rect,
    {
        self.active_rect
    }

    /// The first kid of `item`, or no item.
    pub fn first_child(&mut self, item: Item) -> (r: Item)
        requires
            old(self)@.has(item),
        ensures
            final(self)@ == old(self)@,
            r == old(self)@.at(item).firstkid,
    {
        self.get(item).firstkid
    }

    /// The last kid of `item`, or no item.
    pub fn last_child(&mut self, item: Item) -> (r: Item)
        requires
            old(self)@.has(item),
        ensures
            final(self)@ == old(self)@,
            r == old(self)@.at(item).lastkid,
    {
        self.get(item).lastkid
    }

    /// The next sibling of `item`, or no item.
    pub fn next_sibling(&mut self, item: Item) -> (r: Item)
        requires
            old(self)@.has(item),
        ensures
            final(self)@ == old(self)@,
            r == old(self)@.at(item).nextitem,
    {
        self.get(item).nextitem
    }

    /// The previous sibling of `item`, or no item.
    pub fn prev_sibling(&mut self, item: Item) -> (r: Item)
        requires
            old(self)@.has(item),
        ensures
            final(self)@ == old(self)@,
            r == old(self)@.at(item).previtem,
    {
        self.get(item).previtem
    }

    /// The parent of `item`, or no item.
    pub fn parent(&mut self, item: Item) -> (r: Item)
        requires
            old(self)@.has(item),
        ensures
            final(self)@ == old(self)@,
            r == old(self)@.at(item).parent,
    {
        self.get(item).parent
    }

    /// Gives write access to the widget that `item` carries.
    pub fn get_widget(&mut self, item: Item) -> (r: &mut Wgt)
        requires
            old(self)@.has(item),
        ensures
            *r == old(self)@.widgets[item.id()],
            final(self)@ == (ContextModel {
                widgets: old(self)@.widgets.update(item.id(), *final(r)),
                ..old(self)@
            }),
    {
        proof {
            use_type_invariant(&*self);
        }
        &mut self.store.widgets[item.itemid as usize]
    }

    /// Gives `item` the tag `tag`; when `tag` is the tag of the hot or the active
    /// item, `item` becomes the hot or the active item.
    pub fn set_tag(&mut self, item: Item, tag: Tag)
        requires
            old(self)@.has(item),
        ensures
            final(self)@ == (ContextModel {
                hot_item: if tag != u64::MAX && tag == old(self)@.hot_tag {
                    item
                } else {
                    old(self)@.hot_item
                },
                active_item: if tag != u64::MAX && tag == old(self)@.active_tag {
                    item
                } else {
                    old(self)@.active_item
                },
                ..old(self)@.with_item(item.id(), ItemImp { tag, ..old(self)@.at(item) })
            }),
    {
        let mut it = *self.get(item);
        it.tag = tag;
        self.put(item, it);
        proof {
            use_type_invariant(&*self);
        }
        if tag != u64::MAX {
            if tag == self.hot_tag {
                self.store.hot_item = item;
            }
            if tag == self.active_tag {
                self.store.active_item = item;
            }
        }
    }

    /// The tag of `item`.
    pub fn get_tag(&mut self, item: Item) -> (r: Tag)
        requires
            old(self)@.has(item),
        ensures
            final(self)@ == old(self)@,
            r == old(self)@.at(item).tag,
    {
        self.get(item).tag
    }

    /// Attaches `handler` to `item`, to be run for the events in `flags`.
    pub fn set_handler(&mut self, item: Item, handler: Handler<H>, flags: EventFlags)
        requires
            old(self)@.has(item),
        ensures
            final(self)@ == old(self)@.with_item(
                item.id(),
                ItemImp { handler, event_flags: flags, ..old(self)@.at(item) },
            ),
    {
        let mut it = *self.get(item);
        it.handler = handler;
        it.event_flags = flags;
        self.put(item, it);
    }

    /// The handler of `item`.
    pub fn get_handler(&mut self, item: Item) -> (r: Handler<H>)
        requires
            old(self)@.has(item),
        ensures
            final(self)@ == old(self)@,
            r == old(self)@.at(item).handler,
    {
        self.get(item).handler
    }

    /// The events the handler of `item` is run for.
    pub fn get_handler_flags(&mut self, item: Item) -> (r: EventFlags)
        requires
            old(self)@.has(item),
        ensures
            final(self)@ == old(self)@,
            r == old(self)@.at(item).event_flags,
    {
        self.get(item).event_flags
    }

    /// The position of `item` among its parent's kids.
    pub fn get_child_id(&mut self, item: Item) -> (r: i32)
        requires
            old(self)@.has(item),
        ensures
            final(self)@ == old(self)@,
            r == old(self)@.at(item).kidid,
    {
        self.get(item).kidid
    }

    /// The number of kids of `item`.
    pub fn get_child_count(&mut self, item: Item) -> (r: i32)
        requires
            old(self)@.has(item),
        ensures
            final(self)@ == old(self)@,
            r == old(self)@.at(item).numkids,
    {
        self.get(item).numkids
    }

    /// Whether `item` is the active item.
    pub fn is_active(&self, item: Item) -> (r: bool)
        ensures
            r == (self@.active_item == item),
    {
        self.store.active_item == item
    }

    /// Whether `item` is the hot item (the one under the cursor).
    pub fn is_hot(&self, item: Item) -> (r: bool)
        ensures
            r == (self@.hot_item == item),
    {
        self.store.hot_item == item
    }

    /// The interaction state of `item`.
    pub fn get_state(&mut self, item: Item) -> (r: ItemState)
        requires
            old(self)@.has(item),
        ensures
            final(self)@ == old(self)@,
            r == old(self)@.state_of(item),
    {
        let hot = self.is_hot(item);
        let active = self.is_active(item);
        let pitem = self.get(item);
        if pitem.frozen {
            return ItemState::FROZEN;
        }
        if active {
            if pitem.event_flags & (BUTTON0_CAPTURE | BUTTON0_UP) != 0 {
                return ItemState::ACTIVE;
            }
            if pitem.event_flags & BUTTON0_HOT_UP == BUTTON0_HOT_UP && hot {
                return ItemState::ACTIVE;
            }
            return ItemState::COLD;
        } else if hot {
            return ItemState::HOT;
        }
        ItemState::COLD
    }
}

} // verus!
