use vstd::prelude::*;

use super::tree::lemma_depth_bound;
use super::{button_down, item_ok, kid_ok, parent_ok, Context, ContextModel, EventHandler, Item, State};
use crate::flags::{EventFlags, BUTTON0_CAPTURE, BUTTON0_DOWN, BUTTON0_HOT_UP, BUTTON0_UP};
use crate::geom::Rect;

verus! {

impl<Wgt, H> ContextModel<Wgt, H> {
    /// The deepest unfrozen item at (`x`, `y`) in the tree below item `i`, looking
    /// at the kids in order and the first hit first, with the rectangle the search
    /// records for it; `None` when `i` is frozen or the point is outside its
    /// rectangle. Coordinates are relative to the parent of `i`; `ox`, `oy` is
    /// the offset the search has accumulated. `fuel` bounds the depth.
    pub open spec fn find(self, i: int, x: i32, y: i32, ox: i32, oy: i32, fuel: nat) -> Option<
        (Item, Rect),
    >
        decreases fuel, 0int, 0int,
    {
        if fuel == 0 {
            None
        } else {
            let it = self.items[i];
            let r = it.rect;
            let x2 = x.wrapping_sub(r.x);
            let y2 = y.wrapping_sub(r.y);
            let ox2 = ox.wrapping_add(r.x);
            let oy2 = oy.wrapping_add(r.y);
            if it.frozen {
                None
            } else if x2 >= 0 && y2 >= 0 && x2 < r.w && y2 < r.h {
                match self.find_kids(self.kids[i], 0, x2, y2, ox2, oy2, (fuel - 1) as nat) {
                    Some(h) => Some(h),
                    None => Some(
                        (
                            Item::from_id(i),
                            Rect { x: r.x.wrapping_add(ox2), y: r.y.wrapping_add(oy2), ..r },
                        ),
                    ),
                }
            } else {
                None
            }
        }
    }

    /// The first hit among the kids `ks[k..]`.
    pub open spec fn find_kids(
        self,
        ks: Seq<int>,
        k: int,
        x: i32,
        y: i32,
        ox: i32,
        oy: i32,
        fuel: nat,
    ) -> Option<(Item, Rect)>
        decreases fuel, 1int, ks.len() - k,
    {
        if k < 0 || k >= ks.len() {
            None
        } else {
            match self.find(ks[k], x, y, ox, oy, fuel) {
                Some(h) => Some(h),
                None => self.find_kids(ks, k + 1, x, y, ox, oy, fuel),
            }
        }
    }

    /// The search fuel that reaches every item below `item`.
    pub open spec fn height_bound(self, item: Item) -> nat {
        (self.items.len() - self.depth[item.id()]) as nat
    }

    /// Hit-testing of (`x`, `y`) below `item`, as `find_item` does it.
    pub open spec fn hit(self, item: Item, x: i32, y: i32, ox: i32, oy: i32) -> Option<(Item, Rect)> {
        self.find(item.id(), x, y, ox, oy, self.height_bound(item))
    }

    /// The model after a hit test with result `f`: the rectangle of the hit is recorded.
    pub open spec fn after_hit(self, f: Option<(Item, Rect)>) -> ContextModel<Wgt, H> {
        match f {
            Some(h) => ContextModel { hot_rect: h.1, ..self },
            None => self,
        }
    }

    /// The item a hit test result names, or no item.
    pub open spec fn hit_item(f: Option<(Item, Rect)>) -> Item {
        match f {
            Some(h) => h.0,
            None => Item::from_id(-1),
        }
    }

    /// The item under the cursor at the start of a frame, or no item.
    pub open spec fn frame_hot(self) -> Item {
        Self::hit_item(self.hit(Item::from_id(0), self.cursor.x, self.cursor.y, 0, 0))
    }

    /// The model after the hit test of a frame and the changes made before any
    /// handler runs: when idle, the cursor start is reset and the item under the
    /// cursor becomes hot, or, when button 0 is down, active (its rectangle
    /// becoming the active rectangle, and no item hot).
    pub open spec fn frame_start(self) -> ContextModel<Wgt, H> {
        let cursor = self.cursor;
        let f = self.hit(Item::from_id(0), cursor.x, cursor.y, 0, 0);
        let hot = Self::hit_item(f);
        let m1 = self.after_hit(f);
        if !self.capturing {
            if button_down(self.buttons, 0) {
                ContextModel {
                    start_cursor: cursor,
                    hot_item: Item::from_id(-1),
                    active_rect: m1.hot_rect,
                    active_item: hot,
                    ..m1
                }
            } else {
                ContextModel { start_cursor: cursor, hot_item: hot, ..m1 }
            }
        } else {
            m1
        }
    }

    /// The first notification of a frame: button 0 down to the item pressed,
    /// button 0 up to the active item when released, or the capture to the
    /// active item while held.
    pub open spec fn frame_event(self) -> Option<(Item, EventFlags)> {
        let hot = self.frame_hot();
        let active = self.active_item;
        if !self.capturing {
            if button_down(self.buttons, 0) && hot.is_valid() {
                Some((hot, BUTTON0_DOWN))
            } else {
                None
            }
        } else if !button_down(self.buttons, 0) {
            if active.is_valid() {
                Some((active, BUTTON0_UP))
            } else {
                None
            }
        } else if active.is_valid() {
            Some((active, BUTTON0_CAPTURE))
        } else {
            None
        }
    }

    /// Whether a release over the active item is notified as a hot release,
    /// given the model `ma` left by the first notification (the item must still
    /// exist there).
    pub open spec fn frame_hot_up(self, ma: ContextModel<Wgt, H>) -> bool {
        let active = self.active_item;
        &&& self.capturing
        &&& !button_down(self.buttons, 0)
        &&& active.is_valid()
        &&& active == self.frame_hot()
        &&& ma.has(active)
    }

    /// The model `mb` left by the notifications, with the changes a frame makes
    /// after them: a press starts the capture; a release ends it and leaves no
    /// item active; while held, the active item is hot only when it is (still)
    /// the item under the cursor.
    pub open spec fn frame_finish(self, mb: ContextModel<Wgt, H>) -> ContextModel<Wgt, H> {
        let hot = self.frame_hot();
        let active = self.active_item;
        if !self.capturing {
            if button_down(self.buttons, 0) {
                ContextModel { capturing: true, ..mb }
            } else {
                mb
            }
        } else if !button_down(self.buttons, 0) {
            ContextModel { active_item: Item::from_id(-1), capturing: false, ..mb }
        } else {
            ContextModel {
                hot_item: if hot == active && hot.is_valid() && mb.has(hot) {
                    hot
                } else {
                    Item::from_id(-1)
                },
                ..mb
            }
        }
    }

    /// The model `mc` at the end of a frame: the cursor and the buttons become
    /// the previous frame's, and the tags of the hot and the active item are
    /// remembered.
    pub open spec fn remembered(mc: ContextModel<Wgt, H>) -> ContextModel<Wgt, H> {
        ContextModel {
            last_cursor: mc.cursor,
            last_buttons: mc.buttons,
            hot_tag: if mc.hot_item.is_valid() {
                mc.at(mc.hot_item).tag
            } else {
                0
            },
            active_tag: if mc.active_item.is_valid() {
                mc.at(mc.active_item).tag
            } else {
                0
            },
            ..mc
        }
    }

    /// One frame of `process` on a context with items, through the models `ma`
    /// (after the first notification) and `mb` (after the hot release) to
    /// `after`: each notification leaves what the notified item's handler does,
    /// or nothing changed when no handler runs.
    pub open spec fn frame(
        self,
        ma: ContextModel<Wgt, H>,
        mb: ContextModel<Wgt, H>,
        after: ContextModel<Wgt, H>,
    ) -> bool where H: EventHandler<Wgt> {
        &&& ma.wf()
        &&& mb.wf()
        &&& match self.frame_event() {
            Some(e) => self.frame_start().notified(e.0, e.1, ma),
            None => ma == self.frame_start(),
        }
        &&& if self.frame_hot_up(ma) {
            ma.notified(self.active_item, BUTTON0_HOT_UP, mb)
        } else {
            mb == ma
        }
        &&& after == Self::remembered(self.frame_finish(mb))
    }

    /// No handler runs in the next frame of `self`.
    pub open spec fn process_quiet(self) -> bool {
        &&& match self.frame_event() {
            Some(e) => !self.fires(e.0, e.1),
            None => true,
        }
        &&& self.frame_hot_up(self) ==> !self.fires(self.active_item, BUTTON0_HOT_UP)
    }

    /// The model after one frame of `process` in which no handler runs.
    pub open spec fn processed(self) -> ContextModel<Wgt, H> {
        if self.items.len() == 0 {
            self
        } else {
            Self::remembered(self.frame_finish(self.frame_start()))
        }
    }
}

/// In a frame in which no handler runs, `process` leaves `processed`.
pub proof fn lemma_quiet_frame<Wgt, H: EventHandler<Wgt>>(
    m: ContextModel<Wgt, H>,
    ma: ContextModel<Wgt, H>,
    mb: ContextModel<Wgt, H>,
    after: ContextModel<Wgt, H>,
)
    requires
        m.items.len() > 0,
        m.process_quiet(),
        m.frame(ma, mb, after),
    ensures
        after == m.processed(),
{
    let c = m.frame_start();
    assert(c.items == m.items);
    if let Some(e) = m.frame_event() {
        assert(!c.fires(e.0, e.1));
    }
    assert(ma == c);
    if m.frame_hot_up(ma) {
        assert(m.frame_hot_up(m));
        assert(!ma.fires(m.active_item, BUTTON0_HOT_UP));
    }
}

impl<Wgt, H: EventHandler<Wgt>> Context<Wgt, H> {
    /// Runs the handler of `item` for `event`, when the handler is set and
    /// `event` is among its events; otherwise leaves the context as it is.
    pub fn notify_item(&mut self, item: Item, event: EventFlags)
        requires
            old(self)@.has(item),
        ensures
            old(self)@.notified(item, event, final(self)@),
    {
        let pitem = self.get(item);
        if pitem.event_flags & event != event {
            return ;
        }
        let handler = pitem.handler;
        match handler {
            Some(h) => h.handle(self, item, event),
            None => {},
        }
    }

    /// Finds the deepest unfrozen item at (`x`, `y`) below `item` (coordinates
    /// relative to the parent of `item`, `ox`, `oy` the offset so far) and records
    /// its rectangle as the hot rectangle; gives back no item on a miss.
    pub fn find_item(&mut self, item: Item, x: i32, y: i32, ox: i32, oy: i32) -> (r: Item)
        requires
            old(self)@.has(item),
        ensures
            r == ContextModel::<Wgt, H>::hit_item(old(self)@.hit(item, x, y, ox, oy)),
            r.is_valid() <==> old(self)@.hit(item, x, y, ox, oy) is Some,
            r.is_valid() ==> old(self)@.has(r),
            final(self)@ == old(self)@.after_hit(old(self)@.hit(item, x, y, ox, oy)),
        decreases old(self)@.height_bound(item),
    {
        proof {
            use_type_invariant(&*self);
            lemma_depth_bound(self@.items, self@.kids, self@.depth, self@.datasize, item.id());
        }
        let ghost m = self@;
        let ghost i = item.id();
        let ghost fuel = m.height_bound(item);
        assert(fuel > 0);
        let pitem = self.get(item);
        if pitem.frozen {
            return Item::none();
        }
        let mut rect = pitem.rect;
        let lx = x.wrapping_sub(rect.x);
        let ly = y.wrapping_sub(rect.y);
        let lox = ox.wrapping_add(rect.x);
        let loy = oy.wrapping_add(rect.y);
        if lx >= 0 && ly >= 0 && lx < rect.w && ly < rect.h {
            let ghost ks = m.kids[i];
            let ghost own = Rect { x: rect.x.wrapping_add(lox), y: rect.y.wrapping_add(loy), ..rect };
            proof {
                assert(item_ok(m.items, m.kids, m.depth, m.datasize, i));
                assert(Item::from_id(i) == item);
                assert(m.hit(item, x, y, ox, oy) == match m.find_kids(
                    ks,
                    0,
                    lx,
                    ly,
                    lox,
                    loy,
                    (fuel - 1) as nat,
                ) {
                    Some(h) => Some(h),
                    None => Some((item, own)),
                });
            }
            let mut kid = self.first_child(item);
            let ghost mut k: int = 0;
            while kid.valid()
                invariant
                    self@ == m,
                    old(self)@ == m,
                    m.wf(),
                    0 <= i < m.items.len(),
                    ks == m.kids[i],
                    parent_ok(m.items, m.kids, i),
                    fuel == m.height_bound(item),
                    fuel > 0,
                    item.id() == i,
                    own == (Rect { x: rect.x.wrapping_add(lox), y: rect.y.wrapping_add(loy), ..rect }),
                    m.hit(item, x, y, ox, oy) == match m.find_kids(
                        ks,
                        0,
                        lx,
                        ly,
                        lox,
                        loy,
                        (fuel - 1) as nat,
                    ) {
                        Some(h) => Some(h),
                        None => Some((item, own)),
                    },
                    0 <= k <= ks.len(),
                    kid.id() == (if k < ks.len() {
                        ks[k]
                    } else {
                        -1
                    }),
                    m.find_kids(ks, 0, lx, ly, lox, loy, (fuel - 1) as nat) == m.find_kids(
                        ks,
                        k,
                        lx,
                        ly,
                        lox,
                        loy,
                        (fuel - 1) as nat,
                    ),
                decreases ks.len() - k,
            {
                proof {
                    assert(kid_ok(m.items, m.kids, i, k));
                    let c = ks[k];
                    assert(item_ok(m.items, m.kids, m.depth, m.datasize, c));
                    assert(m.depth[c] == m.depth[i] + 1);
                    lemma_depth_bound(m.items, m.kids, m.depth, m.datasize, c);
                    assert(m.height_bound(kid) == fuel - 1);
                }
                let best_hit = self.find_item(kid, lx, ly, lox, loy);
                proof {
                    assert(m.find_kids(ks, k, lx, ly, lox, loy, (fuel - 1) as nat) == match m.find(
                        ks[k],
                        lx,
                        ly,
                        lox,
                        loy,
                        (fuel - 1) as nat,
                    ) {
                        Some(h) => Some(h),
                        None => m.find_kids(ks, k + 1, lx, ly, lox, loy, (fuel - 1) as nat),
                    });
                }
                if best_hit.valid() {
                    return best_hit;
                }
                kid = self.next_sibling(kid);
                proof {
                    k = k + 1;
                }
            }
            proof {
                if k < ks.len() {
                    assert(kid_ok(m.items, m.kids, i, k));
                }
                assert(k == ks.len());
                assert(m.find_kids(ks, k, lx, ly, lox, loy, (fuel - 1) as nat) is None);
            }
            rect.x = rect.x.wrapping_add(lox);
            rect.y = rect.y.wrapping_add(loy);
            assert(rect == own);
            self.hot_rect = rect;
            return item;
        }
        Item::none()
    }

    /// One frame of event processing: hit-tests the cursor against the tree of
    /// the root, updates the hot and the active item and the capture of button 0,
    /// notifies the items concerned, and remembers the cursor, the buttons and
    /// the tags of the hot and the active item. A context without items is left
    /// as it is.
    pub fn process(&mut self)
        ensures
            old(self)@.items.len() == 0 ==> final(self)@ == old(self)@,
            old(self)@.items.len() > 0 ==> exists|ma: ContextModel<Wgt, H>, mb: ContextModel<Wgt, H>|
                #[trigger] old(self)@.frame(ma, mb, final(self)@),
            old(self)@.process_quiet() ==> final(self)@ == old(self)@.processed(),
    {
        proof {
            use_type_invariant(&*self);
        }
        if self.count() == 0 {
            return ;
        }
        let ghost m = self@;
        let cursor = self.cursor;
        let root = self.root();
        proof {
            assert(root == Item::from_id(0));
        }
        let hot = self.find_item(root, cursor.x, cursor.y, 0, 0);
        let ghost f = m.hit(Item::from_id(0), cursor.x, cursor.y, 0, 0);
        let active = self.store.active_item;
        let ghost mut ma = self@;
        let ghost mut mb = self@;
        proof {
            assert(self@ == m.after_hit(f));
            assert(hot == ContextModel::<Wgt, H>::hit_item(f));
            assert(hot == m.frame_hot());
            assert(active.is_valid() ==> m.has(active));
        }
        match self.state {
            State::IDLE => {
                self.start_cursor = cursor;
                if self.get_button(0) {
                    self.store.hot_item = Item::none();
                    self.active_rect = self.hot_rect;
                    self.store.active_item = hot;
                    proof {
                        assert(self@ == m.frame_start());
                    }
                    if hot.valid() {
                        self.notify_item(hot, BUTTON0_DOWN);
                    }
                    proof {
                        use_type_invariant(&*self);
                        ma = self@;
                        mb = self@;
                        assert(!m.frame_hot_up(ma));
                    }
                    self.state = State::CAPTURE;
                } else {
                    self.store.hot_item = hot;
                    proof {
                        use_type_invariant(&*self);
                        ma = self@;
                        mb = self@;
                        assert(self@ == m.frame_start());
                    }
                }
            },
            State::CAPTURE => {
                proof {
                    assert(self@ == m.frame_start());
                }
                if !self.get_button(0) {
                    if active.valid() {
                        self.notify_item(active, BUTTON0_UP);
                        proof {
                            use_type_invariant(&*self);
                            ma = self@;
                        }
                        if active == hot && (active.itemid as usize) < self.count() {
                            self.notify_item(active, BUTTON0_HOT_UP);
                        }
                        proof {
                            use_type_invariant(&*self);
                            mb = self@;
                        }
                    } else {
                        proof {
                            use_type_invariant(&*self);
                            ma = self@;
                            mb = self@;
                        }
                    }
                    self.store.active_item = Item::none();
                    self.state = State::IDLE;
                } else {
                    if active.valid() {
                        self.notify_item(active, BUTTON0_CAPTURE);
                    }
                    proof {
                        use_type_invariant(&*self);
                        ma = self@;
                        mb = self@;
                        assert(!m.frame_hot_up(ma));
                    }
                    if hot == active && hot.valid() && (hot.itemid as usize) < self.count() {
                        self.store.hot_item = hot;
                    } else {
                        self.store.hot_item = Item::none();
                    }
                }
            },
        }
        proof {
            use_type_invariant(&*self);
            assert(self@ == m.frame_finish(mb));
        }
        self.last_cursor = self.cursor;
        self.last_buttons = self.buttons;
        let active = self.store.active_item;
        let hot = self.store.hot_item;
        self.hot_tag = if hot.valid() {
            self.get_tag(hot)
        } else {
            0
        };
        self.active_tag = if active.valid() {
            self.get_tag(active)
        } else {
            0
        };
        proof {
            assert(m.frame(ma, mb, self@));
            if m.process_quiet() {
                lemma_quiet_frame(m, ma, mb, self@);
            }
        }
    }
}

} // verus!
