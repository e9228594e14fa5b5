use vstd::prelude::*;

use super::{
    child_ok, data_ok, forest_ok, item_ok, kid_ok, parent_ok, ref_ok, Context, ContextModel,
    EventHandler, Item, ItemImp,
};
use crate::flags::{has_flags, APPEND};

verus! {

/// The `k`-th ancestor of item `x` (`x` itself for `k == 0`).
pub open spec fn anc<H>(items: Seq<ItemImp<H>>, x: int, k: nat) -> int
    decreases k,
{
    if k == 0 {
        x
    } else {
        items[anc(items, x, (k - 1) as nat)].parent.id()
    }
}

impl<Wgt, H> ContextModel<Wgt, H> {
    /// The root of the tree that item `x` belongs to.
    pub open spec fn root_of(self, x: int) -> int {
        anc(self.items, x, self.depth[x])
    }

    /// The model after `child`, a root outside the tree of `item`, has been
    /// appended as the last kid of `item`.
    pub open spec fn appended(self, item: Item, child: Item) -> ContextModel<Wgt, H> {
        let p = item.id();
        let c = child.id();
        let pi = self.items[p];
        let last = pi.lastkid;
        let ci = self.items[c];
        let items1 = self.items.update(
            c,
            ItemImp {
                parent: item,
                kidid: pi.numkids,
                previtem: if last.is_valid() {
                    last
                } else {
                    ci.previtem
                },
                ..ci
            },
        );
        let items2 = if last.is_valid() {
            items1.update(last.id(), ItemImp { nextitem: child, ..items1[last.id()] })
        } else {
            items1
        };
        let items3 = items2.update(
            p,
            ItemImp {
                numkids: (pi.numkids + 1) as i32,
                firstkid: if last.is_valid() {
                    pi.firstkid
                } else {
                    child
                },
                lastkid: child,
                ..items2[p]
            },
        );
        let dp = self.depth[p];
        ContextModel {
            items: items3,
            kids: self.kids.update(p, self.kids[p].push(c)),
            depth: Seq::new(
                self.depth.len(),
                |x: int|
                    if self.root_of(x) == c {
                        self.depth[x] + dp + 1
                    } else {
                        self.depth[x]
                    },
            ),
            ..self
        }
    }

    /// Whether notifying `item` of `event` runs its handler in the model `self`.
    pub open spec fn fires(self, item: Item, event: u32) -> bool {
        has_flags(self.at(item).event_flags, event) && self.at(item).handler.is_some()
    }

    /// `after` is what notifying `item` of `event` in `self` may leave: what the
    /// handler of `item` does, when it is run for `event`, and otherwise `self`.
    pub open spec fn notified(self, item: Item, event: u32, after: ContextModel<Wgt, H>) -> bool
        where H: EventHandler<Wgt>
    {
        if self.fires(item, event) {
            self.at(item).handler.unwrap().handled(self, item, event, after)
        } else {
            after == self
        }
    }
}

/// Walking up from an item with parent `q` goes through `q` first.
pub proof fn lemma_anc_step<H>(items: Seq<ItemImp<H>>, x: int, q: int, k: nat)
    requires
        items[x].parent.id() == q,
    ensures
        anc(items, x, k + 1) == anc(items, q, k),
    decreases k,
{
    assert(anc(items, x, k + 1) == items[anc(items, x, k)].parent.id());
    if k > 0 {
        lemma_anc_step(items, x, q, (k - 1) as nat);
        assert(anc(items, q, k) == items[anc(items, q, (k - 1) as nat)].parent.id());
    }
}

/// In a forest, the ancestors of `x` are items, `k` levels higher up.
pub proof fn lemma_anc_depth<H>(
    items: Seq<ItemImp<H>>,
    kids: Seq<Seq<int>>,
    depth: Seq<nat>,
    used: usize,
    x: int,
    k: nat,
)
    requires
        forest_ok(items, kids, depth, used),
        0 <= x < items.len(),
        k <= depth[x],
    ensures
        0 <= anc(items, x, k) < items.len(),
        depth[anc(items, x, k)] == depth[x] - k,
    decreases k,
{
    if k > 0 {
        lemma_anc_depth(items, kids, depth, used, x, (k - 1) as nat);
        let a = anc(items, x, (k - 1) as nat);
        assert(item_ok(items, kids, depth, used, a));
        assert(child_ok(items, kids, depth, a));
        assert(ref_ok(items[a].parent, items.len() as int));
    }
}

/// Items of one tree share their root: an item and its parent have the same root.
pub proof fn lemma_root_of_parent<Wgt, H>(m: ContextModel<Wgt, H>, x: int)
    requires
        m.wf(),
        0 <= x < m.items.len(),
        m.items[x].parent.id() != -1,
    ensures
        m.root_of(x) == m.root_of(m.items[x].parent.id()),
{
    let q = m.items[x].parent.id();
    assert(item_ok(m.items, m.kids, m.depth, m.datasize, x));
    lemma_anc_step(m.items, x, q, m.depth[q]);
}

/// A sequence without duplicates of integers in `[0, n)` has at most `n` elements.
pub proof fn lemma_distinct_bound(s: Seq<int>, n: int)
    requires
        s.no_duplicates(),
        0 <= n,
        forall|i: int| 0 <= i < s.len() ==> 0 <= #[trigger] s[i] < n,
    ensures
        s.len() <= n,
{
    s.unique_seq_to_set();
    vstd::set_lib::lemma_int_range(0, n);
    assert(s.to_set().subset_of(vstd::set_lib::set_int_range(0, n)));
    vstd::set_lib::lemma_len_subset(s.to_set(), vstd::set_lib::set_int_range(0, n));
}

/// In a forest of `n` items, every item has fewer than `n` ancestors.
pub proof fn lemma_depth_bound<H>(
    items: Seq<ItemImp<H>>,
    kids: Seq<Seq<int>>,
    depth: Seq<nat>,
    used: usize,
    x: int,
)
    requires
        forest_ok(items, kids, depth, used),
        0 <= x < items.len(),
    ensures
        depth[x] < items.len(),
{
    let d = depth[x];
    let s = Seq::new((d + 1) as nat, |k: int| anc(items, x, k as nat));
    assert forall|i: int| 0 <= i < s.len() implies 0 <= #[trigger] s[i] < items.len() by {
        lemma_anc_depth(items, kids, depth, used, x, i as nat);
    }
    assert forall|i: int, j: int| 0 <= i < s.len() && 0 <= j < s.len() && i != j implies s[i]
        != s[j] by {
        lemma_anc_depth(items, kids, depth, used, x, i as nat);
        lemma_anc_depth(items, kids, depth, used, x, j as nat);
    }
    lemma_distinct_bound(s, items.len() as int);
}

/// The kids of an item are distinct items.
pub proof fn lemma_kids_distinct<H>(
    items: Seq<ItemImp<H>>,
    kids: Seq<Seq<int>>,
    depth: Seq<nat>,
    used: usize,
    p: int,
)
    requires
        forest_ok(items, kids, depth, used),
        0 <= p < items.len(),
    ensures
        kids[p].no_duplicates(),
        forall|k: int| 0 <= k < kids[p].len() ==> 0 <= #[trigger] kids[p][k] < items.len(),
        forall|k: int|
            0 <= k < kids[p].len() ==> #[trigger] items[kids[p][k]].parent.id() == p,
{
    assert(item_ok(items, kids, depth, used, p));
    let ks = kids[p];
    assert forall|k: int| 0 <= k < ks.len() implies 0 <= #[trigger] ks[k] < items.len()
        && items[ks[k]].parent.id() == p by {
        assert(kid_ok(items, kids, p, k));
    }
    assert forall|i: int, j: int| 0 <= i < ks.len() && 0 <= j < ks.len() && i != j implies ks[i]
        != ks[j] by {
        assert(kid_ok(items, kids, p, i));
        assert(kid_ok(items, kids, p, j));
    }
}

/// Appending a root outside the tree of `item` as the last kid of `item` keeps
/// a context consistent.
pub proof fn lemma_append_wf<Wgt, H>(m: ContextModel<Wgt, H>, item: Item, child: Item)
    requires
        m.wf(),
        m.has(item),
        m.has(child),
        m.at(child).parent.id() == -1,
        m.root_of(item.id()) != child.id(),
    ensures
        m.appended(item, child).wf(),
        m.at(item).numkids < i32::MAX,
{
    let n = m.items.len() as int;
    let p = item.id();
    let c = child.id();
    let pi = m.items[p];
    let last = pi.lastkid;
    let ks = m.kids[p];
    let m2 = m.appended(item, child);
    assert(item_ok(m.items, m.kids, m.depth, m.datasize, p));
    assert(item_ok(m.items, m.kids, m.depth, m.datasize, c));
    // the new kid list of `p` is a distinct list of items below `n`
    lemma_kids_distinct(m.items, m.kids, m.depth, m.datasize, p);
    let ks2 = ks.push(c);
    assert forall|i: int| 0 <= i < ks2.len() implies 0 <= #[trigger] ks2[i] < n by {}
    assert forall|i: int, j: int| 0 <= i < ks2.len() && 0 <= j < ks2.len() && i != j implies ks2[i]
        != ks2[j] by {
        if i < ks.len() && j < ks.len() {
        } else if i < ks.len() {
            assert(m.items[ks[i]].parent.id() == p);
        } else {
            assert(m.items[ks[j]].parent.id() == p);
        }
    }
    assert(ks2.no_duplicates());
    lemma_distinct_bound(ks2, n);
    // `p` and `c` lie in different trees; `c` is its own root
    assert(m.root_of(c) == c);
    assert(p != c);
    if last.is_valid() {
        assert(kid_ok(m.items, m.kids, p, ks.len() - 1));
        assert(last.id() == ks[ks.len() - 1]);
    }
    assert(m2.items.len() == n);
    assert(m2.depth.len() == n);
    assert(m2.kids.len() == n);
    assert forall|j: int| 0 <= j < n implies #[trigger] item_ok(
        m2.items,
        m2.kids,
        m2.depth,
        m2.datasize,
        j,
    ) by {
        assert(item_ok(m.items, m.kids, m.depth, m.datasize, j));
        // links of every item are items
        assert(m2.items[j].refs_ok(n));
        assert(data_ok(m2.items, m2.datasize, j));
        // kid lists
        if j == p {
            assert forall|k: int| 0 <= k < ks2.len() implies #[trigger] kid_ok(
                m2.items,
                m2.kids,
                j,
                k,
            ) by {
                if k < ks.len() {
                    assert(kid_ok(m.items, m.kids, p, k));
                }
            }
            assert(parent_ok(m2.items, m2.kids, j));
        } else {
            let ksj = m.kids[j];
            assert forall|k: int| 0 <= k < ksj.len() implies #[trigger] kid_ok(
                m2.items,
                m2.kids,
                j,
                k,
            ) by {
                assert(kid_ok(m.items, m.kids, j, k));
                let x = ksj[k];
                assert(m.items[x].parent.id() == j);
                assert(x != c);
                if last.is_valid() {
                    assert(m.items[last.id()].parent.id() == p);
                }
            }
            assert(parent_ok(m2.items, m2.kids, j));
        }
        // parents and depths
        if j == c {
            assert(m.depth[c] == 0);
            assert(m2.depth[p] == m.depth[p]);
            assert(child_ok(m2.items, m2.kids, m2.depth, j));
        } else if m.items[j].parent.id() == -1 {
            assert(m.root_of(j) == j);
            assert(child_ok(m2.items, m2.kids, m2.depth, j));
        } else {
            let q = m.items[j].parent.id();
            lemma_root_of_parent(m, j);
            assert(item_ok(m.items, m.kids, m.depth, m.datasize, q));
            assert(m2.items[j].parent == m.items[j].parent);
            assert(m2.items[j].kidid == m.items[j].kidid);
            assert(child_ok(m2.items, m2.kids, m2.depth, j));
        }
    }
    assert(forest_ok(m2.items, m2.kids, m2.depth, m2.datasize));
}

impl<Wgt, H: EventHandler<Wgt>> Context<Wgt, H> {
    /// Appends `child`, an item without a parent, as the last kid of `item`,
    /// then notifies `item` with `APPEND`; gives back `child`.
    ///
    /// `child` must not be an ancestor of `item` (nor `item` itself): the items
    /// stay a forest.
    pub fn append(&mut self, item: Item, child: Item) -> (r: Item)
        requires
            old(self)@.has(item),
            old(self)@.has(child),
            old(self)@.at(child).parent.id() == -1,
            old(self)@.root_of(item.id()) != child.id(),
        ensures
            r == child,
            old(self)@.appended(item, child).notified(item, APPEND, final(self)@),
    {
        proof {
            use_type_invariant(&*self);
            lemma_append_wf(self@, item, child);
        }
        let ghost m = self@;
        proof {
            assert(item_ok(m.items, m.kids, m.depth, m.datasize, item.id()));
        }
        let p = item.itemid as usize;
        let c = child.itemid as usize;
        let mut st = self.take_store();
        let pi = st.items[p];
        let new_kid_id = pi.numkids;
        let lastkid = pi.lastkid;
        let mut ci = st.items[c];
        ci.parent = item;
        ci.kidid = new_kid_id;
        if lastkid.valid() {
            ci.previtem = lastkid;
        }
        st.items.set(c, ci);
        if lastkid.valid() {
            let l = lastkid.itemid as usize;
            let mut li = st.items[l];
            li.nextitem = child;
            st.items.set(l, li);
        }
        let mut pi2 = st.items[p];
        pi2.numkids = new_kid_id + 1;
        if !lastkid.valid() {
            pi2.firstkid = child;
        }
        pi2.lastkid = child;
        st.items.set(p, pi2);
        let ghost dp = m.depth[p as int];
        st.kids = Ghost(st.kids@.update(p as int, st.kids@[p as int].push(c as int)));
        st.depth = Ghost(
            Seq::new(
                st.depth@.len(),
                |x: int|
                    if m.root_of(x) == c as int {
                        m.depth[x] + dp + 1
                    } else {
                        m.depth[x]
                    },
            ),
        );
        assert(self.view_with(st) == m.appended(item, child));
        self.put_store(st);
        self.notify_item(item, APPEND);
        child
    }
}

} // verus!
