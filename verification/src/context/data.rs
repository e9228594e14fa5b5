use vstd::prelude::*;

use super::{
    data_ok, forest_ok, item_ok, kid_ok, Context, ContextModel, EventHandler, Item, ItemImp,
    MAX_BUFFERSIZE, MAX_DATASIZE,
};

verus! {

/// `Vec::as_mut_slice` on a byte vector: the slice views the vector's bytes,
/// what is written through it ends up in the vector, its length stays (a
/// mutable slice cannot change length), and the call never unwinds. Borrowing
/// the pool of a context needs the last two facts, which vstd's own
/// specification of the method does not give.
#[verifier::external_body]
fn bytes_as_mut_slice(v: &mut Vec<u8>) -> (s: &mut [u8])
    ensures
        s@ == old(v)@,
        final(s)@ == final(v)@,
        final(s)@.len() == old(v)@.len(),
    no_unwind
{
    v.as_mut_slice()
}

impl<H> ItemImp<H> {
    /// The bytes of the pool the item owns: from `data` on, `datasize` of them,
    /// or none.
    pub open spec fn data_range(self) -> (int, int) {
        if self.data < 0 {
            (0, 0)
        } else {
            (self.data as int, self.data + self.datasize)
        }
    }
}

impl<Wgt, H> ContextModel<Wgt, H> {
    /// The model after `item` has been given the next `size` bytes of the pool.
    pub open spec fn allocated(self, item: Item, size: usize) -> ContextModel<Wgt, H> {
        ContextModel {
            datasize: (self.datasize + size) as usize,
            items: self.items.update(
                item.id(),
                ItemImp { data: self.datasize as isize, datasize: size, ..self.at(item) },
            ),
            ..self
        }
    }
}

/// Giving an item without data the next bytes of the pool keeps a context consistent.
pub proof fn lemma_alloc_wf<Wgt, H>(m: ContextModel<Wgt, H>, item: Item, size: usize)
    requires
        m.wf(),
        m.has(item),
        m.at(item).data < 0,
        m.datasize + size <= MAX_BUFFERSIZE,
    ensures
        m.allocated(item, size).wf(),
{
    let m2 = m.allocated(item, size);
    let n = m.items.len();
    assert forall|j: int| 0 <= j < n implies #[trigger] item_ok(
        m2.items,
        m2.kids,
        m2.depth,
        m2.datasize,
        j,
    ) by {
        assert(item_ok(m.items, m.kids, m.depth, m.datasize, j));
        let ks = m.kids[j];
        assert forall|k: int| 0 <= k < ks.len() implies #[trigger] kid_ok(m2.items, m2.kids, j, k) by {
            assert(kid_ok(m.items, m.kids, j, k));
        }
        if m.items[j].parent.id() != -1 {
            assert(item_ok(m.items, m.kids, m.depth, m.datasize, m.items[j].parent.id()));
        }
        assert(data_ok(m2.items, m2.datasize, j));
    }
    assert(forest_ok(m2.items, m2.kids, m2.depth, m2.datasize));
    let c = item.id();
    assert forall|i: int, j: int|
        0 <= i < n && 0 <= j < n && i != j && #[trigger] m2.items[i].data >= 0
            && #[trigger] m2.items[j].data >= 0 implies m2.items[i].data + m2.items[i].datasize
        <= m2.items[j].data || m2.items[j].data + m2.items[j].datasize <= m2.items[i].data by {
        assert(item_ok(m.items, m.kids, m.depth, m.datasize, i));
        assert(item_ok(m.items, m.kids, m.depth, m.datasize, j));
        if i != c && j != c {
            assert(m.items[i].data >= 0 && m.items[j].data >= 0);
        }
    }
}

impl<Wgt, H: EventHandler<Wgt>> Context<Wgt, H> {
    /// Gives write access to the data of `item` in the pool; an item without
    /// data has none.
    pub fn get_data(&mut self, item: Item) -> (r: &mut [u8])
        requires
            old(self)@.has(item),
        ensures
            r@ == old(self)@.data.subrange(
                old(self)@.at(item).data_range().0,
                old(self)@.at(item).data_range().1,
            ),
            final(self)@ =~= (ContextModel {
                data: old(self)@.data.subrange(0, old(self)@.at(item).data_range().0) + final(r)@
                    + old(self)@.data.subrange(
                    old(self)@.at(item).data_range().1,
                    MAX_BUFFERSIZE as int,
                ),
                ..old(self)@
            }),
    {
        proof {
            use_type_invariant(&*self);
            assert(item_ok(self@.items, self@.kids, self@.depth, self@.datasize, item.id()));
        }
        let pitem = self.get(item);
        let (start, end) = if pitem.data < 0 {
            (0usize, 0usize)
        } else {
            (pitem.data as usize, pitem.data as usize + pitem.datasize)
        };
        self.region(start, end)
    }

    fn region(&mut self, start: usize, end: usize) -> (r: &mut [u8])
        requires
            start <= end <= MAX_BUFFERSIZE,
        ensures
            r@ == old(self)@.data.subrange(start as int, end as int),
            final(self)@ =~= (ContextModel {
                data: old(self)@.data.subrange(0, start as int) + final(r)@ + old(self)@.data.subrange(
                    end as int,
                    MAX_BUFFERSIZE as int,
                ),
                ..old(self)@
            }),
    {
        proof {
            use_type_invariant(&*self);
        }
        let s = bytes_as_mut_slice(&mut self.data);
        let (lo, rest) = s.split_at_mut(start);
        let (mid, hi) = rest.split_at_mut(end - start);
        proof {
            assert(has_resolved(lo));
            assert(has_resolved(hi));
            assert(final(lo)@ == lo@);
            assert(final(hi)@ == hi@);
            assert(lo@ + (final(mid)@ + hi@) =~= (lo@ + final(mid)@) + hi@);
        }
        mid
    }

    /// Gives `item`, which has no data yet, the next `size` bytes of the pool
    /// (0 < `size` <= `MAX_DATASIZE`), and write access to them.
    pub fn alloc_data(&mut self, item: Item, size: usize) -> (r: &mut [u8])
        requires
            old(self)@.has(item),
            0 < size <= MAX_DATASIZE,
            old(self)@.at(item).data < 0,
            old(self)@.datasize + size <= MAX_BUFFERSIZE,
        ensures
            r@ == old(self)@.data.subrange(
                old(self)@.datasize as int,
                old(self)@.datasize + size,
            ),
            final(self)@ =~= (ContextModel {
                data: old(self)@.data.subrange(0, old(self)@.datasize as int) + final(r)@
                    + old(self)@.data.subrange(old(self)@.datasize + size, MAX_BUFFERSIZE as int),
                ..old(self)@.allocated(item, size)
            }),
    {
        proof {
            use_type_invariant(&*self);
            lemma_alloc_wf(self@, item, size);
        }
        let alloc = self.store.datasize;
        let mut st = self.take_store();
        let idx = item.itemid as usize;
        let mut it = st.items[idx];
        it.data = alloc as isize;
        it.datasize = size;
        st.items.set(idx, it);
        st.datasize = alloc + size;
        self.put_store(st);
        self.region(alloc, alloc + size)
    }
}

} // verus!
