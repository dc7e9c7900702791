use vstd::prelude::*;

use crate::order::Order;

verus! {

/// The total size of a sequence of orders.
pub open spec fn sum_sizes(s: Seq<Order>) -> int
    decreases s.len(),
{
    if s.len() == 0 {
        0
    } else {
        sum_sizes(s.drop_last()) + s.last().size
    }
}

/// `j` is the first position in `s` that holds an order with identity `id`.
pub open spec fn first_in(s: Seq<Order>, id: i64, j: int) -> bool {
    &&& 0 <= j < s.len()
    &&& s[j].id == id
    &&& forall|k: int| 0 <= k < j ==> s[k].id != id
}

/// Some order of `s` has identity `id`.
pub open spec fn holds(s: Seq<Order>, id: i64) -> bool {
    exists|j: int| 0 <= j < s.len() && s[j].id == id
}

/// A total of sizes is never negative.
pub proof fn lemma_sum_nonneg(s: Seq<Order>)
    ensures
        sum_sizes(s) >= 0,
    decreases s.len(),
{
    if s.len() > 0 {
        lemma_sum_nonneg(s.drop_last());
    }
}

/// Replacing one order changes the total by the difference of their sizes.
pub proof fn lemma_sum_update(s: Seq<Order>, i: int, o: Order)
    requires
        0 <= i < s.len(),
    ensures
        sum_sizes(s.update(i, o)) == sum_sizes(s) - s[i].size + o.size,
    decreases s.len(),
{
    let t = s.update(i, o);
    if i < s.len() - 1 {
        assert(t.drop_last() =~= s.drop_last().update(i, o));
        lemma_sum_update(s.drop_last(), i, o);
    } else {
        assert(t.drop_last() =~= s.drop_last());
    }
}

/// Removing one order takes its size off the total.
pub proof fn lemma_sum_remove(s: Seq<Order>, i: int)
    requires
        0 <= i < s.len(),
    ensures
        sum_sizes(s.remove(i)) == sum_sizes(s) - s[i].size,
    decreases s.len(),
{
    let t = s.remove(i);
    if i < s.len() - 1 {
        assert(t.drop_last() =~= s.drop_last().remove(i));
        assert(t.last() == s.last());
        lemma_sum_remove(s.drop_last(), i);
    } else {
        assert(t =~= s.drop_last());
    }
}

/// No order is larger than the total.
pub proof fn lemma_size_le_sum(s: Seq<Order>, i: int)
    requires
        0 <= i < s.len(),
    ensures
        s[i].size <= sum_sizes(s),
{
    lemma_sum_remove(s, i);
    lemma_sum_nonneg(s.remove(i));
}

/// The orders resting at one price, in arrival order, and their total size.
pub struct PriceLevel {
    pub orders: Vec<Order>,
    pub size: u64,
}

impl PriceLevel {
    /// The cached size is the total size of the resident orders.
    pub open spec fn wf(&self) -> bool {
        self.size == sum_sizes(self.orders@)
    }

    pub fn default() -> (r: PriceLevel)
        ensures
            r.wf(),
            r.orders@ == Seq::<Order>::empty(),
            r.size == 0,
    {
        PriceLevel { orders: Vec::new(), size: 0 }
    }

    /// Appends an order at the tail of the queue.
    pub fn add(&mut self, o: Order)
        requires
            old(self).wf(),
            old(self).size + o.size <= u64::MAX,
        ensures
            final(self).wf(),
            final(self).orders@ == old(self).orders@.push(o),
            final(self).size == old(self).size + o.size,
    {
        self.orders.push(o);
        self.size = self.size + o.size;
        proof {
            assert(self.orders@.drop_last() =~= old(self).orders@);
        }
    }

    /// The first position that holds an order with identity `id`.
    pub fn position(&self, id: i64) -> (r: Option<usize>)
        ensures
            r matches Some(j) ==> first_in(self.orders@, id, j as int),
            r is None ==> !holds(self.orders@, id),
    {
        let mut i: usize = 0;
        while i < self.orders.len()
            invariant
                i <= self.orders.len(),
                forall|k: int| 0 <= k < i ==> self.orders@[k].id != id,
            decreases self.orders.len() - i,
        {
            if self.orders[i].id == id {
                return Some(i);
            }
            i = i + 1;
        }
        None
    }

    /// Removes the first order with identity `id`, keeping the order of the
    /// rest; does nothing when no such order rests here.
    pub fn remove(&mut self, id: &i64)
        requires
            old(self).wf(),
        ensures
            final(self).wf(),
            !holds(old(self).orders@, *id) ==> *final(self) == *old(self),
            holds(old(self).orders@, *id) ==> exists|j: int|
                first_in(old(self).orders@, *id, j) && final(self).orders@ == old(
                    self,
                ).orders@.remove(j) && final(self).size == old(self).size - old(
                    self,
                ).orders@[j].size,
    {
        match self.position(*id) {
            Some(pos) => {
                self.remove_at(pos);
            },
            None => {},
        }
    }

    /// Removes the order at position `pos`, keeping the order of the rest.
    pub fn remove_at(&mut self, pos: usize) -> (r: Order)
        requires
            old(self).wf(),
            pos < old(self).orders.len(),
        ensures
            final(self).wf(),
            r == old(self).orders@[pos as int],
            final(self).orders@ == old(self).orders@.remove(pos as int),
            final(self).size == old(self).size - r.size,
    {
        proof {
            lemma_size_le_sum(self.orders@, pos as int);
            lemma_sum_remove(self.orders@, pos as int);
        }
        let removed = self.orders.remove(pos);
        self.size = self.size - removed.size;
        removed
    }

    /// Sets the size of the order at position `pos`, adjusting the total.
    pub fn set_size(&mut self, pos: usize, new_size: u64)
        requires
            old(self).wf(),
            pos < old(self).orders.len(),
            old(self).size - old(self).orders@[pos as int].size + new_size <= u64::MAX,
        ensures
            final(self).wf(),
            final(self).orders@ == old(self).orders@.update(
                pos as int,
                Order { size: new_size, ..old(self).orders@[pos as int] },
            ),
            final(self).size == old(self).size - old(self).orders@[pos as int].size + new_size,
    {
        let o = self.orders[pos];
        let n = Order { size: new_size, ..o };
        proof {
            lemma_size_le_sum(self.orders@, pos as int);
            lemma_sum_update(self.orders@, pos as int, n);
        }
        self.orders.set(pos, n);
        self.size = self.size - o.size + new_size;
    }

    pub fn is_empty(&self) -> (r: bool)
        ensures
            r == (self.orders@.len() == 0),
    {
        self.orders.len() == 0
    }

    /// The price of the order at the head of the queue; `None` when empty.
    pub fn price(&self) -> (r: Option<u64>)
        ensures
            self.orders@.len() == 0 ==> r is None,
            self.orders@.len() > 0 ==> r == Some(self.orders@[0].price),
    {
        if self.orders.len() == 0 {
            None
        } else {
            Some(self.orders[0].price)
        }
    }
}

} // verus!
