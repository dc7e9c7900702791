//! Laws of the book: properties that relate several operations, or hold
//! of every state, stated over the models that the operations' contracts use.
use vstd::prelude::*;

use crate::order::{Order, Side};
use crate::orderbook::{
    book_unique, cancel_book, crosses, fill, own_side, place_spec, top_of, update_book, Match,
    OrderBook,
};
use crate::price_level::sum_sizes;
use crate::price_levels::{
    better, best_of, ids_of, insert_spec, lemma_cancel_removes_id, lemma_slot_unique,
    lemma_update_keeps_queues, slot, sorted_levels, without,
};

verus! {

/// In a well-formed book every resting level caches the total size of its
/// orders and holds at least one order; each operation keeps the book well
/// formed.
pub proof fn lemma_levels_consistent(b: &OrderBook)
    requires
        b.wf(),
    ensures
        forall|i: int|
            0 <= i < b.bid_levels.levels@.len() ==> (#[trigger] b.bid_levels.levels@[i]).size
                == sum_sizes(b.bid_levels.levels@[i].orders@)
                && b.bid_levels.levels@[i].orders@.len() > 0,
        forall|i: int|
            0 <= i < b.ask_levels.levels@.len() ==> (#[trigger] b.ask_levels.levels@[i]).size
                == sum_sizes(b.ask_levels.levels@[i].orders@)
                && b.ask_levels.levels@[i].orders@.len() > 0,
{
    assert forall|i: int| 0 <= i < b.bid_levels.levels@.len() implies (
    #[trigger] b.bid_levels.levels@[i]).size == sum_sizes(b.bid_levels.levels@[i].orders@)
        && b.bid_levels.levels@[i].orders@.len() > 0 by {
        assert(b.bid_levels@[i] == b.bid_levels.levels@[i].orders@);
    }
    assert forall|i: int| 0 <= i < b.ask_levels.levels@.len() implies (
    #[trigger] b.ask_levels.levels@[i]).size == sum_sizes(b.ask_levels.levels@[i].orders@)
        && b.ask_levels.levels@[i].orders@.len() > 0 by {
        assert(b.ask_levels@[i] == b.ask_levels.levels@[i].orders@);
    }
}

/// An order that matching consumes whole leaves its own side as it was.
pub proof fn lemma_filled_order_does_not_rest(
    bids: Seq<Seq<Order>>,
    asks: Seq<Seq<Order>>,
    o: Order,
)
    requires
        place_spec(bids, asks, o).1 == 0,
    ensures
        own_side(place_spec(bids, asks, o).2, place_spec(bids, asks, o).3, o.side) == own_side(
            bids,
            asks,
            o.side,
        ),
{
}

/// Where identities are unique, cancelling an identity twice leaves the book
/// as cancelling it once does.
pub proof fn lemma_cancel_idempotent(bids: Seq<Seq<Order>>, asks: Seq<Seq<Order>>, id: i64)
    requires
        book_unique(bids, asks),
    ensures
        cancel_book(cancel_book(bids, asks, id).0, cancel_book(bids, asks, id).1, id)
            == cancel_book(bids, asks, id),
{
    lemma_cancel_removes_id(bids, id);
    lemma_cancel_removes_id(asks, id);
}

/// Updating a size keeps every resting identity in its place in its queue,
/// on both sides.
pub proof fn lemma_update_keeps_fifo(bids: Seq<Seq<Order>>, asks: Seq<Seq<Order>>, id: i64, n: u64)
    ensures
        ids_of(update_book(bids, asks, id, n).0) == ids_of(bids),
        ids_of(update_book(bids, asks, id, n).1) == ids_of(asks),
{
    lemma_update_keeps_queues(bids, id, n);
    lemma_update_keeps_queues(asks, id, n);
}

/// An order that crosses nothing and beats every level of its own side
/// rests alone at the new best price of that side, with its whole size.
pub proof fn lemma_round_trip(bids: Seq<Seq<Order>>, asks: Seq<Seq<Order>>, o: Order)
    requires
        sorted_levels(bids, false),
        sorted_levels(asks, true),
        o.size > 0,
        o.side == Side::Buy ==> asks.len() == 0 || !crosses(o, asks[0][0].price),
        o.side == Side::Sell ==> bids.len() == 0 || !crosses(o, bids[0][0].price),
        own_side(bids, asks, o.side).len() == 0 || better(
            o.side == Side::Sell,
            o.price,
            own_side(bids, asks, o.side)[0][0].price,
        ),
    ensures
        place_spec(bids, asks, o).0.len() == 0,
        place_spec(bids, asks, o).1 == o.size,
        best_of(own_side(place_spec(bids, asks, o).2, place_spec(bids, asks, o).3, o.side))
            == Some(o.price),
        top_of(own_side(place_spec(bids, asks, o).2, place_spec(bids, asks, o).3, o.side))
            == Some((o.price, o.size)),
{
    let own = own_side(bids, asks, o.side);
    let ask = o.side == Side::Sell;
    assert(Order { size: o.size, ..o } == o);
    assert(slot(own, ask, o.price, 0));
    let k = choose|k: int| slot(own, ask, o.price, k);
    lemma_slot_unique(own, ask, o.price, k, 0);
    let after = own.insert(0, seq![o]);
    assert(insert_spec(own, ask, o) == after);
    assert(after[0] == seq![o]);
    assert(seq![o].drop_last() =~= Seq::<Order>::empty());
    assert(sum_sizes(Seq::<Order>::empty()) == 0);
    assert(sum_sizes(seq![o]) == o.size);
}

/// Within a level, arrival decides: an incoming order smaller than the order
/// at the head of a crossing best level fills against that order alone.
pub proof fn lemma_time_priority(ls: Seq<Seq<Order>>, o: Order)
    requires
        ls.len() > 0,
        ls[0].len() > 0,
        crosses(o, ls[0][0].price),
        0 < o.size < ls[0][0].size,
    ensures
        fill(ls, o).0 == seq![Match { order: ls[0][0], size: o.size }],
        fill(ls, o).2 == 0,
{
}

/// Matching only ever fills resting orders whose price crosses the limit of
/// the incoming order, and only the orders of the side it matches against.
pub proof fn lemma_fills_cross(ls: Seq<Seq<Order>>, o: Order)
    ensures
        forall|i: int|
            0 <= i < fill(ls, o).0.len() ==> crosses(o, (#[trigger] fill(ls, o).0[i]).order.price)
                && exists|a: int, b: int|
                0 <= a < ls.len() && 0 <= b < ls[a].len() && ls[a][b] == fill(ls, o).0[i].order,
    decreases ls.len(), if ls.len() > 0 { ls[0].len() } else { 0 },
{
    if ls.len() == 0 || ls[0].len() == 0 || o.size == 0 || !crosses(o, ls[0][0].price) {
    } else {
        let h = ls[0][0];
        let s = fill(ls, o).0;
        if o.size >= h.size {
            let o2 = Order { size: (o.size - h.size) as u64, ..o };
            let nl = without(ls, 0, 0);
            lemma_fills_cross(nl, o2);
            assert forall|i: int| 0 <= i < s.len() implies crosses(o, (#[trigger] s[i]).order.price)
                && exists|a: int, b: int|
                0 <= a < ls.len() && 0 <= b < ls[a].len() && ls[a][b] == s[i].order by {
                if i == 0 {
                    assert(ls[0][0] == s[0].order);
                } else {
                    let t = fill(nl, o2).0;
                    assert(s[i] == t[i - 1]);
                    assert(crosses(o2, t[i - 1].order.price));
                    let (a, b) = choose|a: int, b: int|
                        0 <= a < nl.len() && 0 <= b < nl[a].len() && nl[a][b] == t[i - 1].order;
                    if ls[0].len() == 1 {
                        assert(nl[a] == ls[a + 1]);
                        assert(ls[a + 1][b] == s[i].order);
                    } else if a == 0 {
                        assert(nl[0][b] == ls[0][b + 1]);
                        assert(ls[0][b + 1] == s[i].order);
                    } else {
                        assert(nl[a] == ls[a]);
                        assert(ls[a][b] == s[i].order);
                    }
                }
            }
        } else {
            assert(ls[0][0] == s[0].order);
        }
    }
}

/// Fills come whole before the last one; a last fill that takes only part
/// of a resting order uses up the incoming order, leaving no residual.
pub proof fn lemma_fill_shape(ls: Seq<Seq<Order>>, o: Order)
    ensures
        forall|i: int|
            0 <= i < fill(ls, o).0.len() - 1 ==> (#[trigger] fill(ls, o).0[i]).size == fill(
                ls,
                o,
            ).0[i].order.size,
        fill(ls, o).0.len() > 0 ==> ({
            let last = fill(ls, o).0.last();
            last.size == last.order.size || (last.size < last.order.size && fill(ls, o).2 == 0)
        }),
    decreases ls.len(), if ls.len() > 0 { ls[0].len() } else { 0 },
{
    if ls.len() == 0 || ls[0].len() == 0 || o.size == 0 || !crosses(o, ls[0][0].price) {
    } else {
        let h = ls[0][0];
        if o.size >= h.size {
            let o2 = Order { size: (o.size - h.size) as u64, ..o };
            let nl = without(ls, 0, 0);
            lemma_fill_shape(nl, o2);
            let s = fill(ls, o).0;
            let t = fill(nl, o2).0;
            assert(s == seq![Match { order: h, size: h.size }] + t);
            assert forall|i: int| 0 <= i < s.len() - 1 implies (#[trigger] s[i]).size
                == s[i].order.size by {
                if i > 0 {
                    assert(s[i] == t[i - 1]);
                }
            }
            if t.len() > 0 {
                assert(s.last() == t.last());
            }
        }
    }
}

/// The resting orders of a side in priority order: level by level, best
/// price first, and within a level in arrival order.
pub open spec fn priority_order(ls: Seq<Seq<Order>>) -> Seq<Order>
    decreases ls.len(),
{
    if ls.len() == 0 {
        Seq::empty()
    } else {
        ls[0] + priority_order(ls.drop_first())
    }
}

/// Taking the head order away takes the first order of the priority order.
proof fn lemma_priority_without_head(ls: Seq<Seq<Order>>)
    requires
        ls.len() > 0,
        ls[0].len() > 0,
    ensures
        priority_order(without(ls, 0, 0)) == priority_order(ls).drop_first(),
        priority_order(ls)[0] == ls[0][0],
{
    let rest = priority_order(ls.drop_first());
    assert(priority_order(ls) == ls[0] + rest);
    if ls[0].len() == 1 {
        assert(without(ls, 0, 0) =~= ls.drop_first());
        assert((ls[0] + rest).drop_first() =~= rest);
    } else {
        let nl = without(ls, 0, 0);
        assert(nl.drop_first() =~= ls.drop_first());
        assert(nl[0] =~= ls[0].drop_first());
        assert(priority_order(nl) == nl[0] + priority_order(nl.drop_first()));
        assert((ls[0] + rest).drop_first() =~= ls[0].drop_first() + rest);
    }
}

/// Matching fills the resting orders in priority order: the orders it fills
/// are the first ones of the opposite side, best level first and in arrival
/// order within a level, with none skipped.
pub proof fn lemma_fills_follow_priority(ls: Seq<Seq<Order>>, o: Order)
    ensures
        fill(ls, o).0.len() <= priority_order(ls).len(),
        forall|i: int|
            0 <= i < fill(ls, o).0.len() ==> (#[trigger] fill(ls, o).0[i]).order == priority_order(
                ls,
            )[i],
    decreases ls.len(), if ls.len() > 0 { ls[0].len() } else { 0 },
{
    if ls.len() == 0 || ls[0].len() == 0 || o.size == 0 || !crosses(o, ls[0][0].price) {
    } else {
        let h = ls[0][0];
        lemma_priority_without_head(ls);
        if o.size >= h.size {
            let o2 = Order { size: (o.size - h.size) as u64, ..o };
            let nl = without(ls, 0, 0);
            lemma_fills_follow_priority(nl, o2);
            let s = fill(ls, o).0;
            let t = fill(nl, o2).0;
            assert(s == seq![Match { order: h, size: h.size }] + t);
            assert forall|i: int| 0 <= i < s.len() implies (#[trigger] s[i]).order
                == priority_order(ls)[i] by {
                if i > 0 {
                    assert(s[i] == t[i - 1]);
                }
            }
        }
    }
}

} // verus!
