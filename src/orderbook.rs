use std::collections::HashMap;
use vstd::prelude::*;

use crate::laws::lemma_fills_cross;
use crate::order::{Order, Side};
use crate::price_level::{holds, lemma_size_le_sum, sum_sizes, PriceLevel};
use crate::price_levels::{
    cancel_spec, found, insert_spec, lemma_cancel_present, lemma_found_chosen, lemma_found_unique, lemma_cancel_side, lemma_insert_present,
    lemma_insert_side, lemma_resized_present, lemma_resized_side, lemma_update_present,
    lemma_update_side, lemma_without_present, lemma_without_side, on_side, present, resize_room,
    resized, room_for, slot, sorted_levels, unique_ids, update_spec, without, PriceLevels,
};

verus! {

broadcast use vstd::std_specs::hash::group_hash_axioms;

/// One fill: the resting order as it stood before the fill, and the size
/// taken from it.
#[derive(Clone, Copy, Debug)]
pub struct Match {
    pub order: Order,
    pub size: u64,
}

/// What `place` reports: the fills in the order they happened, and the
/// incoming order with its residual size.
pub struct Matches {
    pub matches: Vec<Match>,
    pub order: Order,
}

/// A resting price `p` crosses the limit of the incoming order `o`.
pub open spec fn crosses(o: Order, p: u64) -> bool {
    if o.side == Side::Buy {
        p <= o.price
    } else {
        p >= o.price
    }
}

/// Matching `o` against the opposite side `ls` (levels best price first):
/// the fills, the opposite side afterwards, and the residual size.
/// Orders are taken head first while the best level crosses; one smaller
/// than the residual is filled whole and leaves, a larger one is filled in
/// part and keeps its place.
pub open spec fn fill(ls: Seq<Seq<Order>>, o: Order) -> (Seq<Match>, Seq<Seq<Order>>, u64)
    decreases ls.len(), if ls.len() > 0 { ls[0].len() } else { 0 },
{
    if ls.len() == 0 || ls[0].len() == 0 || o.size == 0 || !crosses(o, ls[0][0].price) {
        (Seq::empty(), ls, o.size)
    } else {
        let h = ls[0][0];
        if o.size >= h.size {
            let r = fill(without(ls, 0, 0), Order { size: (o.size - h.size) as u64, ..o });
            (seq![Match { order: h, size: h.size }] + r.0, r.1, r.2)
        } else {
            (seq![Match { order: h, size: o.size }], resized(ls, 0, 0, (h.size - o.size) as u64), 0)
        }
    }
}

/// The total size of a sequence of fills.
pub open spec fn matched(s: Seq<Match>) -> int
    decreases s.len(),
{
    if s.len() == 0 {
        0
    } else {
        s[0].size + matched(s.drop_first())
    }
}

/// A suffix of the fills totals no more than all of them.
pub proof fn lemma_matched_skip(s: Seq<Match>, i: int)
    requires
        0 <= i <= s.len(),
    ensures
        0 <= matched(s.skip(i)) <= matched(s),
    decreases i,
{
    if i == 0 {
        assert(s.skip(0) =~= s);
        lemma_matched_nonneg(s);
    } else {
        assert(s.skip(i) =~= s.drop_first().skip(i - 1));
        lemma_matched_skip(s.drop_first(), i - 1);
    }
}

/// A total of fills is never negative.
pub proof fn lemma_matched_nonneg(s: Seq<Match>)
    ensures
        matched(s) >= 0,
    decreases s.len(),
{
    if s.len() > 0 {
        lemma_matched_nonneg(s.drop_first());
    }
}

/// Matching conserves size: what was filled plus the residual is the size
/// of the incoming order.
pub proof fn lemma_fill_conserves(ls: Seq<Seq<Order>>, o: Order)
    ensures
        matched(fill(ls, o).0) + fill(ls, o).2 == o.size,
    decreases ls.len(), if ls.len() > 0 { ls[0].len() } else { 0 },
{
    if ls.len() == 0 || ls[0].len() == 0 || o.size == 0 || !crosses(o, ls[0][0].price) {
    } else {
        let h = ls[0][0];
        if o.size >= h.size {
            let o2 = Order { size: (o.size - h.size) as u64, ..o };
            lemma_fill_conserves(without(ls, 0, 0), o2);
            let s = fill(ls, o).0;
            assert(s.drop_first() =~= fill(without(ls, 0, 0), o2).0);
            assert(s[0].size == h.size);
            assert(matched(s) == s[0].size + matched(s.drop_first()));
        } else {
            let s = fill(ls, o).0;
            assert(s.drop_first() =~= Seq::<Match>::empty());
            assert(matched(s.drop_first()) == 0);
            assert(matched(s) == s[0].size + matched(s.drop_first()));
        }
    }
}

/// Matching keeps the opposite side holding orders of one side only.
pub proof fn lemma_fill_side(ls: Seq<Seq<Order>>, o: Order, side: Side)
    requires
        on_side(ls, side),
    ensures
        on_side(fill(ls, o).1, side),
    decreases ls.len(), if ls.len() > 0 { ls[0].len() } else { 0 },
{
    if ls.len() == 0 || ls[0].len() == 0 || o.size == 0 || !crosses(o, ls[0][0].price) {
    } else {
        let h = ls[0][0];
        if o.size >= h.size {
            lemma_without_side(ls, 0, 0, side);
            lemma_fill_side(without(ls, 0, 0), Order { size: (o.size - h.size) as u64, ..o }, side);
        } else {
            lemma_resized_side(ls, 0, 0, (h.size - o.size) as u64, side);
        }
    }
}

/// Some fill of `ms` takes the whole of an order with identity `x`.
pub open spec fn filled_whole(ms: Seq<Match>, x: i64) -> bool {
    exists|i: int| 0 <= i < ms.len() && ms[i].order.id == x && ms[i].size == ms[i].order.size
}

/// Matching keeps identities unique, and what stays resting on the opposite
/// side is what rested there but for the orders filled whole.
pub proof fn lemma_fill_present(ls: Seq<Seq<Order>>, o: Order)
    requires
        unique_ids(ls),
    ensures
        unique_ids(fill(ls, o).1),
        forall|x: i64|
            present(fill(ls, o).1, x) <==> (present(ls, x) && !filled_whole(fill(ls, o).0, x)),
    decreases ls.len(), if ls.len() > 0 { ls[0].len() } else { 0 },
{
    if ls.len() == 0 || ls[0].len() == 0 || o.size == 0 || !crosses(o, ls[0][0].price) {
        assert forall|x: i64| !filled_whole(fill(ls, o).0, x) by {}
    } else {
        let h = ls[0][0];
        let s = fill(ls, o).0;
        if o.size >= h.size {
            let o2 = Order { size: (o.size - h.size) as u64, ..o };
            let nl = without(ls, 0, 0);
            lemma_without_present(ls, 0, 0);
            lemma_fill_present(nl, o2);
            let t = fill(nl, o2).0;
            assert forall|x: i64| filled_whole(s, x) <==> (x == h.id || filled_whole(t, x)) by {
                if filled_whole(s, x) {
                    let i = choose|i: int|
                        0 <= i < s.len() && s[i].order.id == x && s[i].size == s[i].order.size;
                    if i > 0 {
                        assert(s[i] == t[i - 1]);
                    }
                }
                if x == h.id {
                    assert(s[0].order.id == x && s[0].size == s[0].order.size);
                }
                if filled_whole(t, x) {
                    let i = choose|i: int|
                        0 <= i < t.len() && t[i].order.id == x && t[i].size == t[i].order.size;
                    assert(s[i + 1] == t[i]);
                }
            }
            assert(fill(ls, o).1 == fill(nl, o2).1);
            assert forall|x: i64| present(fill(ls, o).1, x) <==> (present(ls, x) && !filled_whole(
                s,
                x,
            )) by {
                assert(present(fill(nl, o2).1, x) <==> (present(nl, x) && !filled_whole(t, x)));
                assert(present(nl, x) <==> (present(ls, x) && x != h.id));
            }
        } else {
            lemma_resized_present(ls, 0, 0, (h.size - o.size) as u64);
            assert forall|x: i64| !filled_whole(s, x) by {
                if filled_whole(s, x) {
                    let i = choose|i: int|
                        0 <= i < s.len() && s[i].order.id == x && s[i].size == s[i].order.size;
                    assert(i == 0);
                }
            }
            assert(fill(ls, o).1 == resized(ls, 0, 0, (h.size - o.size) as u64));
        }
    }
}

impl Matches {
    /// The total size filled.
    pub fn total_size(&self) -> (r: u64)
        requires
            matched(self.matches@) <= u64::MAX,
        ensures
            r == matched(self.matches@),
    {
        let ghost s = self.matches@;
        let mut i: usize = self.matches.len();
        let mut acc: u64 = 0;
        proof {
            assert(s.skip(i as int) =~= Seq::<Match>::empty());
        }
        while i > 0
            invariant
                i <= s.len(),
                s == self.matches@,
                matched(s) <= u64::MAX,
                acc == matched(s.skip(i as int)),
            decreases i,
        {
            proof {
                assert(s.skip(i - 1).drop_first() =~= s.skip(i as int));
                lemma_matched_skip(s, i - 1);
            }
            acc = acc + self.matches[i - 1].size;
            i = i - 1;
        }
        proof {
            assert(s.skip(0) =~= s);
        }
        acc
    }
}

/// Whether a resting price `p` crosses the limit of `o`.
pub fn aggressive(o: &Order, p: &u64) -> (r: bool)
    ensures
        r == crosses(*o, *p),
{
    if o.side == Side::Buy {
        o.price >= *p
    } else {
        o.price <= *p
    }
}

/// What is left of the levels `ls` to match against once the walk stands at
/// place `pj` of level `li`: the rest of that level, then the later levels.
pub open spec fn rest_from(ls: Seq<Seq<Order>>, li: int, pj: int) -> Seq<Seq<Order>> {
    if li >= ls.len() {
        Seq::empty()
    } else {
        seq![ls[li].subrange(pj, ls[li].len() as int)] + ls.subrange(li + 1, ls.len() as int)
    }
}

/// The walk starts with all the levels.
proof fn lemma_rest_start(ls: Seq<Seq<Order>>)
    ensures
        rest_from(ls, 0, 0) == ls,
{
    if ls.len() > 0 {
        assert(ls[0].subrange(0, ls[0].len() as int) =~= ls[0]);
    }
    assert(rest_from(ls, 0, 0) =~= ls);
}

/// One step of the walk: the head of what is left is the order at
/// `(li, pj)`, and taking it away moves the walk on by one place.
proof fn lemma_rest_step(ls: Seq<Seq<Order>>, ask: bool, li: int, pj: int)
    requires
        sorted_levels(ls, ask),
        0 <= li < ls.len(),
        0 <= pj < ls[li].len(),
    ensures
        rest_from(ls, li, pj).len() > 0,
        rest_from(ls, li, pj)[0].len() > 0,
        rest_from(ls, li, pj)[0][0] == ls[li][pj],
        ls[li][pj].price == ls[li][0].price,
        pj + 1 < ls[li].len() ==> without(rest_from(ls, li, pj), 0, 0) == rest_from(ls, li, pj + 1),
        pj + 1 == ls[li].len() ==> without(rest_from(ls, li, pj), 0, 0) == rest_from(ls, li + 1, 0),
{
    let r = rest_from(ls, li, pj);
    assert(r[0] =~= ls[li].subrange(pj, ls[li].len() as int));
    assert(ls[li][pj].price == ls[li][0].price);
    if pj + 1 < ls[li].len() {
        assert(r[0].remove(0) =~= ls[li].subrange(pj + 1, ls[li].len() as int));
        assert(without(r, 0, 0) =~= rest_from(ls, li, pj + 1));
    } else {
        if li + 1 < ls.len() {
            assert(ls[li + 1].subrange(0, ls[li + 1].len() as int) =~= ls[li + 1]);
        }
        assert(without(r, 0, 0) =~= rest_from(ls, li + 1, 0));
    }
}

/// Matches `o` against the opposite side `pls` in price-time priority and
/// reports the fills and the residual size; `pls` itself is only read.
pub fn match_order(o: &Order, pls: &PriceLevels) -> (r: Matches)
    requires
        pls.wf(),
    ensures
        r.matches@ == fill(pls@, *o).0,
        r.order == (Order { size: fill(pls@, *o).2, ..*o }),
{
    let ghost ls = pls@;
    let ghost g = fill(ls, *o);
    let mut matches: Vec<Match> = Vec::new();
    let mut rem: u64 = o.size;
    let mut li: usize = 0;
    let mut pj: usize = 0;
    proof {
        lemma_rest_start(ls);
        assert(Order { size: rem, ..*o } == *o);
        assert(matches@ + g.0 =~= g.0);
    }
    while li < pls.levels.len() && rem > 0 && aggressive(o, &pls.levels[li].orders[0].price)
        invariant
            pls.wf(),
            ls == pls@,
            li <= ls.len(),
            li < ls.len() ==> pj < ls[li as int].len(),
            matches@ + fill(rest_from(ls, li as int, pj as int), Order { size: rem, ..*o }).0
                == g.0,
            fill(rest_from(ls, li as int, pj as int), Order { size: rem, ..*o }).2 == g.2,
        decreases ls.len() - li, if li < ls.len() { ls[li as int].len() - pj } else { 0 }, rem,
    {
        let ghost cur = Order { size: rem, ..*o };
        let ghost r = rest_from(ls, li as int, pj as int);
        let ghost before = matches@;
        proof {
            lemma_rest_step(ls, pls.ask, li as int, pj as int);
        }
        let h = pls.levels[li].orders[pj];
        if rem >= h.size {
            let m = Match { order: h, size: h.size };
            matches.push(m);
            rem = rem - h.size;
            if pj < pls.levels[li].orders.len() - 1 {
                pj = pj + 1;
            } else {
                li = li + 1;
                pj = 0;
            }
            proof {
                let next = Order { size: rem, ..*o };
                assert(next == Order { size: (cur.size - h.size) as u64, ..cur });
                assert(rest_from(ls, li as int, pj as int) == without(r, 0, 0));
                assert(fill(r, cur).0 == seq![m] + fill(without(r, 0, 0), next).0);
                assert(matches@ + fill(rest_from(ls, li as int, pj as int), next).0 =~= before
                    + fill(r, cur).0);
                if li < ls.len() {
                    assert(ls[li as int].len() > 0);
                }
            }
        } else {
            let m = Match { order: h, size: rem };
            matches.push(m);
            rem = 0;
            proof {
                let next = Order { size: rem, ..*o };
                assert(fill(r, cur).0 == seq![m]);
                assert(fill(r, next).0 =~= Seq::<Match>::empty());
                assert(matches@ + fill(r, next).0 =~= before + fill(r, cur).0);
            }
        }
    }
    proof {
        if li < ls.len() {
            lemma_rest_step(ls, pls.ask, li as int, pj as int);
        }
        assert(matches@ + Seq::<Match>::empty() =~= matches@);
    }
    Matches { matches, order: Order { size: rem, ..*o } }
}

/// Applies the fills `ms` of `o` to the opposite side `pls`, as matching
/// reported them: an order filled whole leaves through `remove_order`, a
/// partly filled one keeps its place with the rest of its size through
/// `update_order`.
pub fn apply_fills(o: &Order, pls: &mut PriceLevels, ms: &Vec<Match>)
    requires
        old(pls).wf(),
        ms@ == fill(old(pls)@, *o).0,
    ensures
        final(pls).wf(),
        final(pls).ask == old(pls).ask,
        final(pls)@ == fill(old(pls)@, *o).1,
{
    let ghost g = fill(pls@, *o);
    let mut i: usize = 0;
    let mut rem: u64 = o.size;
    proof {
        assert(Order { size: rem, ..*o } == *o);
        assert(ms@.skip(0) =~= ms@);
    }
    while i < ms.len()
        invariant
            pls.wf(),
            pls.ask == old(pls).ask,
            i <= ms@.len(),
            ms@.skip(i as int) == fill(pls@, Order { size: rem, ..*o }).0,
            fill(pls@, Order { size: rem, ..*o }).1 == g.1,
        decreases ms@.len() - i,
    {
        let ghost ls = pls@;
        let ghost cur = Order { size: rem, ..*o };
        let m = ms[i];
        proof {
            assert(ms@.skip(i as int)[0] == m);
            assert(fill(ls, cur).0.len() > 0);
            assert(!(ls.len() == 0 || ls[0].len() == 0 || cur.size == 0 || !crosses(
                cur,
                ls[0][0].price,
            )));
            assert(ls.len() > 0 && ls[0].len() > 0);
            assert(m.order == ls[0][0]);
            assert(found(ls, m.order.id, 0, 0));
            lemma_found_chosen(ls, m.order.id, 0, 0);
            assert(ms@.skip(i as int).drop_first() =~= ms@.skip(i + 1));
        }
        if m.size == m.order.size {
            pls.remove_order(&m.order.id);
            rem = rem - m.size;
            proof {
                let next = Order { size: rem, ..*o };
                assert(next == Order { size: (cur.size - ls[0][0].size) as u64, ..cur });
            }
        } else {
            proof {
                assert(pls.levels@[0].wf());
                lemma_size_le_sum(ls[0], 0);
                assert forall|a: int, b: int| found(ls, m.order.id, a, b) implies sum_sizes(ls[a])
                    - ls[a][b].size + (m.order.size - m.size) <= u64::MAX by {
                    lemma_found_unique(ls, m.order.id, a, b, 0, 0);
                }
            }
            pls.update_order(&m.order.id, m.order.size - m.size);
            rem = 0;
            proof {
                let next = Order { size: rem, ..*o };
                assert(fill(pls@, next).0 =~= Seq::<Match>::empty());
            }
        }
        i = i + 1;
    }
    proof {
        assert(ms@.skip(i as int) =~= Seq::<Match>::empty());
    }
}

/// Placing `o` on a book with sides `bids` and `asks`: the fills, the
/// residual size, and the two sides afterwards. The order matches against
/// the opposite side; a positive residual then rests on its own side.
pub open spec fn place_spec(bids: Seq<Seq<Order>>, asks: Seq<Seq<Order>>, o: Order) -> (
    Seq<Match>,
    u64,
    Seq<Seq<Order>>,
    Seq<Seq<Order>>,
) {
    if o.side == Side::Buy {
        let f = fill(asks, o);
        let nb = if f.2 > 0 {
            insert_spec(bids, false, Order { size: f.2, ..o })
        } else {
            bids
        };
        (f.0, f.2, nb, f.1)
    } else {
        let f = fill(bids, o);
        let na = if f.2 > 0 {
            insert_spec(asks, true, Order { size: f.2, ..o })
        } else {
            asks
        };
        (f.0, f.2, f.1, na)
    }
}

/// An order of side `side` rests on the ask side.
pub open spec fn rests_as_ask(side: Side) -> bool {
    side == Side::Sell
}

/// The side on which an order of side `side` rests.
pub open spec fn own_side(bids: Seq<Seq<Order>>, asks: Seq<Seq<Order>>, side: Side) -> Seq<
    Seq<Order>,
> {
    if side == Side::Buy {
        bids
    } else {
        asks
    }
}

/// The two sides after cancelling `id`: the first order with that identity
/// leaves, looking at the bids first; nothing changes when no order has it.
pub open spec fn cancel_book(bids: Seq<Seq<Order>>, asks: Seq<Seq<Order>>, id: i64) -> (
    Seq<Seq<Order>>,
    Seq<Seq<Order>>,
) {
    if present(bids, id) {
        (cancel_spec(bids, id), asks)
    } else {
        (bids, cancel_spec(asks, id))
    }
}

/// The two sides after resizing the first order with identity `id` to a
/// positive `n`, looking at the bids first.
pub open spec fn update_book(bids: Seq<Seq<Order>>, asks: Seq<Seq<Order>>, id: i64, n: u64) -> (
    Seq<Seq<Order>>,
    Seq<Seq<Order>>,
) {
    if present(bids, id) {
        (update_spec(bids, id, n), asks)
    } else {
        (bids, update_spec(asks, id, n))
    }
}

/// Resizing `id` to `n` keeps the total of its level within `u64`.
pub open spec fn update_room(bids: Seq<Seq<Order>>, asks: Seq<Seq<Order>>, id: i64, n: u64) -> bool {
    if present(bids, id) {
        resize_room(bids, id, n)
    } else {
        resize_room(asks, id, n)
    }
}

/// The best price of a side and the total size resting there.
pub open spec fn top_of(ls: Seq<Seq<Order>>) -> Option<(u64, u64)> {
    if ls.len() == 0 {
        None
    } else {
        Some((ls[0][0].price, sum_sizes(ls[0]) as u64))
    }
}

/// No two resting orders of the book share an identity.
pub open spec fn book_unique(bids: Seq<Seq<Order>>, asks: Seq<Seq<Order>>) -> bool {
    &&& unique_ids(bids)
    &&& unique_ids(asks)
    &&& forall|id: i64| !(present(bids, id) && present(asks, id))
}

/// The index records each resting identity with the side that holds it.
pub open spec fn indexed(idx: Map<i64, Side>, bids: Seq<Seq<Order>>, asks: Seq<Seq<Order>>) -> bool {
    &&& forall|x: i64| idx.contains_key(x) <==> (present(bids, x) || present(asks, x))
    &&& forall|x: i64| idx.contains_key(x) ==> (idx[x] == Side::Buy <==> present(bids, x))
}

/// An order may rest under its identity: it fills whole, or its identity
/// rests neither on its own side nor among what matching leaves of the other.
pub open spec fn fresh_for(bids: Seq<Seq<Order>>, asks: Seq<Seq<Order>>, o: Order) -> bool {
    let opp = if o.side == Side::Buy {
        asks
    } else {
        bids
    };
    fill(opp, o).2 > 0 ==> !present(own_side(bids, asks, o.side), o.id) && !present(
        fill(opp, o).1,
        o.id,
    )
}

/// Cancelling keeps identities unique and the index, less `id`, exact.
pub proof fn lemma_cancel_indexed(
    idx: Map<i64, Side>,
    bids: Seq<Seq<Order>>,
    asks: Seq<Seq<Order>>,
    id: i64,
)
    requires
        book_unique(bids, asks),
        indexed(idx, bids, asks),
    ensures
        book_unique(cancel_book(bids, asks, id).0, cancel_book(bids, asks, id).1),
        indexed(idx.remove(id), cancel_book(bids, asks, id).0, cancel_book(bids, asks, id).1),
{
    lemma_cancel_present(bids, id);
    lemma_cancel_present(asks, id);
    let nb = cancel_book(bids, asks, id).0;
    let na = cancel_book(bids, asks, id).1;
    assert forall|x: i64| present(nb, x) ==> present(bids, x) by {}
    assert forall|x: i64| present(na, x) ==> present(asks, x) by {}
    assert forall|x: i64| present(nb, x) <==> (present(bids, x) && x != id) by {
        if present(bids, id) {
        } else {
            assert(nb == bids);
        }
    }
    assert forall|x: i64| present(na, x) <==> (present(asks, x) && x != id) by {
        if present(bids, id) {
            assert(!present(asks, id));
            assert(na == asks);
        }
    }
    let ni = idx.remove(id);
    assert forall|x: i64| ni.contains_key(x) <==> (present(nb, x) || present(na, x)) by {}
    assert forall|x: i64| ni.contains_key(x) implies (ni[x] == Side::Buy <==> present(nb, x)) by {
        assert(idx.contains_key(x));
    }
}

/// Updating keeps identities unique and the index exact.
pub proof fn lemma_update_indexed(
    idx: Map<i64, Side>,
    bids: Seq<Seq<Order>>,
    asks: Seq<Seq<Order>>,
    id: i64,
    n: u64,
)
    requires
        book_unique(bids, asks),
        indexed(idx, bids, asks),
    ensures
        book_unique(update_book(bids, asks, id, n).0, update_book(bids, asks, id, n).1),
        indexed(idx, update_book(bids, asks, id, n).0, update_book(bids, asks, id, n).1),
{
    lemma_update_present(bids, id, n);
    lemma_update_present(asks, id, n);
    let nb = update_book(bids, asks, id, n).0;
    let na = update_book(bids, asks, id, n).1;
    assert(unique_ids(nb) && unique_ids(na));
    assert forall|x: i64| present(nb, x) == present(bids, x) && present(na, x) == present(asks, x)
        by {}
    assert(book_unique(nb, na));
    assert forall|x: i64| idx.contains_key(x) <==> (present(nb, x) || present(na, x)) by {}
    assert forall|x: i64| idx.contains_key(x) implies (idx[x] == Side::Buy <==> present(nb, x)) by {}
    assert(indexed(idx, nb, na));
}

/// Placing keeps identities unique and the index exact, once the identities
/// filled whole leave it and the residual, if any, enters it.
pub proof fn lemma_place_indexed(
    idx: Map<i64, Side>,
    mid: Map<i64, Side>,
    bids: Seq<Seq<Order>>,
    asks: Seq<Seq<Order>>,
    o: Order,
)
    requires
        book_unique(bids, asks),
        indexed(idx, bids, asks),
        fresh_for(bids, asks, o),
        forall|x: i64|
            mid.contains_key(x) <==> (idx.contains_key(x) && !filled_whole(
                place_spec(bids, asks, o).0,
                x,
            )),
        forall|x: i64| mid.contains_key(x) ==> mid[x] == idx[x],
        place_spec(bids, asks, o).1 > 0 ==> exists|k: int|
            #[trigger] slot(own_side(bids, asks, o.side), rests_as_ask(o.side), o.price, k),
    ensures
        book_unique(place_spec(bids, asks, o).2, place_spec(bids, asks, o).3),
        indexed(
            if place_spec(bids, asks, o).1 > 0 {
                mid.insert(o.id, o.side)
            } else {
                mid
            },
            place_spec(bids, asks, o).2,
            place_spec(bids, asks, o).3,
        ),
{
    let ps = place_spec(bids, asks, o);
    let (opp, own) = if o.side == Side::Buy {
        (asks, bids)
    } else {
        (bids, asks)
    };
    let ms = fill(opp, o).0;
    let rest = fill(opp, o).1;
    let o2 = Order { size: ps.1, ..o };
    let grown = if ps.1 > 0 {
        insert_spec(own, o.side == Side::Sell, o2)
    } else {
        own
    };
    lemma_fill_present(opp, o);
    lemma_fills_cross(opp, o);
    assert forall|x: i64| filled_whole(ms, x) implies present(opp, x) by {
        let i = choose|i: int|
            0 <= i < ms.len() && ms[i].order.id == x && ms[i].size == ms[i].order.size;
        let (a, b) = choose|a: int, b: int|
            0 <= a < opp.len() && 0 <= b < opp[a].len() && opp[a][b] == ms[i].order;
        assert(holds(opp[a], x));
    }
    if ps.1 > 0 {
        lemma_insert_present(own, o.side == Side::Sell, o2);
    }
    assert forall|x: i64| present(grown, x) <==> (present(own, x) || (ps.1 > 0 && x == o.id)) by {}
    let fin = if ps.1 > 0 {
        mid.insert(o.id, o.side)
    } else {
        mid
    };
    if o.side == Side::Buy {
        assert(ps.2 == grown && ps.3 == rest);
        assert forall|x: i64| !(present(grown, x) && present(rest, x)) by {
            if present(grown, x) && present(rest, x) {
                assert(present(asks, x));
            }
        }
        assert forall|x: i64| fin.contains_key(x) <==> (present(grown, x) || present(rest, x)) by {
            if present(bids, x) {
                assert(!present(asks, x));
            }
        }
        assert forall|x: i64| fin.contains_key(x) implies (fin[x] == Side::Buy <==> present(
            grown,
            x,
        )) by {
            if ps.1 > 0 && x == o.id {
            } else {
                assert(idx.contains_key(x));
            }
        }
    } else {
        assert(ps.2 == rest && ps.3 == grown);
        assert forall|x: i64| !(present(rest, x) && present(grown, x)) by {
            if present(grown, x) && present(rest, x) {
                assert(present(bids, x));
            }
        }
        assert forall|x: i64| fin.contains_key(x) <==> (present(rest, x) || present(grown, x)) by {
            if present(asks, x) {
                assert(!present(bids, x));
            }
        }
        assert forall|x: i64| fin.contains_key(x) implies (fin[x] == Side::Buy <==> present(
            rest,
            x,
        )) by {
            if ps.1 > 0 && x == o.id {
                assert(!present(rest, x));
            } else {
                assert(idx.contains_key(x));
            }
        }
    }
}

/// A limit order book for one instrument: the bid side, the ask side, and
/// the side on which each resting identity stands.
pub struct OrderBook {
    pub bid_levels: PriceLevels,
    pub ask_levels: PriceLevels,
    pub orders: HashMap<i64, Side>,
}

impl View for OrderBook {
    type V = (Seq<Seq<Order>>, Seq<Seq<Order>>);

    open spec fn view(&self) -> (Seq<Seq<Order>>, Seq<Seq<Order>>) {
        (self.bid_levels@, self.ask_levels@)
    }
}

impl OrderBook {
    /// Both sides are well formed: every cached level size is the total of
    /// its orders and no level is empty. Bids are best at the highest price
    /// and hold buy orders; asks are best at the lowest and hold sell orders.
    /// No two resting orders share an identity, and the index holds exactly
    /// the resting identities, each with its side.
    pub open spec fn wf(&self) -> bool {
        &&& self.bid_levels.wf()
        &&& !self.bid_levels.ask
        &&& on_side(self.bid_levels@, Side::Buy)
        &&& self.ask_levels.wf()
        &&& self.ask_levels.ask
        &&& on_side(self.ask_levels@, Side::Sell)
        &&& book_unique(self.bid_levels@, self.ask_levels@)
        &&& indexed(self.orders@, self.bid_levels@, self.ask_levels@)
    }

    pub fn new() -> (r: OrderBook)
        ensures
            r.wf(),
            r@.0 == Seq::<Seq<Order>>::empty(),
            r@.1 == Seq::<Seq<Order>>::empty(),
    {
        let r = OrderBook {
            bid_levels: PriceLevels::new(false),
            ask_levels: PriceLevels::new(true),
            orders: HashMap::new(),
        };
        proof {
            assert(r.orders@ =~= Map::<i64, Side>::empty());
        }
        r
    }

    /// Cancels the order with identity `id`; does nothing when no order has it.
    pub fn cancel(&mut self, id: &i64)
        requires
            old(self).wf(),
        ensures
            final(self).wf(),
            final(self)@ == cancel_book(old(self)@.0, old(self)@.1, *id),
    {
        proof {
            lemma_cancel_side(self@.0, *id, Side::Buy);
            lemma_cancel_side(self@.1, *id, Side::Sell);
            lemma_cancel_present(self@.0, *id);
            lemma_cancel_present(self@.1, *id);
        }
        let ghost idx = self.orders@;
        let side = match self.orders.get(id) {
            Some(s) => Some(*s),
            None => None,
        };
        match side {
            Some(Side::Buy) => {
                self.bid_levels.remove_order(id);
                self.orders.remove(id);
            },
            Some(Side::Sell) => {
                self.ask_levels.remove_order(id);
                self.orders.remove(id);
            },
            None => {},
        }
        proof {
            assert(self.orders@ =~= idx.remove(*id));
            lemma_cancel_indexed(idx, old(self)@.0, old(self)@.1, *id);
        }
    }

    /// Sets the size of the order with identity `id`, keeping its price and
    /// its place in its level; a size of zero cancels it. Does nothing when no
    /// order has that identity. Never matches.
    pub fn update(&mut self, id: &i64, new_size: u64)
        requires
            old(self).wf(),
            update_room(old(self)@.0, old(self)@.1, *id, new_size),
        ensures
            final(self).wf(),
            new_size == 0 ==> final(self)@ == cancel_book(old(self)@.0, old(self)@.1, *id),
            new_size > 0 ==> final(self)@ == update_book(old(self)@.0, old(self)@.1, *id, new_size),
    {
        proof {
            lemma_update_side(self@.0, *id, new_size, Side::Buy);
            lemma_update_side(self@.1, *id, new_size, Side::Sell);
            lemma_update_present(self@.0, *id, new_size);
            lemma_update_present(self@.1, *id, new_size);
            lemma_update_indexed(self.orders@, self@.0, self@.1, *id, new_size);
        }
        if new_size == 0 {
            self.cancel(id);
        } else {
            let side = match self.orders.get(id) {
                Some(s) => Some(*s),
                None => None,
            };
            match side {
                Some(Side::Buy) => {
                    self.bid_levels.update_order(id, new_size);
                },
                Some(Side::Sell) => {
                    self.ask_levels.update_order(id, new_size);
                },
                None => {},
            }
        }
    }

    /// Matches `o` against the opposite side in price-time priority, applies
    /// the report to that side and to the index (orders filled whole leave,
    /// a partly filled one shrinks in place), and rests what is left of `o`
    /// on its own side.
    pub fn place(&mut self, o: &Order) -> (r: Matches)
        requires
            old(self).wf(),
            room_for(own_side(old(self)@.0, old(self)@.1, o.side), o.price, o.size),
            fresh_for(old(self)@.0, old(self)@.1, *o),
        ensures
            final(self).wf(),
            r.matches@ == place_spec(old(self)@.0, old(self)@.1, *o).0,
            r.order == (Order { size: place_spec(old(self)@.0, old(self)@.1, *o).1, ..*o }),
            final(self)@.0 == place_spec(old(self)@.0, old(self)@.1, *o).2,
            final(self)@.1 == place_spec(old(self)@.0, old(self)@.1, *o).3,
            matched(r.matches@) + r.order.size == o.size,
    {
        let ghost bids = self@.0;
        let ghost asks = self@.1;
        let ghost idx = self.orders@;
        if o.side == Side::Buy {
            let mo = match_order(o, &self.ask_levels);
            apply_fills(o, &mut self.ask_levels, &mo.matches);
            unindex_filled(&mut self.orders, &mo.matches);
            proof {
                lemma_fill_conserves(asks, *o);
                lemma_matched_nonneg(mo.matches@);
                lemma_fill_side(asks, *o, Side::Sell);
                lemma_fill_present(asks, *o);
                lemma_fills_cross(asks, *o);
                assert forall|x: i64| filled_whole(mo.matches@, x) implies present(asks, x) by {
                    let i = choose|i: int|
                        0 <= i < mo.matches@.len() && mo.matches@[i].order.id == x
                            && mo.matches@[i].size == mo.matches@[i].order.size;
                    let (a, b) = choose|a: int, b: int|
                        0 <= a < asks.len() && 0 <= b < asks[a].len() && asks[a][b]
                            == mo.matches@[i].order;
                    assert(holds(asks[a], x));
                }
            }
            let ghost mid = self.orders@;
            if mo.order.size > 0 {
                self.bid_levels.insert(mo.order);
                self.orders.insert(o.id, Side::Buy);
                proof {
                    lemma_insert_side(bids, false, mo.order, Side::Buy);
                    lemma_insert_present(bids, false, mo.order);
                    assert(self.orders@ == mid.insert(o.id, Side::Buy));
                    let k = choose|k: int| slot(bids, false, o.price, k);
                    assert(slot(own_side(bids, asks, o.side), rests_as_ask(o.side), o.price, k));
                }
            }
            proof {
                assert(mo.matches@ == place_spec(bids, asks, *o).0);
                assert forall|x: i64| mid.contains_key(x) <==> (idx.contains_key(x) && !filled_whole(
                    place_spec(bids, asks, *o).0,
                    x,
                )) by {}
                lemma_place_indexed(idx, mid, bids, asks, *o);
            }
            mo
        } else {
            let mo = match_order(o, &self.bid_levels);
            apply_fills(o, &mut self.bid_levels, &mo.matches);
            unindex_filled(&mut self.orders, &mo.matches);
            proof {
                lemma_fill_conserves(bids, *o);
                lemma_matched_nonneg(mo.matches@);
                lemma_fill_side(bids, *o, Side::Buy);
                lemma_fill_present(bids, *o);
                lemma_fills_cross(bids, *o);
                assert forall|x: i64| filled_whole(mo.matches@, x) implies present(bids, x) by {
                    let i = choose|i: int|
                        0 <= i < mo.matches@.len() && mo.matches@[i].order.id == x
                            && mo.matches@[i].size == mo.matches@[i].order.size;
                    let (a, b) = choose|a: int, b: int|
                        0 <= a < bids.len() && 0 <= b < bids[a].len() && bids[a][b]
                            == mo.matches@[i].order;
                    assert(holds(bids[a], x));
                }
            }
            let ghost mid = self.orders@;
            if mo.order.size > 0 {
                self.ask_levels.insert(mo.order);
                self.orders.insert(o.id, Side::Sell);
                proof {
                    lemma_insert_side(asks, true, mo.order, Side::Sell);
                    lemma_insert_present(asks, true, mo.order);
                    assert(self.orders@ == mid.insert(o.id, Side::Sell));
                    let k = choose|k: int| slot(asks, true, o.price, k);
                    assert(slot(own_side(bids, asks, o.side), rests_as_ask(o.side), o.price, k));
                }
            }
            proof {
                assert(mo.matches@ == place_spec(bids, asks, *o).0);
                assert forall|x: i64| mid.contains_key(x) <==> (idx.contains_key(x) && !filled_whole(
                    place_spec(bids, asks, *o).0,
                    x,
                )) by {}
                lemma_place_indexed(idx, mid, bids, asks, *o);
            }
            mo
        }
    }

    /// Whether an order with identity `id` rests on the book. An order whose
    /// identity does not rest may always be placed under it.
    pub fn contains(&self, id: &i64) -> (r: bool)
        requires
            self.wf(),
        ensures
            r == (present(self@.0, *id) || present(self@.1, *id)),
            !r ==> forall|o: Order| o.id == *id ==> #[trigger] fresh_for(self@.0, self@.1, o),
    {
        let r = self.orders.contains_key(id);
        proof {
            if !r {
                assert forall|o: Order| o.id == *id implies #[trigger] fresh_for(
                    self@.0,
                    self@.1,
                    o,
                ) by {
                    if o.side == Side::Buy {
                        lemma_fill_present(self@.1, o);
                    } else {
                        lemma_fill_present(self@.0, o);
                    }
                }
            }
        }
        r
    }

    /// The best bid level: the one at the highest price.
    pub fn bid(&self) -> (r: Option<&PriceLevel>)
        requires
            self.wf(),
        ensures
            self.bid_levels.levels@.len() == 0 ==> r is None,
            self.bid_levels.levels@.len() > 0 ==> (r matches Some(l) && *l
                == self.bid_levels.levels@[0]),
    {
        self.bid_levels.best_level()
    }

    /// The best ask level: the one at the lowest price.
    pub fn ask(&self) -> (r: Option<&PriceLevel>)
        requires
            self.wf(),
        ensures
            self.ask_levels.levels@.len() == 0 ==> r is None,
            self.ask_levels.levels@.len() > 0 ==> (r matches Some(l) && *l
                == self.ask_levels.levels@[0]),
    {
        self.ask_levels.best_level()
    }

    /// The best bid price and the total size resting there.
    pub fn best_bid(&self) -> (r: Option<(u64, u64)>)
        requires
            self.wf(),
        ensures
            r == top_of(self@.0),
    {
        top_level(&self.bid_levels)
    }

    /// The best ask price and the total size resting there.
    pub fn best_ask(&self) -> (r: Option<(u64, u64)>)
        requires
            self.wf(),
        ensures
            r == top_of(self@.1),
    {
        top_level(&self.ask_levels)
    }
}

/// Drops from the index the identities of the orders filled whole.
fn unindex_filled(orders: &mut HashMap<i64, Side>, ms: &Vec<Match>)
    ensures
        forall|x: i64|
            #[trigger] final(orders)@.contains_key(x) <==> (old(orders)@.contains_key(x) && !filled_whole(
                ms@,
                x,
            )),
        forall|x: i64| final(orders)@.contains_key(x) ==> final(orders)@[x] == old(orders)@[x],
{
    let mut i: usize = 0;
    while i < ms.len()
        invariant
            i <= ms@.len(),
            forall|x: i64|
                #[trigger] orders@.contains_key(x) <==> (old(orders)@.contains_key(x) && !filled_whole(
                    ms@.take(i as int),
                    x,
                )),
            forall|x: i64| orders@.contains_key(x) ==> orders@[x] == old(orders)@[x],
        decreases ms@.len() - i,
    {
        let m = ms[i];
        let ghost before = orders@;
        if m.size == m.order.size {
            orders.remove(&m.order.id);
        }
        proof {
            let t1 = ms@.take(i + 1);
            let t0 = ms@.take(i as int);
            assert forall|x: i64| filled_whole(t1, x) <==> (filled_whole(t0, x) || (x
                == m.order.id && m.size == m.order.size)) by {
                if filled_whole(t1, x) {
                    let j = choose|j: int|
                        0 <= j < t1.len() && t1[j].order.id == x && t1[j].size == t1[j].order.size;
                    if j < i {
                        assert(t0[j] == t1[j]);
                    }
                }
                if filled_whole(t0, x) {
                    let j = choose|j: int|
                        0 <= j < t0.len() && t0[j].order.id == x && t0[j].size == t0[j].order.size;
                    assert(t1[j] == t0[j]);
                }
                if x == m.order.id && m.size == m.order.size {
                    assert(t1[i as int] == m);
                }
            }
        }
        i = i + 1;
    }
    proof {
        assert(ms@.take(ms@.len() as int) =~= ms@);
    }
}

/// The best price of a side and the total size resting there.
fn top_level(pls: &PriceLevels) -> (r: Option<(u64, u64)>)
    requires
        pls.wf(),
    ensures
        r == top_of(pls@),
{
    match pls.best_level() {
        Some(l) => {
            assert(l.wf());
            Some((l.orders[0].price, l.size))
        },
        None => None,
    }
}

} // verus!
