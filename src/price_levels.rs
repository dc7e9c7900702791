use vstd::prelude::*;

use crate::order::{Order, Side};
use crate::price_level::{first_in, holds, sum_sizes, PriceLevel};

verus! {

/// Price `a` is strictly better than price `b` on the given side: lower for
/// the ask side, higher for the bid side.
pub open spec fn better(ask: bool, a: u64, b: u64) -> bool {
    if ask {
        a < b
    } else {
        a > b
    }
}

/// The queues of a sequence of levels.
pub open spec fn rows(levels: Seq<PriceLevel>) -> Seq<Seq<Order>> {
    levels.map_values(|l: PriceLevel| l.orders@)
}

/// Levels are non-empty, each holds one price and positive sizes, and they
/// stand best price first with no price repeated.
pub open spec fn sorted_levels(ls: Seq<Seq<Order>>, ask: bool) -> bool {
    &&& forall|i: int| 0 <= i < ls.len() ==> ls[i].len() > 0
    &&& forall|i: int, j: int|
        0 <= i < ls.len() && 0 <= j < ls[i].len() ==> (#[trigger] ls[i][j]).price
            == ls[i][0].price && ls[i][j].size > 0
    &&& forall|i: int, k: int|
        0 <= i < k < ls.len() ==> better(ask, ls[i][0].price, ls[k][0].price)
}

/// `k` is where a level for price `p` belongs: after every strictly better
/// level, before the rest.
pub open spec fn slot(ls: Seq<Seq<Order>>, ask: bool, p: u64, k: int) -> bool {
    &&& 0 <= k <= ls.len()
    &&& forall|j: int| 0 <= j < k ==> better(ask, ls[j][0].price, p)
    &&& k < ls.len() ==> !better(ask, ls[k][0].price, p)
}

/// The levels after `o` rests: at the tail of the level of its price, or
/// alone in a new level at its place in price order.
pub open spec fn insert_spec(ls: Seq<Seq<Order>>, ask: bool, o: Order) -> Seq<Seq<Order>> {
    let k = choose|k: int| slot(ls, ask, o.price, k);
    if k < ls.len() && ls[k][0].price == o.price {
        ls.update(k, ls[k].push(o))
    } else {
        ls.insert(k, seq![o])
    }
}

/// The level of price `p`, if any, has room for `size` more lots.
pub open spec fn room_for(ls: Seq<Seq<Order>>, p: u64, size: u64) -> bool {
    forall|i: int| 0 <= i < ls.len() && ls[i][0].price == p ==> sum_sizes(ls[i]) + size <= u64::MAX
}

/// Some level holds an order with identity `id`.
pub open spec fn present(ls: Seq<Seq<Order>>, id: i64) -> bool {
    exists|li: int| 0 <= li < ls.len() && holds(ls[li], id)
}

/// `(li, pj)` is the first place of identity `id` in priority order.
pub open spec fn found(ls: Seq<Seq<Order>>, id: i64, li: int, pj: int) -> bool {
    &&& 0 <= li < ls.len()
    &&& first_in(ls[li], id, pj)
    &&& forall|l: int| 0 <= l < li ==> !holds(ls[l], id)
}

/// The levels without the order at `(li, pj)`; a level left empty goes too.
pub open spec fn without(ls: Seq<Seq<Order>>, li: int, pj: int) -> Seq<Seq<Order>> {
    if ls[li].len() == 1 {
        ls.remove(li)
    } else {
        ls.update(li, ls[li].remove(pj))
    }
}

/// The levels with the order at `(li, pj)` resized to `n`, in its place.
pub open spec fn resized(ls: Seq<Seq<Order>>, li: int, pj: int, n: u64) -> Seq<Seq<Order>> {
    ls.update(li, ls[li].update(pj, Order { size: n, ..ls[li][pj] }))
}

/// Resizing the first order with identity `id` to `n` keeps its level's total
/// within `u64`.
pub open spec fn resize_room(ls: Seq<Seq<Order>>, id: i64, n: u64) -> bool {
    forall|li: int, pj: int|
        found(ls, id, li, pj) ==> sum_sizes(ls[li]) - ls[li][pj].size + n <= u64::MAX
}

/// The levels after the first order with identity `id` leaves; unchanged
/// when no order has it.
pub open spec fn cancel_spec(ls: Seq<Seq<Order>>, id: i64) -> Seq<Seq<Order>> {
    if present(ls, id) {
        let (li, pj) = choose|li: int, pj: int| found(ls, id, li, pj);
        without(ls, li, pj)
    } else {
        ls
    }
}

/// The levels after the first order with identity `id` is resized to `n`;
/// unchanged when no order has it.
pub open spec fn update_spec(ls: Seq<Seq<Order>>, id: i64, n: u64) -> Seq<Seq<Order>> {
    if present(ls, id) {
        let (li, pj) = choose|li: int, pj: int| found(ls, id, li, pj);
        resized(ls, li, pj, n)
    } else {
        ls
    }
}

/// The best price of a side, `None` when it holds no level.
pub open spec fn best_of(ls: Seq<Seq<Order>>) -> Option<u64> {
    if ls.len() == 0 {
        None
    } else {
        Some(ls[0][0].price)
    }
}

/// An identity has one first place.
pub proof fn lemma_found_unique(ls: Seq<Seq<Order>>, id: i64, l1: int, p1: int, l2: int, p2: int)
    requires
        found(ls, id, l1, p1),
        found(ls, id, l2, p2),
    ensures
        l1 == l2 && p1 == p2,
{
    if l1 < l2 {
        assert(holds(ls[l1], id));
    } else if l2 < l1 {
        assert(holds(ls[l2], id));
    }
}

/// The first place of `id` is the one that `choose` names.
pub proof fn lemma_found_chosen(ls: Seq<Seq<Order>>, id: i64, li: int, pj: int)
    requires
        found(ls, id, li, pj),
    ensures
        present(ls, id),
        (choose|a: int, b: int| found(ls, id, a, b)) == (li, pj),
{
    assert(holds(ls[li], id));
    let (a, b) = choose|a: int, b: int| found(ls, id, a, b);
    lemma_found_unique(ls, id, li, pj, a, b);
}

/// A price has one place among the levels.
pub proof fn lemma_slot_unique(ls: Seq<Seq<Order>>, ask: bool, p: u64, k1: int, k2: int)
    requires
        slot(ls, ask, p, k1),
        slot(ls, ask, p, k2),
    ensures
        k1 == k2,
{
}

/// No two resting orders share an identity.
pub open spec fn unique_ids(ls: Seq<Seq<Order>>) -> bool {
    forall|l1: int, p1: int, l2: int, p2: int|
        0 <= l1 < ls.len() && 0 <= p1 < ls[l1].len() && 0 <= l2 < ls.len() && 0 <= p2
            < ls[l2].len() && (#[trigger] ls[l1][p1]).id == (#[trigger] ls[l2][p2]).id ==> l1
            == l2 && p1 == p2
}

/// The identities of the resting orders, level by level in queue order.
pub open spec fn ids_of(ls: Seq<Seq<Order>>) -> Seq<Seq<i64>> {
    ls.map_values(|row: Seq<Order>| row.map_values(|o: Order| o.id))
}

/// Where identities are unique, once an order leaves no order with its
/// identity is left.
pub proof fn lemma_cancel_removes_id(ls: Seq<Seq<Order>>, id: i64)
    requires
        unique_ids(ls),
    ensures
        !present(cancel_spec(ls, id), id),
{
    if present(ls, id) {
        let (li, pj) = choose|li: int, pj: int| found(ls, id, li, pj);
        let li0 = choose|li0: int| 0 <= li0 < ls.len() && holds(ls[li0], id);
        let pj0 = choose|pj0: int| 0 <= pj0 < ls[li0].len() && ls[li0][pj0].id == id;
        assert(found(ls, id, li, pj)) by {
            lemma_first_exists(ls, id, li0, pj0);
        }
        let nl = without(ls, li, pj);
        if present(nl, id) {
            let a = choose|a: int| 0 <= a < nl.len() && holds(nl[a], id);
            let b = choose|b: int| 0 <= b < nl[a].len() && nl[a][b].id == id;
            if ls[li].len() == 1 {
                let a2 = if a < li { a } else { a + 1 };
                assert(nl[a] == ls[a2]);
                assert(ls[a2][b].id == ls[li][pj].id);
            } else if a != li {
                assert(nl[a] == ls[a]);
                assert(ls[a][b].id == ls[li][pj].id);
            } else {
                let b2 = if b < pj { b } else { b + 1 };
                assert(nl[a][b] == ls[li][b2]);
                assert(ls[li][b2].id == ls[li][pj].id);
            }
        }
    }
}

/// Some first place of `id` exists once `id` rests somewhere.
proof fn lemma_first_exists(ls: Seq<Seq<Order>>, id: i64, li: int, pj: int)
    requires
        0 <= li < ls.len(),
        0 <= pj < ls[li].len(),
        ls[li][pj].id == id,
    ensures
        exists|a: int, b: int| found(ls, id, a, b),
    decreases li, pj,
{
    if exists|l: int| 0 <= l < li && holds(ls[l], id) {
        let l = choose|l: int| 0 <= l < li && holds(ls[l], id);
        let q = choose|q: int| 0 <= q < ls[l].len() && ls[l][q].id == id;
        lemma_first_exists(ls, id, l, q);
    } else if exists|q: int| 0 <= q < pj && ls[li][q].id == id {
        let q = choose|q: int| 0 <= q < pj && ls[li][q].id == id;
        lemma_first_exists(ls, id, li, q);
    } else {
        assert(found(ls, id, li, pj));
    }
}

/// Resizing an order keeps every identity in its place in its queue.
pub proof fn lemma_update_keeps_queues(ls: Seq<Seq<Order>>, id: i64, n: u64)
    ensures
        ids_of(update_spec(ls, id, n)) == ids_of(ls),
{
    if present(ls, id) {
        let li0 = choose|li0: int| 0 <= li0 < ls.len() && holds(ls[li0], id);
        let pj0 = choose|pj0: int| 0 <= pj0 < ls[li0].len() && ls[li0][pj0].id == id;
        lemma_first_exists(ls, id, li0, pj0);
        let (li, pj) = choose|li: int, pj: int| found(ls, id, li, pj);
        let nl = update_spec(ls, id, n);
        assert forall|i: int| 0 <= i < ls.len() implies ids_of(nl)[i] == ids_of(ls)[i] by {
            assert(ids_of(nl)[i] =~= ids_of(ls)[i]);
        }
        assert(ids_of(nl) =~= ids_of(ls));
    }
}

/// Every resting order is of side `side`.
pub open spec fn on_side(ls: Seq<Seq<Order>>, side: Side) -> bool {
    forall|i: int, j: int|
        0 <= i < ls.len() && 0 <= j < ls[i].len() ==> (#[trigger] ls[i][j]).side == side
}

/// The place that `choose` names for a resting identity is its first place.
pub proof fn lemma_present_found(ls: Seq<Seq<Order>>, id: i64)
    requires
        present(ls, id),
    ensures
        found(
            ls,
            id,
            (choose|li: int, pj: int| found(ls, id, li, pj)).0,
            (choose|li: int, pj: int| found(ls, id, li, pj)).1,
        ),
{
    let li0 = choose|li0: int| 0 <= li0 < ls.len() && holds(ls[li0], id);
    let pj0 = choose|pj0: int| 0 <= pj0 < ls[li0].len() && ls[li0][pj0].id == id;
    lemma_first_exists(ls, id, li0, pj0);
}

/// Removing an order keeps a side holding orders of one side only.
pub proof fn lemma_without_side(ls: Seq<Seq<Order>>, li: int, pj: int, side: Side)
    requires
        on_side(ls, side),
        0 <= li < ls.len(),
        0 <= pj < ls[li].len(),
    ensures
        on_side(without(ls, li, pj), side),
{
    let nl = without(ls, li, pj);
    assert forall|i: int, j: int| 0 <= i < nl.len() && 0 <= j < nl[i].len() implies (
    #[trigger] nl[i][j]).side == side by {
        if ls[li].len() == 1 {
            let a = if i < li { i } else { i + 1 };
            assert(nl[i][j] == ls[a][j]);
        } else if i == li {
            let b = if j < pj { j } else { j + 1 };
            assert(nl[i][j] == ls[li][b]);
        } else {
            assert(nl[i][j] == ls[i][j]);
        }
    }
}

/// Resizing an order keeps a side holding orders of one side only.
pub proof fn lemma_resized_side(ls: Seq<Seq<Order>>, li: int, pj: int, n: u64, side: Side)
    requires
        on_side(ls, side),
        0 <= li < ls.len(),
        0 <= pj < ls[li].len(),
    ensures
        on_side(resized(ls, li, pj, n), side),
{
    let nl = resized(ls, li, pj, n);
    assert forall|i: int, j: int| 0 <= i < nl.len() && 0 <= j < nl[i].len() implies (
    #[trigger] nl[i][j]).side == side by {
        if i != li || j != pj {
            assert(nl[i][j] == ls[i][j]);
        } else {
            assert(nl[i][j].side == ls[li][pj].side);
        }
    }
}

/// Cancelling keeps a side holding orders of one side only.
pub proof fn lemma_cancel_side(ls: Seq<Seq<Order>>, id: i64, side: Side)
    requires
        on_side(ls, side),
    ensures
        on_side(cancel_spec(ls, id), side),
{
    if present(ls, id) {
        lemma_present_found(ls, id);
        let (li, pj) = choose|li: int, pj: int| found(ls, id, li, pj);
        lemma_without_side(ls, li, pj, side);
    }
}

/// Updating keeps a side holding orders of one side only.
pub proof fn lemma_update_side(ls: Seq<Seq<Order>>, id: i64, n: u64, side: Side)
    requires
        on_side(ls, side),
    ensures
        on_side(update_spec(ls, id, n), side),
{
    if present(ls, id) {
        lemma_present_found(ls, id);
        let (li, pj) = choose|li: int, pj: int| found(ls, id, li, pj);
        lemma_resized_side(ls, li, pj, n, side);
    }
}

/// Resting an order of side `side` keeps a side holding that side only.
pub proof fn lemma_insert_side(ls: Seq<Seq<Order>>, ask: bool, o: Order, side: Side)
    requires
        on_side(ls, side),
        o.side == side,
        exists|k: int| slot(ls, ask, o.price, k),
    ensures
        on_side(insert_spec(ls, ask, o), side),
{
    let k = choose|k: int| slot(ls, ask, o.price, k);
    let nl = insert_spec(ls, ask, o);
    assert forall|i: int, j: int| 0 <= i < nl.len() && 0 <= j < nl[i].len() implies (
    #[trigger] nl[i][j]).side == side by {
        if k < ls.len() && ls[k][0].price == o.price {
            if i == k && j == ls[k].len() {
                assert(nl[i][j] == o);
            } else {
                assert(nl[i][j] == ls[i][j]);
            }
        } else if i < k {
            assert(nl[i][j] == ls[i][j]);
        } else if i > k {
            assert(nl[i][j] == ls[i - 1][j]);
        } else {
            assert(nl[i] == seq![o]);
        }
    }
}

/// The level in `ls` that level `a` of `without(ls, li, pj)` comes from.
pub open spec fn from_level(ls: Seq<Seq<Order>>, li: int, a: int) -> int {
    if ls[li].len() == 1 && a >= li {
        a + 1
    } else {
        a
    }
}

/// The place in its level that place `(a, b)` of `without(ls, li, pj)`
/// comes from.
pub open spec fn from_place(ls: Seq<Seq<Order>>, li: int, pj: int, a: int, b: int) -> int {
    if ls[li].len() != 1 && a == li && b >= pj {
        b + 1
    } else {
        b
    }
}

/// Each place after a removal holds the order of the place it comes from.
proof fn lemma_without_from(ls: Seq<Seq<Order>>, li: int, pj: int, a: int, b: int)
    requires
        0 <= li < ls.len(),
        0 <= pj < ls[li].len(),
        0 <= a < without(ls, li, pj).len(),
        0 <= b < without(ls, li, pj)[a].len(),
    ensures
        0 <= from_level(ls, li, a) < ls.len(),
        0 <= from_place(ls, li, pj, a, b) < ls[from_level(ls, li, a)].len(),
        !(from_level(ls, li, a) == li && from_place(ls, li, pj, a, b) == pj),
        without(ls, li, pj)[a][b] == ls[from_level(ls, li, a)][from_place(ls, li, pj, a, b)],
{
}

/// Removing the order at `(li, pj)` keeps identities unique, and leaves
/// resting exactly the identities that rested before but its own.
pub proof fn lemma_without_present(ls: Seq<Seq<Order>>, li: int, pj: int)
    requires
        unique_ids(ls),
        0 <= li < ls.len(),
        0 <= pj < ls[li].len(),
    ensures
        unique_ids(without(ls, li, pj)),
        forall|x: i64|
            present(without(ls, li, pj), x) <==> (present(ls, x) && x != ls[li][pj].id),
{
    let nl = without(ls, li, pj);
    assert forall|l1: int, p1: int, l2: int, p2: int|
        0 <= l1 < nl.len() && 0 <= p1 < nl[l1].len() && 0 <= l2 < nl.len() && 0 <= p2
            < nl[l2].len() && (#[trigger] nl[l1][p1]).id == (#[trigger] nl[l2][p2]).id implies l1
        == l2 && p1 == p2 by {
        lemma_without_from(ls, li, pj, l1, p1);
        lemma_without_from(ls, li, pj, l2, p2);
        let a1 = from_level(ls, li, l1);
        let a2 = from_level(ls, li, l2);
        assert(ls[a1][from_place(ls, li, pj, l1, p1)].id == ls[a2][from_place(
            ls,
            li,
            pj,
            l2,
            p2,
        )].id);
    }
    assert forall|x: i64| present(nl, x) <==> (present(ls, x) && x != ls[li][pj].id) by {
        if present(nl, x) {
            let a = choose|a: int| 0 <= a < nl.len() && holds(nl[a], x);
            let b = choose|b: int| 0 <= b < nl[a].len() && nl[a][b].id == x;
            lemma_without_from(ls, li, pj, a, b);
            let a2 = from_level(ls, li, a);
            let b2 = from_place(ls, li, pj, a, b);
            assert(ls[a2][b2].id == x);
            assert(holds(ls[a2], x));
        }
        if present(ls, x) && x != ls[li][pj].id {
            let a = choose|a: int| 0 <= a < ls.len() && holds(ls[a], x);
            let b = choose|b: int| 0 <= b < ls[a].len() && ls[a][b].id == x;
            if ls[li].len() == 1 {
                if a == li {
                    assert(b == pj);
                }
                let a2 = if a < li { a } else { a - 1 };
                assert(nl[a2] == ls[a]);
                assert(holds(nl[a2], x));
            } else if a != li {
                assert(nl[a] == ls[a]);
                assert(holds(nl[a], x));
            } else {
                let b2 = if b < pj { b } else { b - 1 };
                assert(nl[a][b2] == ls[a][b]);
                assert(holds(nl[a], x));
            }
        }
    }
}

/// Resizing an order changes no identity.
pub proof fn lemma_resized_present(ls: Seq<Seq<Order>>, li: int, pj: int, n: u64)
    requires
        unique_ids(ls),
        0 <= li < ls.len(),
        0 <= pj < ls[li].len(),
    ensures
        unique_ids(resized(ls, li, pj, n)),
        forall|x: i64| present(resized(ls, li, pj, n), x) <==> present(ls, x),
{
    let nl = resized(ls, li, pj, n);
    assert forall|a: int, b: int| 0 <= a < nl.len() && 0 <= b < nl[a].len() implies (
    #[trigger] nl[a][b]).id == ls[a][b].id && nl[a].len() == ls[a].len() by {
        if a == li && b == pj {
        } else {
            assert(nl[a][b] == ls[a][b]);
        }
    }
    assert forall|x: i64| present(nl, x) <==> present(ls, x) by {
        if present(nl, x) {
            let a = choose|a: int| 0 <= a < nl.len() && holds(nl[a], x);
            let b = choose|b: int| 0 <= b < nl[a].len() && nl[a][b].id == x;
            assert(ls[a][b].id == x);
            assert(holds(ls[a], x));
        }
        if present(ls, x) {
            let a = choose|a: int| 0 <= a < ls.len() && holds(ls[a], x);
            let b = choose|b: int| 0 <= b < ls[a].len() && ls[a][b].id == x;
            assert(nl[a][b].id == x);
            assert(holds(nl[a], x));
        }
    }
}

/// Where place `(a, b)` of the levels after an insertion at `k` comes from:
/// `None` for the inserted order itself.
pub open spec fn from_insert(ls: Seq<Seq<Order>>, k: int, merged: bool, a: int, b: int) -> Option<
    (int, int),
> {
    if merged {
        if a == k && b == ls[k].len() {
            None
        } else {
            Some((a, b))
        }
    } else if a < k {
        Some((a, b))
    } else if a == k {
        None
    } else {
        Some((a - 1, b))
    }
}

/// Resting an order whose identity does not rest yet keeps identities
/// unique and adds exactly its identity.
pub proof fn lemma_insert_present(ls: Seq<Seq<Order>>, ask: bool, o: Order)
    requires
        unique_ids(ls),
        !present(ls, o.id),
        exists|k: int| slot(ls, ask, o.price, k),
    ensures
        unique_ids(insert_spec(ls, ask, o)),
        forall|x: i64| present(insert_spec(ls, ask, o), x) <==> (present(ls, x) || x == o.id),
{
    let k = choose|k: int| slot(ls, ask, o.price, k);
    let nl = insert_spec(ls, ask, o);
    let merged = k < ls.len() && ls[k][0].price == o.price;
    assert forall|a: int, b: int| 0 <= a < nl.len() && 0 <= b < nl[a].len() implies (match from_insert(
        ls,
        k,
        merged,
        a,
        b,
    ) {
        None => #[trigger] nl[a][b] == o,
        Some((c, d)) => 0 <= c < ls.len() && 0 <= d < ls[c].len() && nl[a][b] == ls[c][d],
    }) by {
        if merged {
            if a == k && b == ls[k].len() {
            } else {
                assert(nl[a][b] == ls[a][b]);
            }
        } else if a < k {
            assert(nl[a] == ls[a]);
        } else if a == k {
            assert(nl[a] == seq![o]);
        } else {
            assert(nl[a] == ls[a - 1]);
        }
    }
    assert forall|l1: int, p1: int, l2: int, p2: int|
        0 <= l1 < nl.len() && 0 <= p1 < nl[l1].len() && 0 <= l2 < nl.len() && 0 <= p2
            < nl[l2].len() && (#[trigger] nl[l1][p1]).id == (#[trigger] nl[l2][p2]).id implies l1
        == l2 && p1 == p2 by {
        match (from_insert(ls, k, merged, l1, p1), from_insert(ls, k, merged, l2, p2)) {
            (None, None) => {
                if merged {
                } else {
                    assert(nl[k] == seq![o]);
                }
            },
            (Some((c, d)), None) => {
                assert(holds(ls[c], o.id));
            },
            (None, Some((c, d))) => {
                assert(holds(ls[c], o.id));
            },
            (Some((c1, d1)), Some((c2, d2))) => {
                assert(ls[c1][d1].id == ls[c2][d2].id);
            },
        }
    }
    assert forall|x: i64| present(nl, x) <==> (present(ls, x) || x == o.id) by {
        if present(nl, x) {
            let a = choose|a: int| 0 <= a < nl.len() && holds(nl[a], x);
            let b = choose|b: int| 0 <= b < nl[a].len() && nl[a][b].id == x;
            match from_insert(ls, k, merged, a, b) {
                None => {},
                Some((c, d)) => {
                    assert(holds(ls[c], x));
                },
            }
        }
        if x == o.id {
            if merged {
                assert(nl[k] == ls[k].push(o));
                assert(nl[k].len() == ls[k].len() + 1);
                assert(nl[k][ls[k].len() as int] == o);
                assert(holds(nl[k], x));
            } else {
                assert(nl.len() == ls.len() + 1);
                assert(nl[k] == seq![o]);
                assert(nl[k][0].id == x);
                assert(holds(nl[k], x));
            }
        } else if present(ls, x) {
            let a = choose|a: int| 0 <= a < ls.len() && holds(ls[a], x);
            let b = choose|b: int| 0 <= b < ls[a].len() && ls[a][b].id == x;
            if merged || a < k {
                assert(nl[a][b] == ls[a][b]);
                assert(holds(nl[a], x));
            } else {
                assert(nl[a + 1] == ls[a]);
                assert(holds(nl[a + 1], x));
            }
        }
    }
}

/// Cancelling keeps identities unique and leaves resting every identity
/// that rested but `id`.
pub proof fn lemma_cancel_present(ls: Seq<Seq<Order>>, id: i64)
    requires
        unique_ids(ls),
    ensures
        unique_ids(cancel_spec(ls, id)),
        forall|x: i64| present(cancel_spec(ls, id), x) <==> (present(ls, x) && x != id),
{
    if present(ls, id) {
        lemma_present_found(ls, id);
        let (li, pj) = choose|li: int, pj: int| found(ls, id, li, pj);
        lemma_without_present(ls, li, pj);
    }
}

/// Updating keeps identities unique and changes none of them.
pub proof fn lemma_update_present(ls: Seq<Seq<Order>>, id: i64, n: u64)
    requires
        unique_ids(ls),
    ensures
        unique_ids(update_spec(ls, id, n)),
        forall|x: i64| present(update_spec(ls, id, n), x) <==> present(ls, x),
{
    if present(ls, id) {
        lemma_present_found(ls, id);
        let (li, pj) = choose|li: int, pj: int| found(ls, id, li, pj);
        lemma_resized_present(ls, li, pj, n);
    }
}

/// Appending an order of a level's price to that level keeps the levels in
/// order.
pub proof fn lemma_sorted_push(ls: Seq<Seq<Order>>, ask: bool, k: int, o: Order)
    requires
        sorted_levels(ls, ask),
        0 <= k < ls.len(),
        o.price == ls[k][0].price,
        o.size > 0,
    ensures
        sorted_levels(ls.update(k, ls[k].push(o)), ask),
{
    let nl = ls.update(k, ls[k].push(o));
    assert forall|i: int, j: int| 0 <= i < nl.len() && 0 <= j < nl[i].len() implies (
    #[trigger] nl[i][j]).price == nl[i][0].price && nl[i][j].size > 0 by {
        assert(ls[i].len() > 0);
        assert(nl[i][0] == ls[i][0]);
        if i == k && j == ls[i].len() {
            assert(nl[i][j] == o);
        } else {
            assert(nl[i][j] == ls[i][j]);
            assert(ls[i][j].price == ls[i][0].price && ls[i][j].size > 0);
        }
    }
    assert forall|i: int| 0 <= i < nl.len() implies nl[i].len() > 0 && nl[i][0] == ls[i][0] by {
        assert(ls[i].len() > 0);
    }
    assert forall|i: int, m: int| 0 <= i < m < nl.len() implies better(
        ask,
        nl[i][0].price,
        nl[m][0].price,
    ) by {
        assert(nl[i][0] == ls[i][0]);
        assert(nl[m][0] == ls[m][0]);
    }
}

/// A new level holding only `o`, at the place of its price, keeps the
/// levels in order.
pub proof fn lemma_sorted_insert_level(ls: Seq<Seq<Order>>, ask: bool, k: int, o: Order)
    requires
        sorted_levels(ls, ask),
        slot(ls, ask, o.price, k),
        k < ls.len() ==> ls[k][0].price != o.price,
        o.size > 0,
    ensures
        sorted_levels(ls.insert(k, seq![o]), ask),
{
    let nl = ls.insert(k, seq![o]);
    assert forall|i: int, j: int| 0 <= i < nl.len() && 0 <= j < nl[i].len() implies (
    #[trigger] nl[i][j]).price == nl[i][0].price && nl[i][j].size > 0 by {
        if i > k {
            assert(nl[i] == ls[i - 1]);
            assert(ls[i - 1][j].price == ls[i - 1][0].price && ls[i - 1][j].size > 0);
        } else if i < k {
            assert(nl[i] == ls[i]);
            assert(ls[i][j].price == ls[i][0].price && ls[i][j].size > 0);
        } else {
            assert(nl[i] == seq![o]);
        }
    }
    assert forall|i: int, m: int| 0 <= i < m < nl.len() implies better(
        ask,
        nl[i][0].price,
        nl[m][0].price,
    ) by {
        if m == k {
            assert(better(ask, ls[i][0].price, o.price));
        } else if i == k {
            assert(!better(ask, ls[k][0].price, o.price));
            if m - 1 > k {
                assert(better(ask, ls[k][0].price, ls[m - 1][0].price));
            }
        } else if i > k {
            assert(better(ask, ls[i - 1][0].price, ls[m - 1][0].price));
        } else if m > k {
            assert(better(ask, ls[i][0].price, ls[m - 1][0].price));
        }
    }
    assert forall|i: int| 0 <= i < nl.len() implies nl[i].len() > 0 by {
        if i > k {
            assert(nl[i] == ls[i - 1]);
        } else if i < k {
            assert(nl[i] == ls[i]);
        }
    }
}

/// Removing one order, and its level when that leaves it empty, keeps the
/// levels in order.
pub proof fn lemma_sorted_without(ls: Seq<Seq<Order>>, ask: bool, li: int, pj: int)
    requires
        sorted_levels(ls, ask),
        0 <= li < ls.len(),
        0 <= pj < ls[li].len(),
    ensures
        sorted_levels(without(ls, li, pj), ask),
{
    let nl = without(ls, li, pj);
    if ls[li].len() == 1 {
        assert forall|i: int, j: int| 0 <= i < nl.len() && 0 <= j < nl[i].len() implies (
        #[trigger] nl[i][j]).price == nl[i][0].price && nl[i][j].size > 0 by {
            if i >= li {
                assert(nl[i] == ls[i + 1]);
                assert(ls[i + 1][j].price == ls[i + 1][0].price && ls[i + 1][j].size > 0);
            } else {
                assert(nl[i] == ls[i]);
                assert(ls[i][j].price == ls[i][0].price && ls[i][j].size > 0);
            }
        }
        assert forall|i: int| 0 <= i < nl.len() implies nl[i].len() > 0 by {
            if i >= li {
                assert(nl[i] == ls[i + 1]);
            }
        }
        assert forall|i: int, m: int| 0 <= i < m < nl.len() implies better(
            ask,
            nl[i][0].price,
            nl[m][0].price,
        ) by {
            if i >= li {
                assert(better(ask, ls[i + 1][0].price, ls[m + 1][0].price));
            } else if m >= li {
                assert(better(ask, ls[i][0].price, ls[m + 1][0].price));
            } else {
                assert(better(ask, ls[i][0].price, ls[m][0].price));
            }
        }
    } else {
        assert forall|i: int, j: int| 0 <= i < nl.len() && 0 <= j < nl[i].len() implies (
        #[trigger] nl[i][j]).price == nl[i][0].price && nl[i][j].size > 0 by {
            assert(ls[i].len() > 0);
            if i == li {
                let a = if j < pj {
                    j
                } else {
                    j + 1
                };
                let b = if 0 < pj {
                    0
                } else {
                    1int
                };
                assert(nl[i][j] == ls[i][a]);
                assert(nl[i][0] == ls[i][b]);
                assert(ls[i][a].price == ls[i][0].price && ls[i][a].size > 0);
                assert(ls[i][b].price == ls[i][0].price);
            } else {
                assert(nl[i] == ls[i]);
                assert(ls[i][j].price == ls[i][0].price && ls[i][j].size > 0);
            }
        }
        assert forall|i: int| 0 <= i < nl.len() implies nl[i].len() > 0 && nl[i][0].price
            == ls[i][0].price by {
            assert(ls[i].len() > 0);
            if i == li {
                let b = if 0 < pj {
                    0
                } else {
                    1int
                };
                assert(nl[i][0] == ls[i][b]);
                assert(ls[i][b].price == ls[i][0].price);
            }
        }
        assert forall|i: int, m: int| 0 <= i < m < nl.len() implies better(
            ask,
            nl[i][0].price,
            nl[m][0].price,
        ) by {
            assert(nl[i][0].price == ls[i][0].price);
            assert(nl[m][0].price == ls[m][0].price);
        }
    }
}

/// Resizing one order to a positive size keeps the levels in order.
pub proof fn lemma_sorted_resized(ls: Seq<Seq<Order>>, ask: bool, li: int, pj: int, n: u64)
    requires
        sorted_levels(ls, ask),
        0 <= li < ls.len(),
        0 <= pj < ls[li].len(),
        n > 0,
    ensures
        sorted_levels(resized(ls, li, pj, n), ask),
{
    let nl = resized(ls, li, pj, n);
    assert forall|i: int, j: int| 0 <= i < nl.len() && 0 <= j < nl[i].len() implies (
    #[trigger] nl[i][j]).price == nl[i][0].price && nl[i][j].size > 0 by {
        assert(ls[i].len() > 0);
        assert(nl[i][0].price == ls[i][0].price);
        if i == li && j == pj {
        } else {
            assert(nl[i][j] == ls[i][j]);
            assert(ls[i][j].price == ls[i][0].price && ls[i][j].size > 0);
        }
    }
    assert forall|i: int| 0 <= i < nl.len() implies nl[i].len() > 0 && nl[i][0].price
        == ls[i][0].price by {
        assert(ls[i].len() > 0);
    }
    assert forall|i: int, m: int| 0 <= i < m < nl.len() implies better(
        ask,
        nl[i][0].price,
        nl[m][0].price,
    ) by {
        assert(nl[i][0].price == ls[i][0].price);
        assert(nl[m][0].price == ls[m][0].price);
    }
}

/// One side of the book: its price levels, best price first.
pub struct PriceLevels {
    pub levels: Vec<PriceLevel>,
    pub ask: bool,
}

impl View for PriceLevels {
    type V = Seq<Seq<Order>>;

    open spec fn view(&self) -> Seq<Seq<Order>> {
        rows(self.levels@)
    }
}

impl PriceLevels {
    /// Every cached level size is the total of its orders, and the levels are
    /// in price order with no empty level.
    pub open spec fn wf(&self) -> bool {
        &&& forall|i: int| 0 <= i < self.levels@.len() ==> (#[trigger] self.levels@[i]).wf()
        &&& sorted_levels(self@, self.ask)
    }

    pub fn new(ask: bool) -> (r: PriceLevels)
        ensures
            r.wf(),
            r.ask == ask,
            r@ == Seq::<Seq<Order>>::empty(),
    {
        let r = PriceLevels { levels: Vec::new(), ask };
        proof {
            assert(r@ =~= Seq::<Seq<Order>>::empty());
        }
        r
    }

    /// The price of the level at `k`.
    fn level_price(&self, k: usize) -> (r: u64)
        requires
            self.wf(),
            k < self.levels.len(),
        ensures
            r == self@[k as int][0].price,
    {
        self.levels[k].orders[0].price
    }

    /// Where a level for price `p` belongs, found by binary search over the
    /// levels in price order.
    fn slot_index(&self, p: u64) -> (k: usize)
        requires
            self.wf(),
        ensures
            slot(self@, self.ask, p, k as int),
    {
        let ghost ls = self@;
        let mut lo: usize = 0;
        let mut hi: usize = self.levels.len();
        while lo < hi
            invariant
                self.wf(),
                ls == self@,
                lo <= hi <= ls.len(),
                forall|j: int| 0 <= j < lo ==> better(self.ask, ls[j][0].price, p),
                forall|j: int| hi <= j < ls.len() ==> !better(self.ask, ls[j][0].price, p),
            decreases hi - lo,
        {
            let mid = lo + (hi - lo) / 2;
            if is_better(self.ask, self.level_price(mid), p) {
                proof {
                    assert forall|j: int| 0 <= j <= mid implies better(
                        self.ask,
                        ls[j][0].price,
                        p,
                    ) by {
                        if j < mid {
                            assert(better(self.ask, ls[j][0].price, ls[mid as int][0].price));
                        }
                    }
                }
                lo = mid + 1;
            } else {
                proof {
                    assert forall|j: int| mid <= j < ls.len() implies !better(
                        self.ask,
                        ls[j][0].price,
                        p,
                    ) by {
                        if j > mid {
                            assert(better(self.ask, ls[mid as int][0].price, ls[j][0].price));
                        }
                    }
                }
                hi = mid;
            }
        }
        lo
    }

    /// Rests `o` at the tail of the level of its price, creating that level
    /// at its place in price order when there is none.
    pub fn insert(&mut self, o: Order)
        requires
            old(self).wf(),
            o.size > 0,
            room_for(old(self)@, o.price, o.size),
        ensures
            final(self).wf(),
            final(self).ask == old(self).ask,
            final(self)@ == insert_spec(old(self)@, old(self).ask, o),
            exists|k: int| slot(old(self)@, old(self).ask, o.price, k),
    {
        let k = self.slot_index(o.price);
        proof {
            let c = choose|c: int| slot(self@, self.ask, o.price, c);
            lemma_slot_unique(self@, self.ask, o.price, c, k as int);
        }
        let ghost ls = self@;
        if k < self.levels.len() && self.level_price(k) == o.price {
            assert(self.levels@[k as int].wf());
            self.levels[k].add(o);
            proof {
                assert(self@ =~= ls.update(k as int, ls[k as int].push(o)));
                lemma_sorted_push(ls, self.ask, k as int, o);
                assert forall|i: int| 0 <= i < self.levels@.len() implies (
                #[trigger] self.levels@[i]).wf() by {
                    if i != k {
                        assert(self.levels@[i] == old(self).levels@[i]);
                    }
                }
            }
        } else {
            let mut pl = PriceLevel::default();
            pl.add(o);
            self.levels.insert(k, pl);
            proof {
                assert(self@ =~= ls.insert(k as int, seq![o]));
                lemma_sorted_insert_level(ls, self.ask, k as int, o);
                assert forall|i: int| 0 <= i < self.levels@.len() implies (
                #[trigger] self.levels@[i]).wf() by {
                    if i < k {
                        assert(self.levels@[i] == old(self).levels@[i]);
                    } else if i > k {
                        assert(self.levels@[i] == old(self).levels@[i - 1]);
                    }
                }
            }
        }
    }

    /// The first place of identity `id` in priority order.
    pub fn find(&self, id: i64) -> (r: Option<(usize, usize)>)
        requires
            self.wf(),
        ensures
            r matches Some((li, pj)) ==> found(self@, id, li as int, pj as int),
            r is None ==> !present(self@, id),
    {
        let mut li: usize = 0;
        while li < self.levels.len()
            invariant
                li <= self.levels.len(),
                forall|l: int| 0 <= l < li ==> !holds(self@[l], id),
            decreases self.levels.len() - li,
        {
            match self.levels[li].position(id) {
                Some(pj) => {
                    return Some((li, pj));
                },
                None => {},
            }
            li = li + 1;
        }
        None
    }

    /// Whether an order with identity `id` rests on this side.
    pub fn contains(&self, id: &i64) -> (r: bool)
        requires
            self.wf(),
        ensures
            r == present(self@, *id),
    {
        self.find(*id).is_some()
    }

    /// Removes the order at `(li, pj)`, and its level when that leaves it empty.
    pub fn remove_at(&mut self, li: usize, pj: usize) -> (r: Order)
        requires
            old(self).wf(),
            li < old(self)@.len(),
            pj < old(self)@[li as int].len(),
        ensures
            final(self).wf(),
            final(self).ask == old(self).ask,
            r == old(self)@[li as int][pj as int],
            final(self)@ == without(old(self)@, li as int, pj as int),
    {
        let ghost ls = self@;
        assert(self.levels@[li as int].wf());
        assert(ls[li as int] == self.levels@[li as int].orders@);
        if self.levels[li].orders.len() == 1 {
            let pl = self.levels.remove(li);
            let r = pl.orders[0];
            proof {
                assert(self@ =~= ls.remove(li as int));
                assert forall|i: int| 0 <= i < self.levels@.len() implies (
                #[trigger] self.levels@[i]).wf() by {
                    if i >= li {
                        assert(self.levels@[i] == old(self).levels@[i + 1]);
                    } else {
                        assert(self.levels@[i] == old(self).levels@[i]);
                    }
                }
                lemma_sorted_without(ls, self.ask, li as int, pj as int);
            }
            r
        } else {
            let r = self.levels[li].remove_at(pj);
            proof {
                assert(self@ =~= ls.update(li as int, ls[li as int].remove(pj as int)));
                assert forall|i: int| 0 <= i < self.levels@.len() implies (
                #[trigger] self.levels@[i]).wf() by {
                    if i != li {
                        assert(self.levels@[i] == old(self).levels@[i]);
                    }
                }
                lemma_sorted_without(ls, self.ask, li as int, pj as int);
            }
            r
        }
    }

    /// Sets the size of the order at `(li, pj)` to `n`, keeping its place.
    pub fn resize_at(&mut self, li: usize, pj: usize, n: u64)
        requires
            old(self).wf(),
            li < old(self)@.len(),
            pj < old(self)@[li as int].len(),
            n > 0,
            sum_sizes(old(self)@[li as int]) - old(self)@[li as int][pj as int].size + n
                <= u64::MAX,
        ensures
            final(self).wf(),
            final(self).ask == old(self).ask,
            final(self)@ == resized(old(self)@, li as int, pj as int, n),
    {
        let ghost ls = self@;
        assert(self.levels@[li as int].wf());
        self.levels[li].set_size(pj, n);
        proof {
            assert(self@ =~= resized(ls, li as int, pj as int, n));
            assert forall|i: int| 0 <= i < self.levels@.len() implies (
            #[trigger] self.levels@[i]).wf() by {
                if i != li {
                    assert(self.levels@[i] == old(self).levels@[i]);
                }
            }
            lemma_sorted_resized(ls, self.ask, li as int, pj as int, n);
        }
    }

    /// Removes the first order with identity `id`, and its level when that
    /// leaves it empty. The order must rest on this side.
    pub fn remove_order(&mut self, id: &i64)
        requires
            old(self).wf(),
            present(old(self)@, *id),
        ensures
            final(self).wf(),
            final(self).ask == old(self).ask,
            final(self)@ == cancel_spec(old(self)@, *id),
    {
        match self.find(*id) {
            Some((li, pj)) => {
                proof {
                    lemma_found_chosen(self@, *id, li as int, pj as int);
                }
                self.remove_at(li, pj);
            },
            None => {},
        }
    }

    /// Sets the size of the first order with identity `id` to `new_size`,
    /// keeping its place in its level. The order must rest on this side.
    pub fn update_order(&mut self, id: &i64, new_size: u64)
        requires
            old(self).wf(),
            present(old(self)@, *id),
            new_size > 0,
            resize_room(old(self)@, *id, new_size),
        ensures
            final(self).wf(),
            final(self).ask == old(self).ask,
            final(self)@ == update_spec(old(self)@, *id, new_size),
    {
        match self.find(*id) {
            Some((li, pj)) => {
                proof {
                    lemma_found_chosen(self@, *id, li as int, pj as int);
                }
                self.resize_at(li, pj, new_size);
            },
            None => {},
        }
    }

    /// The best price: the lowest for the ask side, the highest for the bid
    /// side; `None` when the side is empty.
    pub fn best_price(&self) -> (r: Option<u64>)
        requires
            self.wf(),
        ensures
            r == best_of(self@),
    {
        if self.levels.len() == 0 {
            None
        } else {
            Some(self.level_price(0))
        }
    }

    /// The level at the best price; `None` when the side is empty.
    pub fn best_level(&self) -> (r: Option<&PriceLevel>)
        requires
            self.wf(),
        ensures
            self.levels@.len() == 0 ==> r is None,
            self.levels@.len() > 0 ==> (r matches Some(l) && *l == self.levels@[0]),
    {
        if self.levels.len() == 0 {
            None
        } else {
            Some(&self.levels[0])
        }
    }
}

/// Whether price `a` is strictly better than price `b` on the given side.
pub fn is_better(ask: bool, a: u64, b: u64) -> (r: bool)
    ensures
        r == better(ask, a, b),
{
    if ask {
        a < b
    } else {
        a > b
    }
}

} // verus!
