//! Laws of the store: what every well-formed store satisfies, and what
//! sequences of operations give.

use vstd::prelude::*;
use super::{
    open_reserved, has_link_from, fresh_id, location_prefix, movement_prefix, supplier_prefix, has_location, has_part, has_reservation, has_row, is_row, keys_unique, part_pos,
    part_prefix, reservation_pos, reservation_prefix, row_pos, same_key, StoreView,
};
use super::analytics::{first_date, forecast_result, last_date, reorder_key, reorder_row_matches, suggested, usage_of, usage_pred, usage_total, Forecast, ReorderRow};
use super::bom::{acyclic, clamp_i64, lemma_round_div_nearest, reaches};
use super::catalog::{part_created, part_listed, part_number_key, part_with_id, resolved_part};
use super::reservations::{created_stamp, reservation_cancelled, reservation_listed, reservation_made, reserve_refusal};
use super::stock::{
    available_sum, has_quantities, on_hand_at, reorder_point_at, reorder_qty_at, reserved_at,
    row_available, row_written, stock_transferred,
};
use super::supersession::{first_link_pos, follow, supersession_added, supersession_chain, supersession_refusal};
use crate::order::{arranged, laid_out, newest_first_order, sorted_by_text, sorted_newest_first, text_order, text_sorted_as};
use crate::text::{eq_ignore_ascii_case, id_text, lemma_id_text_injective, text_le};
use crate::types::{Part, PartStatus, Reservation, ReservationStatus, StockItem, SupersessionLink, UsageRecord};

verus! {

// ─── sums over the rows of a part ────────────────────────────────────────────

/// The sum of `f` over the stock rows of a part.
pub open spec fn part_sum(stock: Seq<StockItem>, part_id: Seq<char>, f: spec_fn(StockItem) -> int) -> int
    decreases stock.len(),
{
    if stock.len() == 0 {
        0
    } else {
        part_sum(stock.drop_last(), part_id, f) + if stock.last().part_id@ == part_id {
            f(stock.last())
        } else {
            0
        }
    }
}

/// The on-hand quantity of a part summed over its locations.
pub open spec fn on_hand_total(stock: Seq<StockItem>, part_id: Seq<char>) -> int {
    part_sum(stock, part_id, |s: StockItem| s.on_hand as int)
}

proof fn lemma_part_sum_update(old: Seq<StockItem>, new: Seq<StockItem>, p: Seq<char>, f: spec_fn(StockItem) -> int, i: int)
    requires
        0 <= i < old.len(),
        new.len() == old.len(),
        forall|j: int| 0 <= j < old.len() && j != i ==> new[j] == old[j],
        new[i].part_id@ == old[i].part_id@,
        old[i].part_id@ == p,
    ensures
        part_sum(new, p, f) == part_sum(old, p, f) - f(old[i]) + f(new[i]),
    decreases old.len(),
{
    if i == old.len() - 1 {
        assert(new.drop_last() =~= old.drop_last());
    } else {
        lemma_part_sum_update(old.drop_last(), new.drop_last(), p, f, i);
        assert(new.last() == old.last());
    }
}

/// Writing the row of (`p`, `l`) changes the sum over `p`'s rows by the
/// change of that row.
proof fn lemma_part_sum_written(
    old: Seq<StockItem>,
    new: Seq<StockItem>,
    p: Seq<char>,
    l: Seq<char>,
    on_hand: int,
    reserved: int,
    reorder_point: int,
    reorder_qty: int,
    f: spec_fn(StockItem) -> int,
) -> (row: StockItem)
    requires
        row_written(old, new, p, l, on_hand, reserved, reorder_point, reorder_qty),
    ensures
        has_quantities(row, on_hand, reserved, reorder_point, reorder_qty),
        is_row(row, p, l),
        part_sum(new, p, f) == part_sum(old, p, f) - (if has_row(old, p, l) { f(old[row_pos(old, p, l)]) } else { 0 }) + f(row),
{
    if has_row(old, p, l) {
        let i = row_pos(old, p, l);
        lemma_part_sum_update(old, new, p, f, i);
        new[i]
    } else {
        assert(new.drop_last() =~= old);
        new.last()
    }
}

/// The available quantity of a part is the sum of what its rows make
/// available.
proof fn lemma_available_sum(stock: Seq<StockItem>, p: Seq<char>)
    ensures
        available_sum(stock, p) == part_sum(stock, p, |s: StockItem| row_available(s)),
    decreases stock.len(),
{
    if stock.len() > 0 {
        lemma_available_sum(stock.drop_last(), p);
    }
}

/// After a write, the row of the written key holds the written quantities.
proof fn lemma_read_written(
    old: Seq<StockItem>,
    new: Seq<StockItem>,
    p: Seq<char>,
    l: Seq<char>,
    on_hand: int,
    reserved: int,
    reorder_point: int,
    reorder_qty: int,
)
    requires
        row_written(old, new, p, l, on_hand, reserved, reorder_point, reorder_qty),
        keys_unique(new),
    ensures
        has_row(new, p, l),
        on_hand_at(new, p, l) == on_hand,
        reserved_at(new, p, l) == reserved,
        reorder_point_at(new, p, l) == reorder_point,
        reorder_qty_at(new, p, l) == reorder_qty,
{
    let i = if has_row(old, p, l) { row_pos(old, p, l) } else { old.len() as int };
    if !has_row(old, p, l) {
        assert(new[i] == new.last());
    }
    assert(is_row(new[i], p, l));
    let k = row_pos(new, p, l);
    if k != i {
        assert(same_key(new[k], new[i]));
    }
}

// ─── laws ────────────────────────────────────────────────────────────────────

/// In every well-formed store, the identifiers of parts, locations,
/// suppliers, reservations and movements are distinct within each
/// collection.
pub proof fn law_identifiers_distinct(v: StoreView)
    requires
        v.wf(),
    ensures
        forall|i: int, j: int| 0 <= i < j < v.parts.len() ==> v.parts[i].id@ != v.parts[j].id@,
        forall|i: int, j: int| 0 <= i < j < v.locations.len() ==> v.locations[i].id@ != v.locations[j].id@,
        forall|i: int, j: int| 0 <= i < j < v.suppliers.len() ==> v.suppliers[i].id@ != v.suppliers[j].id@,
        forall|i: int, j: int| 0 <= i < j < v.reservations.len() ==> v.reservations[i].id@ != v.reservations[j].id@,
        forall|i: int, j: int| 0 <= i < j < v.movements.len() ==> v.movements[i].id@ != v.movements[j].id@,
{
    reveal(StoreView::ids_ok);
}

/// In every well-formed store, no stock row holds a negative on-hand or
/// reserved quantity, a part has at most one row per location, and every row
/// names a catalogued part and a known location: movements refuse to oversell,
/// and adjustments refuse to drive stock negative.
pub proof fn law_stock_never_negative(v: StoreView)
    requires
        v.wf(),
    ensures
        forall|i: int| 0 <= i < v.stock.len() ==> #[trigger] v.stock[i].on_hand >= 0 && v.stock[i].reserved >= 0,
        keys_unique(v.stock),
        forall|i: int|
            0 <= i < v.stock.len() ==> has_part(v.parts, (#[trigger] v.stock[i]).part_id@) && has_location(
                v.locations,
                v.stock[i].location_id@,
            ),
{
}

/// In every well-formed store, no part is (transitively) a component of
/// itself, and every line joins catalogued parts.
pub proof fn law_bom_acyclic(v: StoreView)
    requires
        v.wf(),
    ensures
        acyclic(v.bom),
        forall|n: Seq<char>| !reaches(v.bom, n, n),
        forall|i: int|
            0 <= i < v.bom.len() ==> has_part(v.parts, (#[trigger] v.bom[i]).parent_id@) && has_part(
                v.parts,
                v.bom[i].child_id@,
            ),
{
    reveal(StoreView::links_ok);
}

/// A created part is found by its identifier, by `get_part` and by
/// `resolve_part`, and it is the part that creation returned.
pub proof fn law_created_part_is_found(
    v0: StoreView,
    v1: StoreView,
    p: Part,
    part_number: Seq<char>,
    name: Seq<char>,
    category: Seq<char>,
    unit: Seq<char>,
    supplier_id: Option<String>,
    lead_time_days: u32,
    unit_cost: i64,
    actor: Seq<char>,
)
    requires
        v0.wf(),
        part_created(v0, v1, p, part_number, name, category, unit, supplier_id, lead_time_days, unit_cost, actor),
    ensures
        part_with_id(v1.parts, p.id@) == Some(p),
        resolved_part(v1.parts, p.id@) == Some(p),
{
    reveal(StoreView::ids_ok);
    let n = v0.parts.len() as int;
    assert(v1.parts[n] == p);
    assert(has_part(v1.parts, p.id@));
    let k = part_pos(v1.parts, p.id@);
    if k != n {
        assert(v1.parts[k] == v0.parts[k]);
        assert(fresh_id(v0.parts[k].id@, part_prefix(), v0.seq));
        assert(v0.parts[k].id@ != id_text(part_prefix(), v0.seq + 1));
    }
}

/// A reservation lowers the available quantity of its part by exactly its
/// quantity.
pub proof fn law_reserve_lowers_available(
    v0: StoreView,
    v1: StoreView,
    p: Seq<char>,
    l: Seq<char>,
    qty: int,
    reference: Seq<char>,
    actor: Seq<char>,
    res: Reservation,
)
    requires
        v0.wf(),
        reserve_refusal(v0, p, l, qty) is None,
        reservation_made(v0, v1, p, l, qty, reference, actor, res),
    ensures
        available_sum(v1.stock, p) == available_sum(v0.stock, p) - qty,
{
    let f = |s: StockItem| row_available(s);
    let s = v0.stock;
    let row = lemma_part_sum_written(s, v1.stock, p, l, on_hand_at(s, p, l), reserved_at(s, p, l) + qty,
        reorder_point_at(s, p, l), reorder_qty_at(s, p, l), f);
    lemma_available_sum(s, p);
    lemma_available_sum(v1.stock, p);
}

/// Cancelling a reservation right after making it gives back the stock row
/// as it was (on hand, reserved and policy), and the available quantity of
/// the part.
pub proof fn law_cancel_undoes_reserve(
    v0: StoreView,
    v1: StoreView,
    v2: StoreView,
    p: Seq<char>,
    l: Seq<char>,
    qty: int,
    reference: Seq<char>,
    actor: Seq<char>,
    res: Reservation,
    canceller: Seq<char>,
    out: Reservation,
)
    requires
        v0.wf(),
        v1.wf(),
        v2.wf(),
        reserve_refusal(v0, p, l, qty) is None,
        reservation_made(v0, v1, p, l, qty, reference, actor, res),
        reservation_cancelled(v1, v2, res.id@, canceller, out),
    ensures
        has_row(v2.stock, p, l),
        on_hand_at(v2.stock, p, l) == on_hand_at(v0.stock, p, l),
        reserved_at(v2.stock, p, l) == reserved_at(v0.stock, p, l),
        reorder_point_at(v2.stock, p, l) == reorder_point_at(v0.stock, p, l),
        reorder_qty_at(v2.stock, p, l) == reorder_qty_at(v0.stock, p, l),
        available_sum(v2.stock, p) == available_sum(v0.stock, p),
        out.status == crate::types::ReservationStatus::Cancelled,
{
    reveal(StoreView::ids_ok);
    let s0 = v0.stock;
    let s1 = v1.stock;
    let oh = on_hand_at(s0, p, l);
    let rs = reserved_at(s0, p, l);
    let rop = reorder_point_at(s0, p, l);
    let rq = reorder_qty_at(s0, p, l);
    lemma_read_written(s0, s1, p, l, oh, rs + qty, rop, rq);
    // the reservation just made is the one cancelled
    let n = v0.reservations.len() as int;
    assert(v1.reservations[n] == res);
    assert(has_reservation(v1.reservations, res.id@));
    let k = reservation_pos(v1.reservations, res.id@);
    if k != n {
        assert(v1.reservations[k] == v0.reservations[k]);
        assert(fresh_id(v0.reservations[k].id@, reservation_prefix(), v0.seq));
    }
    assert(v1.reservations[k] == res);
    assert(rs >= 0) by {
        if has_row(s0, p, l) {
            let i = row_pos(s0, p, l);
            assert(s0[i].reserved >= 0);
        }
    }
    lemma_read_written(s1, v2.stock, p, l, oh, rs, rop, rq);
    // available quantity
    law_reserve_lowers_available(v0, v1, p, l, qty, reference, actor, res);
    let f = |s: StockItem| row_available(s);
    let row = lemma_part_sum_written(s1, v2.stock, p, l, oh, rs, rop, rq, f);
    lemma_available_sum(s1, p);
    lemma_available_sum(v2.stock, p);
    let i1 = row_pos(s1, p, l);
    assert(s1[i1].on_hand == oh && s1[i1].reserved == rs + qty);
    assert(oh - rs >= qty);
}

/// A transfer moves stock between locations without changing the part's
/// on-hand total.
pub proof fn law_transfer_conserves_stock(
    old: Seq<StockItem>,
    new: Seq<StockItem>,
    p: Seq<char>,
    from: Seq<char>,
    to: Seq<char>,
    qty: int,
)
    requires
        stock_transferred(old, new, p, from, to, qty),
    ensures
        on_hand_total(new, p) == on_hand_total(old, p),
{
    let f = |s: StockItem| s.on_hand as int;
    let mid = choose|mid: Seq<StockItem>|
        row_written(old, mid, p, from, on_hand_at(old, p, from) - qty, reserved_at(old, p, from),
            reorder_point_at(old, p, from), reorder_qty_at(old, p, from))
        && row_written(mid, new, p, to, on_hand_at(mid, p, to) + qty,
            reserved_at(mid, p, to), reorder_point_at(mid, p, to), reorder_qty_at(mid, p, to));
    let r1 = lemma_part_sum_written(old, mid, p, from, on_hand_at(old, p, from) - qty, reserved_at(old, p, from),
        reorder_point_at(old, p, from), reorder_qty_at(old, p, from), f);
    let r2 = lemma_part_sum_written(mid, new, p, to, on_hand_at(mid, p, to) + qty,
        reserved_at(mid, p, to), reorder_point_at(mid, p, to), reorder_qty_at(mid, p, to), f);
}

/// Issuing what was just received gives back the row's on-hand quantity, and
/// leaves its reserved quantity and reorder policy as they were.
pub proof fn law_issue_undoes_receive(
    s0: Seq<StockItem>,
    s1: Seq<StockItem>,
    s2: Seq<StockItem>,
    p: Seq<char>,
    l: Seq<char>,
    qty: int,
)
    requires
        keys_unique(s1),
        keys_unique(s2),
        row_written(s0, s1, p, l, on_hand_at(s0, p, l) + qty, reserved_at(s0, p, l),
            reorder_point_at(s0, p, l), reorder_qty_at(s0, p, l)),
        row_written(s1, s2, p, l, on_hand_at(s1, p, l) - qty, reserved_at(s1, p, l),
            reorder_point_at(s1, p, l), reorder_qty_at(s1, p, l)),
    ensures
        has_row(s2, p, l),
        on_hand_at(s2, p, l) == on_hand_at(s0, p, l),
        reserved_at(s2, p, l) == reserved_at(s0, p, l),
        reorder_point_at(s2, p, l) == reorder_point_at(s0, p, l),
        reorder_qty_at(s2, p, l) == reorder_qty_at(s0, p, l),
{
    lemma_read_written(s0, s1, p, l, on_hand_at(s0, p, l) + qty, reserved_at(s0, p, l),
        reorder_point_at(s0, p, l), reorder_qty_at(s0, p, l));
    lemma_read_written(s1, s2, p, l, on_hand_at(s1, p, l) - qty, reserved_at(s1, p, l),
        reorder_point_at(s1, p, l), reorder_qty_at(s1, p, l));
}

/// A part superseded by a part that is not superseded itself, with no
/// earlier link of its own, resolves to that replacement.
pub proof fn law_supersession_resolves(
    v0: StoreView,
    v1: StoreView,
    from: Seq<char>,
    to: Seq<char>,
    note: Seq<char>,
    actor: Seq<char>,
    link: SupersessionLink,
)
    requires
        v0.wf(),
        supersession_refusal(v0, from, to) is None,
        supersession_added(v0, v1, from, to, note, actor, link),
        forall|j: int| 0 <= j < v0.supersessions.len() ==> (#[trigger] v0.supersessions[j]).from_id@ != from,
        forall|j: int| 0 <= j < v0.supersessions.len() ==> (#[trigger] v0.supersessions[j]).from_id@ != to,
    ensures
        supersession_chain(v1.supersessions, from) == seq![from, to],
{
    let links = v1.supersessions;
    let n = v0.supersessions.len() as int;
    assert(links[n] == link);
    assert(forall|j: int| 0 <= j < n ==> links[j] == v0.supersessions[j]);
    assert(links[n].from_id@ == from && forall|m: int| 0 <= m < n ==> (#[trigger] links[m]).from_id@ != from);
    let k = first_link_pos(links, from);
    if k != n {
        if k < n {
            assert(links[k].from_id@ != from);
        } else {
            assert(links[n].from_id@ != from);
        }
    }
    assert(first_link_pos(links, to) == -1) by {
        if exists|j: int| 0 <= j < links.len() && links[j].from_id@ == to {
            let j = choose|j: int| 0 <= j < links.len() && links[j].from_id@ == to;
            if j < n {
                assert(v0.supersessions[j].from_id@ != to);
            }
        }
    }
    reveal_with_fuel(follow, 2);
    assert(follow(links, to, Set::<Seq<char>>::empty().insert(from), links.len()) =~= Seq::<Seq<char>>::empty());
    assert(supersession_chain(links, from) =~= seq![from, to]);
}


// ─── supersession chains ─────────────────────────────────────────────────────

/// The links whose old part has not been passed yet.
pub open spec fn unpassed_links(links: Seq<SupersessionLink>, seen: Set<Seq<char>>) -> nat
    decreases links.len(),
{
    if links.len() == 0 {
        0
    } else {
        unpassed_links(links.drop_last(), seen) + if seen.contains(links.last().from_id@) {
            0nat
        } else {
            1nat
        }
    }
}

/// Passing a part leaves no more links unpassed, and one fewer when a link
/// replaces it.
proof fn lemma_unpassed_shrinks(links: Seq<SupersessionLink>, seen: Set<Seq<char>>, cur: Seq<char>)
    requires
        !seen.contains(cur),
    ensures
        unpassed_links(links, seen.insert(cur)) <= unpassed_links(links, seen),
        (exists|j: int| 0 <= j < links.len() && (#[trigger] links[j]).from_id@ == cur)
            ==> unpassed_links(links, seen.insert(cur)) < unpassed_links(links, seen),
    decreases links.len(),
{
    if links.len() > 0 {
        lemma_unpassed_shrinks(links.drop_last(), seen, cur);
        if exists|j: int| 0 <= j < links.len() && (#[trigger] links[j]).from_id@ == cur {
            let j = choose|j: int| 0 <= j < links.len() && (#[trigger] links[j]).from_id@ == cur;
            if j < links.len() - 1 {
                assert(links.drop_last()[j].from_id@ == cur);
            }
        }
    }
}

/// A part followed by its replacements.
pub open spec fn walk(links: Seq<SupersessionLink>, cur: Seq<char>, seen: Set<Seq<char>>, fuel: nat) -> Seq<Seq<char>> {
    seq![cur] + follow(links, cur, seen, fuel)
}

/// Where a link replaces `x`, a first such link exists.
proof fn lemma_first_link_exists(links: Seq<SupersessionLink>, x: Seq<char>, j: int)
    requires
        0 <= j < links.len(),
        links[j].from_id@ == x,
    ensures
        exists|i: int| 0 <= i < links.len() && links[i].from_id@ == x && forall|m: int|
            0 <= m < i ==> (#[trigger] links[m]).from_id@ != x,
    decreases j,
{
    if exists|m: int| 0 <= m < j && (#[trigger] links[m]).from_id@ == x {
        let m = choose|m: int| 0 <= m < j && (#[trigger] links[m]).from_id@ == x;
        lemma_first_link_exists(links, x, m);
    } else {
        assert(forall|m: int| 0 <= m < j ==> (#[trigger] links[m]).from_id@ != x);
    }
}

/// One step of a chain: it stops, or it takes the first link of `cur`.
proof fn lemma_follow_unfold(links: Seq<SupersessionLink>, cur: Seq<char>, seen: Set<Seq<char>>, fuel: nat)
    ensures
        fuel == 0 || seen.contains(cur) || first_link_pos(links, cur) < 0 ==> follow(links, cur, seen, fuel).len() == 0,
        !(fuel == 0 || seen.contains(cur) || first_link_pos(links, cur) < 0) ==> {
            let k = first_link_pos(links, cur);
            &&& 0 <= k < links.len()
            &&& links[k].from_id@ == cur
            &&& walk(links, cur, seen, fuel) == seq![cur] + walk(links, links[k].to_id@, seen.insert(cur), (fuel - 1) as nat)
        },
{
    let k = first_link_pos(links, cur);
    if !(fuel == 0 || seen.contains(cur) || k < 0) {
        if !(exists|j: int| 0 <= j < links.len() && links[j].from_id@ == cur) {
            assert(k == -1);
        } else {
            let j = choose|j: int| 0 <= j < links.len() && links[j].from_id@ == cur;
            lemma_first_link_exists(links, cur, j);
        }
        assert(walk(links, cur, seen, fuel) =~= seq![cur] + walk(links, links[k].to_id@, seen.insert(cur), (fuel - 1) as nat));
    }
}

/// Each step of a chain takes the first link of the part it leaves.
proof fn lemma_follow_steps(links: Seq<SupersessionLink>, cur: Seq<char>, seen: Set<Seq<char>>, fuel: nat)
    ensures
        forall|i: int| 0 <= i < walk(links, cur, seen, fuel).len() - 1 ==> {
            &&& first_link_pos(links, #[trigger] walk(links, cur, seen, fuel)[i]) >= 0
            &&& links[first_link_pos(links, walk(links, cur, seen, fuel)[i])].to_id@ == walk(links, cur, seen, fuel)[i + 1]
        },
    decreases fuel,
{
    lemma_follow_unfold(links, cur, seen, fuel);
    let c = walk(links, cur, seen, fuel);
    if !(fuel == 0 || seen.contains(cur) || first_link_pos(links, cur) < 0) {
        let k = first_link_pos(links, cur);
        let to = links[k].to_id@;
        let s2 = seen.insert(cur);
        let c2 = walk(links, to, s2, (fuel - 1) as nat);
        lemma_follow_steps(links, to, s2, (fuel - 1) as nat);
        assert forall|i: int| 0 <= i < c.len() - 1 implies {
            &&& first_link_pos(links, #[trigger] c[i]) >= 0
            &&& links[first_link_pos(links, c[i])].to_id@ == c[i + 1]
        } by {
            if i > 0 {
                assert(c[i] == c2[i - 1]);
                assert(c[i + 1] == c2[i]);
            }
        }
    }
}

/// A chain with more steps allowed than links unpassed ends at a part no
/// link replaces or at a part already passed.
#[verifier::spinoff_prover]
#[verifier::rlimit(40)]
proof fn lemma_follow_ends(links: Seq<SupersessionLink>, cur: Seq<char>, seen: Set<Seq<char>>, fuel: nat)
    requires
        fuel > unpassed_links(links, seen),
    ensures
        ({
            let c = walk(links, cur, seen, fuel);
            first_link_pos(links, c.last()) < 0 || seen.contains(c.last()) || c.drop_last().contains(c.last())
        }),
    decreases fuel,
{
    lemma_follow_unfold(links, cur, seen, fuel);
    let c = walk(links, cur, seen, fuel);
    if seen.contains(cur) || first_link_pos(links, cur) < 0 {
        assert(c =~= seq![cur]);
    } else {
        let k = first_link_pos(links, cur);
        let to = links[k].to_id@;
        let s2 = seen.insert(cur);
        let c2 = walk(links, to, s2, (fuel - 1) as nat);
        lemma_unpassed_shrinks(links, seen, cur);
        lemma_follow_ends(links, to, s2, (fuel - 1) as nat);
        assert(c.last() == c2.last());
        assert(c.drop_last() =~= seq![cur] + c2.drop_last());
        if c2.drop_last().contains(c2.last()) {
            let m = choose|m: int| 0 <= m < c2.drop_last().len() && c2.drop_last()[m] == c2.last();
            assert(c.drop_last()[m + 1] == c.last());
        }
        if s2.contains(c2.last()) && !seen.contains(c2.last()) {
            assert(c.drop_last()[0] == c.last());
        }
    }
}

/// Resolving a part's supersessions follows, from each part of the chain,
/// the first link that replaces it, and stops at a part that no link
/// replaces or at a part the chain has already passed (a loop of links).
pub proof fn law_supersession_chain_follows_links(links: Seq<SupersessionLink>, start: Seq<char>)
    ensures
        supersession_chain(links, start)[0] == start,
        forall|i: int| 0 <= i < supersession_chain(links, start).len() - 1 ==> {
            &&& first_link_pos(links, #[trigger] supersession_chain(links, start)[i]) >= 0
            &&& links[first_link_pos(links, supersession_chain(links, start)[i])].to_id@
                == supersession_chain(links, start)[i + 1]
        },
        first_link_pos(links, supersession_chain(links, start).last()) < 0
            || supersession_chain(links, start).drop_last().contains(supersession_chain(links, start).last()),
{
    let seen = Set::<Seq<char>>::empty();
    let fuel = (links.len() + 1) as nat;
    lemma_unpassed_bound(links, seen);
    lemma_follow_steps(links, start, seen, fuel);
    lemma_follow_ends(links, start, seen, fuel);
    assert(supersession_chain(links, start) == walk(links, start, seen, fuel));
}

/// No more links are unpassed than there are links.
proof fn lemma_unpassed_bound(links: Seq<SupersessionLink>, seen: Set<Seq<char>>)
    ensures
        unpassed_links(links, seen) <= links.len(),
    decreases links.len(),
{
    if links.len() > 0 {
        lemma_unpassed_bound(links.drop_last(), seen);
    }
}


/// In a well-formed store a part is superseded exactly when a link replaces
/// it, and no part is obsolete, so a supersession chain that does not loop
/// ends, where it ends at a catalogued part, at an active part: the current
/// replacement.
pub proof fn law_supersession_ends_active(v: StoreView, start: Seq<char>)
    requires
        v.wf(),
    ensures
        forall|i: int| 0 <= i < v.parts.len() ==> ((#[trigger] v.parts[i]).status == PartStatus::Superseded
            <==> has_link_from(v.supersessions, v.parts[i].id@)),
        ({
            let c = supersession_chain(v.supersessions, start);
            !c.drop_last().contains(c.last()) && has_part(v.parts, c.last())
                ==> v.parts[part_pos(v.parts, c.last())].status == PartStatus::Active
        }),
        forall|i: int| 0 <= i < v.parts.len() ==> (#[trigger] v.parts[i]).status != PartStatus::Obsolete,
{
    reveal(StoreView::links_ok);
    let links = v.supersessions;
    let c = supersession_chain(links, start);
    law_supersession_chain_follows_links(links, start);
    if !c.drop_last().contains(c.last()) && has_part(v.parts, c.last()) {
        let e = c.last();
        assert(first_link_pos(links, e) < 0);
        if has_link_from(links, e) {
            let j = choose|j: int| 0 <= j < links.len() && links[j].from_id@ == e;
            lemma_first_link_exists(links, e, j);
        }
        let k = part_pos(v.parts, e);
        assert(v.parts[k].id@ == e);
    }
}


/// Identifiers issued with prefixes that start with different letters
/// differ.
proof fn lemma_prefixes_apart(x: Seq<char>, p1: Seq<char>, y: Seq<char>, p2: Seq<char>, seq: nat)
    requires
        fresh_id(x, p1, seq),
        fresh_id(y, p2, seq),
        p1.len() > 0,
        p2.len() > 0,
        p1[0] != p2[0],
    ensures
        x != y,
{
    let a = choose|k: nat| k <= seq && x == #[trigger] id_text(p1, k);
    let b = choose|k: nat| k <= seq && y == #[trigger] id_text(p2, k);
    assert(id_text(p1, a)[0] == p1[0]);
    assert(id_text(p2, b)[0] == p2[0]);
}

/// In every well-formed store each identifier is one the sequence issued
/// with its collection's prefix, so no identifier of one collection is that
/// of another: with `law_identifiers_distinct`, no two parts, locations,
/// suppliers, reservations or movements share an identifier.
pub proof fn law_issued_identifiers_distinct(v: StoreView)
    requires
        v.wf(),
    ensures
        forall|i: int, j: int| 0 <= i < v.parts.len() && 0 <= j < v.locations.len() ==> #[trigger] v.parts[i].id@ != #[trigger] v.locations[j].id@,
        forall|i: int, j: int| 0 <= i < v.parts.len() && 0 <= j < v.suppliers.len() ==> #[trigger] v.parts[i].id@ != #[trigger] v.suppliers[j].id@,
        forall|i: int, j: int| 0 <= i < v.parts.len() && 0 <= j < v.reservations.len() ==> #[trigger] v.parts[i].id@ != #[trigger] v.reservations[j].id@,
        forall|i: int, j: int| 0 <= i < v.parts.len() && 0 <= j < v.movements.len() ==> #[trigger] v.parts[i].id@ != #[trigger] v.movements[j].id@,
        forall|i: int, j: int| 0 <= i < v.locations.len() && 0 <= j < v.suppliers.len() ==> #[trigger] v.locations[i].id@ != #[trigger] v.suppliers[j].id@,
        forall|i: int, j: int| 0 <= i < v.locations.len() && 0 <= j < v.reservations.len() ==> #[trigger] v.locations[i].id@ != #[trigger] v.reservations[j].id@,
        forall|i: int, j: int| 0 <= i < v.locations.len() && 0 <= j < v.movements.len() ==> #[trigger] v.locations[i].id@ != #[trigger] v.movements[j].id@,
        forall|i: int, j: int| 0 <= i < v.suppliers.len() && 0 <= j < v.reservations.len() ==> #[trigger] v.suppliers[i].id@ != #[trigger] v.reservations[j].id@,
        forall|i: int, j: int| 0 <= i < v.suppliers.len() && 0 <= j < v.movements.len() ==> #[trigger] v.suppliers[i].id@ != #[trigger] v.movements[j].id@,
        forall|i: int, j: int| 0 <= i < v.reservations.len() && 0 <= j < v.movements.len() ==> #[trigger] v.reservations[i].id@ != #[trigger] v.movements[j].id@,
{
    reveal(StoreView::ids_ok);
    reveal_strlit("PRT");
    reveal_strlit("LOC");
    reveal_strlit("SUP");
    reveal_strlit("RSV");
    reveal_strlit("MOV");
    assert forall|i: int, j: int| 0 <= i < v.parts.len() && 0 <= j < v.locations.len() implies #[trigger] v.parts[i].id@ != #[trigger] v.locations[j].id@ by {
        lemma_prefixes_apart(v.parts[i].id@, part_prefix(), v.locations[j].id@, location_prefix(), v.seq);
    }
    assert forall|i: int, j: int| 0 <= i < v.parts.len() && 0 <= j < v.suppliers.len() implies #[trigger] v.parts[i].id@ != #[trigger] v.suppliers[j].id@ by {
        lemma_prefixes_apart(v.parts[i].id@, part_prefix(), v.suppliers[j].id@, supplier_prefix(), v.seq);
    }
    assert forall|i: int, j: int| 0 <= i < v.parts.len() && 0 <= j < v.reservations.len() implies #[trigger] v.parts[i].id@ != #[trigger] v.reservations[j].id@ by {
        lemma_prefixes_apart(v.parts[i].id@, part_prefix(), v.reservations[j].id@, reservation_prefix(), v.seq);
    }
    assert forall|i: int, j: int| 0 <= i < v.parts.len() && 0 <= j < v.movements.len() implies #[trigger] v.parts[i].id@ != #[trigger] v.movements[j].id@ by {
        lemma_prefixes_apart(v.parts[i].id@, part_prefix(), v.movements[j].id@, movement_prefix(), v.seq);
    }
    assert forall|i: int, j: int| 0 <= i < v.locations.len() && 0 <= j < v.suppliers.len() implies #[trigger] v.locations[i].id@ != #[trigger] v.suppliers[j].id@ by {
        lemma_prefixes_apart(v.locations[i].id@, location_prefix(), v.suppliers[j].id@, supplier_prefix(), v.seq);
    }
    assert forall|i: int, j: int| 0 <= i < v.locations.len() && 0 <= j < v.reservations.len() implies #[trigger] v.locations[i].id@ != #[trigger] v.reservations[j].id@ by {
        lemma_prefixes_apart(v.locations[i].id@, location_prefix(), v.reservations[j].id@, reservation_prefix(), v.seq);
    }
    assert forall|i: int, j: int| 0 <= i < v.locations.len() && 0 <= j < v.movements.len() implies #[trigger] v.locations[i].id@ != #[trigger] v.movements[j].id@ by {
        lemma_prefixes_apart(v.locations[i].id@, location_prefix(), v.movements[j].id@, movement_prefix(), v.seq);
    }
    assert forall|i: int, j: int| 0 <= i < v.suppliers.len() && 0 <= j < v.reservations.len() implies #[trigger] v.suppliers[i].id@ != #[trigger] v.reservations[j].id@ by {
        lemma_prefixes_apart(v.suppliers[i].id@, supplier_prefix(), v.reservations[j].id@, reservation_prefix(), v.seq);
    }
    assert forall|i: int, j: int| 0 <= i < v.suppliers.len() && 0 <= j < v.movements.len() implies #[trigger] v.suppliers[i].id@ != #[trigger] v.movements[j].id@ by {
        lemma_prefixes_apart(v.suppliers[i].id@, supplier_prefix(), v.movements[j].id@, movement_prefix(), v.seq);
    }
    assert forall|i: int, j: int| 0 <= i < v.reservations.len() && 0 <= j < v.movements.len() implies #[trigger] v.reservations[i].id@ != #[trigger] v.movements[j].id@ by {
        lemma_prefixes_apart(v.reservations[i].id@, reservation_prefix(), v.movements[j].id@, movement_prefix(), v.seq);
    }
}


/// In every well-formed store, each stock row's reserved quantity is what
/// the open reservations at its part and location hold, every open
/// reservation stands against a stock row: reserving and cancelling keep
/// the two in step, and no other operation changes either.
pub proof fn law_reserved_matches_open_reservations(v: StoreView)
    requires
        v.wf(),
    ensures
        forall|i: int| 0 <= i < v.stock.len() ==> (#[trigger] v.stock[i]).reserved == open_reserved(
            v.reservations,
            v.stock[i].part_id@,
            v.stock[i].location_id@,
        ),
        forall|j: int|
            0 <= j < v.reservations.len() && (#[trigger] v.reservations[j]).status == ReservationStatus::Open
                ==> has_row(v.stock, v.reservations[j].part_id@, v.reservations[j].location_id@),
{
}


// ─── what the listings hold ──────────────────────────────────────────────────

/// Reorder suggestions are exactly the rows due for reorder: every
/// suggestion is for a row with a reorder point above zero whose available
/// quantity (on hand less reserved) is at or below it, at the location asked
/// for; every such row of the store is suggested, with that available
/// quantity; and the suggestions come in order of part number.
pub proof fn law_reorder_suggests_due_rows(v: StoreView, location: Option<Seq<char>>, out: Seq<ReorderRow>)
    requires
        v.stock.len() <= usize::MAX,
        text_sorted_as(
            out,
            v.stock.filter(|s: StockItem| suggested(s, location)),
            |s: StockItem| reorder_key(v.parts, s),
            |row: ReorderRow, s: StockItem| reorder_row_matches(v.parts, row, s),
        ),
    ensures
        forall|k: int| 0 <= k < out.len() ==> {
            &&& (#[trigger] out[k]).reorder_point > 0
            &&& out[k].available <= out[k].reorder_point
            &&& match location {
                Some(l) => out[k].location_id@ == l,
                None => true,
            }
        },
        forall|i: int|
            0 <= i < v.stock.len() && (#[trigger] v.stock[i]).reorder_point > 0
                && v.stock[i].on_hand - v.stock[i].reserved <= v.stock[i].reorder_point
                && match location {
                    Some(l) => v.stock[i].location_id@ == l,
                    None => true,
                } ==> exists|k: int|
                0 <= k < out.len() && (#[trigger] out[k]).part_id@ == v.stock[i].part_id@
                    && out[k].location_id@ == v.stock[i].location_id@
                    && out[k].available == v.stock[i].on_hand - v.stock[i].reserved,
        forall|a: int, b: int| 0 <= a < b < out.len() ==> text_le((#[trigger] out[a]).part_number@, (#[trigger] out[b]).part_number@),
{
    let pred = |s: StockItem| suggested(s, location);
    let src = v.stock.filter(pred);
    let key = |s: StockItem| reorder_key(v.parts, s);
    let rel = |row: ReorderRow, s: StockItem| reorder_row_matches(v.parts, row, s);
    let idx = choose|idx: Seq<usize>| text_order(idx, src.map_values(key)) && arranged(out, src, idx, rel);
    v.stock.lemma_filter_len(pred);
    assert forall|k: int| 0 <= k < out.len() implies {
        &&& (#[trigger] out[k]).reorder_point > 0
        &&& out[k].available <= out[k].reorder_point
        &&& match location {
            Some(l) => out[k].location_id@ == l,
            None => true,
        }
    } by {
        let j = idx[k] as int;
        assert(0 <= j < src.len());
        assert(rel(out[k], src[j]));
        v.stock.lemma_filter_pred(pred, j);
    }
    assert forall|i: int|
        0 <= i < v.stock.len() && (#[trigger] v.stock[i]).reorder_point > 0
            && v.stock[i].on_hand - v.stock[i].reserved <= v.stock[i].reorder_point
            && match location {
                Some(l) => v.stock[i].location_id@ == l,
                None => true,
            } implies exists|k: int|
            0 <= k < out.len() && (#[trigger] out[k]).part_id@ == v.stock[i].part_id@
                && out[k].location_id@ == v.stock[i].location_id@
                && out[k].available == v.stock[i].on_hand - v.stock[i].reserved by {
        assert(pred(v.stock[i]));
        v.stock.lemma_filter_contains(pred, i);
        let j = choose|j: int| 0 <= j < src.len() && src[j] == v.stock[i];
        assert(idx.contains(j as usize));
        let k = choose|k: int| 0 <= k < idx.len() && idx[k] == j as usize;
        assert(rel(out[k], src[idx[k] as int]));
        assert(out[k].part_id@ == v.stock[i].part_id@);
    }
    assert forall|a: int, b: int| 0 <= a < b < out.len() implies text_le((#[trigger] out[a]).part_number@, (#[trigger] out[b]).part_number@) by {
        assert(rel(out[a], src[idx[a] as int]));
        assert(rel(out[b], src[idx[b] as int]));
        assert(text_le(src.map_values(key)[idx[a] as int], src.map_values(key)[idx[b] as int]));
    }
}

/// A listing holds exactly the parts that pass both filters, each on its
/// own: every part listed has the category asked for (ignoring ASCII case)
/// and the status asked for, whichever of them is given; every part of the
/// catalogue that has both is listed; and the parts come in order of part
/// number.
pub proof fn law_listing_applies_both_filters(
    parts: Seq<Part>,
    category: Option<Seq<char>>,
    status: Option<PartStatus>,
    out: Seq<Part>,
)
    requires
        parts.len() <= usize::MAX,
        sorted_by_text(out, parts.filter(|p: Part| part_listed(p, category, status)), |p: Part| part_number_key(p)),
    ensures
        forall|k: int| 0 <= k < out.len() ==> {
            &&& match category {
                Some(c) => eq_ignore_ascii_case((#[trigger] out[k]).category@, c),
                None => true,
            }
            &&& match status {
                Some(s) => out[k].status == s,
                None => true,
            }
        },
        forall|i: int|
            0 <= i < parts.len() && match category {
                Some(c) => eq_ignore_ascii_case((#[trigger] parts[i]).category@, c),
                None => true,
            } && match status {
                Some(s) => parts[i].status == s,
                None => true,
            } ==> exists|k: int| 0 <= k < out.len() && #[trigger] out[k] == parts[i],
        forall|a: int, b: int| 0 <= a < b < out.len() ==> text_le((#[trigger] out[a]).part_number@, (#[trigger] out[b]).part_number@),
{
    let pred = |p: Part| part_listed(p, category, status);
    let src = parts.filter(pred);
    let key = |p: Part| part_number_key(p);
    let idx = choose|idx: Seq<usize>| text_order(idx, src.map_values(key)) && laid_out(out, src, idx);
    parts.lemma_filter_len(pred);
    assert forall|k: int| 0 <= k < out.len() implies {
        &&& match category {
            Some(c) => eq_ignore_ascii_case((#[trigger] out[k]).category@, c),
            None => true,
        }
        &&& match status {
            Some(s) => out[k].status == s,
            None => true,
        }
    } by {
        let j = idx[k] as int;
        assert(0 <= j < src.len());
        assert(out[k] == src[j]);
        parts.lemma_filter_pred(pred, j);
    }
    assert forall|i: int|
        0 <= i < parts.len() && match category {
            Some(c) => eq_ignore_ascii_case((#[trigger] parts[i]).category@, c),
            None => true,
        } && match status {
            Some(s) => parts[i].status == s,
            None => true,
        } implies exists|k: int| 0 <= k < out.len() && #[trigger] out[k] == parts[i] by {
        assert(pred(parts[i]));
        parts.lemma_filter_contains(pred, i);
        let j = choose|j: int| 0 <= j < src.len() && src[j] == parts[i];
        assert(idx.contains(j as usize));
        let k = choose|k: int| 0 <= k < idx.len() && idx[k] == j as usize;
        assert(out[k] == src[idx[k] as int]);
    }
    assert forall|a: int, b: int| 0 <= a < b < out.len() implies text_le((#[trigger] out[a]).part_number@, (#[trigger] out[b]).part_number@) by {
        assert(out[a] == src[idx[a] as int]);
        assert(out[b] == src[idx[b] as int]);
        assert(text_le(src.map_values(key)[idx[a] as int], src.map_values(key)[idx[b] as int]));
    }
}

/// A reservation listing holds exactly the reservations that pass both
/// filters, each on its own: every one listed is of the part asked for, when
/// given, and open, when only open ones are asked for; every reservation
/// that passes both is listed; and the newest come first.
pub proof fn law_reservation_listing_applies_both_filters(
    reservations: Seq<Reservation>,
    part_id: Option<Seq<char>>,
    open_only: bool,
    out: Seq<Reservation>,
)
    requires
        reservations.len() <= usize::MAX,
        sorted_newest_first(
            out,
            reservations.filter(|x: Reservation| reservation_listed(x, part_id, open_only)),
            |x: Reservation| created_stamp(x),
        ),
    ensures
        forall|k: int| 0 <= k < out.len() ==> {
            &&& match part_id {
                Some(p) => (#[trigger] out[k]).part_id@ == p,
                None => true,
            }
            &&& (open_only ==> out[k].status == ReservationStatus::Open)
        },
        forall|i: int|
            0 <= i < reservations.len() && match part_id {
                Some(p) => (#[trigger] reservations[i]).part_id@ == p,
                None => true,
            } && (open_only ==> reservations[i].status == ReservationStatus::Open) ==> exists|k: int|
                0 <= k < out.len() && #[trigger] out[k] == reservations[i],
        forall|a: int, b: int| 0 <= a < b < out.len() ==> (#[trigger] out[a]).created_at >= (#[trigger] out[b]).created_at,
{
    let pred = |x: Reservation| reservation_listed(x, part_id, open_only);
    let src = reservations.filter(pred);
    let stamp = |x: Reservation| created_stamp(x);
    let idx = choose|idx: Seq<usize>| newest_first_order(idx, src.map_values(stamp)) && laid_out(out, src, idx);
    reservations.lemma_filter_len(pred);
    assert forall|k: int| 0 <= k < out.len() implies {
        &&& match part_id {
            Some(p) => (#[trigger] out[k]).part_id@ == p,
            None => true,
        }
        &&& (open_only ==> out[k].status == ReservationStatus::Open)
    } by {
        let j = idx[k] as int;
        assert(0 <= j < src.len());
        assert(out[k] == src[j]);
        reservations.lemma_filter_pred(pred, j);
    }
    assert forall|i: int|
        0 <= i < reservations.len() && match part_id {
            Some(p) => (#[trigger] reservations[i]).part_id@ == p,
            None => true,
        } && (open_only ==> reservations[i].status == ReservationStatus::Open) implies exists|k: int|
            0 <= k < out.len() && #[trigger] out[k] == reservations[i] by {
        assert(pred(reservations[i]));
        reservations.lemma_filter_contains(pred, i);
        let j = choose|j: int| 0 <= j < src.len() && src[j] == reservations[i];
        assert(idx.contains(j as usize));
        let k = choose|k: int| 0 <= k < idx.len() && idx[k] == j as usize;
        assert(out[k] == src[idx[k] as int]);
    }
    assert forall|a: int, b: int| 0 <= a < b < out.len() implies (#[trigger] out[a]).created_at >= (#[trigger] out[b]).created_at by {
        assert(out[a] == src[idx[a] as int]);
        assert(out[b] == src[idx[b] as int]);
        assert(src.map_values(stamp)[idx[a] as int] >= src.map_values(stamp)[idx[b] as int]);
    }
}

// ─── usage and forecasts ─────────────────────────────────────────────────────

/// The total usage a forecast reports: none without history.
pub open spec fn forecast_total(r: Option<Forecast>) -> int {
    match r {
        Some(Forecast::Estimate(f)) => f.total_usage as int,
        _ => 0,
    }
}

/// The quantities of usage records, summed.
pub open spec fn usage_sum(us: Seq<UsageRecord>) -> int
    decreases us.len(),
{
    if us.len() == 0 {
        0
    } else {
        usage_sum(us.drop_last()) + us.last().qty
    }
}

/// Every usage record counts: after one more record of a part, whatever its
/// date, the forecast for that part is an estimate whose total usage is the
/// earlier total plus the record's quantity (held within `i64`), over one
/// more record; a record of another part leaves the total as it was.
pub proof fn law_forecast_counts_every_usage(
    v: StoreView,
    part_id: Seq<char>,
    rec: UsageRecord,
    horizon: u32,
    before: Option<Forecast>,
    after: Option<Forecast>,
)
    requires
        forecast_result(v, part_id, horizon, before),
        forecast_result(StoreView { usage: v.usage.push(rec), ..v }, part_id, horizon, after),
    ensures
        before is Some <==> has_part(v.parts, part_id),
        after is Some <==> has_part(v.parts, part_id),
        has_part(v.parts, part_id) && rec.part_id@ == part_id ==> {
            &&& after matches Some(Forecast::Estimate(f))
            &&& f.total_usage == clamp_i64(forecast_total(before) + rec.qty)
            &&& f.usage_records == usage_of(v.usage, part_id).len() + 1
        },
        rec.part_id@ != part_id ==> forecast_total(after) == forecast_total(before),
{
    v.usage.lemma_filter_push(rec, usage_pred(part_id));
    let us = usage_of(v.usage, part_id);
    if rec.part_id@ == part_id {
        assert(usage_of(v.usage.push(rec), part_id) == us.push(rec));
        assert(us.push(rec).drop_last() =~= us);
        assert(usage_total(us.push(rec)) == clamp_i64(usage_total(us) + rec.qty));
    } else {
        assert(usage_of(v.usage.push(rec), part_id) == us);
    }
}

/// While no sum overflows, the total usage a forecast for a catalogued part
/// reports is the plain sum of the quantities of all of its usage records.
pub proof fn law_forecast_total_is_usage_sum(v: StoreView, part_id: Seq<char>, horizon: u32, r: Option<Forecast>)
    requires
        has_part(v.parts, part_id),
        forecast_result(v, part_id, horizon, r),
        forall|i: int| 0 <= i < v.usage.len() ==> (#[trigger] v.usage[i]).qty >= 0,
        usage_sum(usage_of(v.usage, part_id)) <= i64::MAX,
    ensures
        forecast_total(r) == usage_sum(usage_of(v.usage, part_id)),
{
    let us = usage_of(v.usage, part_id);
    assert forall|i: int| 0 <= i < us.len() implies (#[trigger] us[i]).qty >= 0 by {
        assert(us.contains(us[i]));
        v.usage.lemma_filter_contains_rev(usage_pred(part_id), us[i]);
        let j = choose|j: int| 0 <= j < v.usage.len() && v.usage[j] == us[i];
        assert(v.usage[j].qty >= 0);
    }
    lemma_usage_total_unclamped(us);
}

/// Sums of quantities that are not negative and stay within `i64` are not
/// clamped.
proof fn lemma_usage_total_unclamped(us: Seq<UsageRecord>)
    requires
        forall|i: int| 0 <= i < us.len() ==> (#[trigger] us[i]).qty >= 0,
        usage_sum(us) <= i64::MAX,
    ensures
        usage_total(us) == usage_sum(us),
        usage_sum(us) >= 0,
    decreases us.len(),
{
    if us.len() > 0 {
        let rest = us.drop_last();
        assert forall|i: int| 0 <= i < rest.len() implies (#[trigger] rest[i]).qty >= 0 by {
            assert(rest[i] == us[i]);
        }
        assert(us.last() == us[us.len() - 1]);
        lemma_usage_total_unclamped(rest);
    }
}

/// The earliest and the latest date are among the records' dates, and
/// bound them all.
proof fn lemma_date_bounds(us: Seq<UsageRecord>)
    requires
        us.len() > 0,
    ensures
        forall|i: int| 0 <= i < us.len() ==> first_date(us) <= (#[trigger] us[i]).date <= last_date(us),
        exists|i: int| 0 <= i < us.len() && (#[trigger] us[i]).date == first_date(us),
        exists|j: int| 0 <= j < us.len() && (#[trigger] us[j]).date == last_date(us),
    decreases us.len(),
{
    if us.len() == 1 {
        assert(us[0].date == first_date(us));
    } else {
        let rest = us.drop_last();
        lemma_date_bounds(rest);
        assert forall|i: int| 0 <= i < us.len() implies first_date(us) <= (#[trigger] us[i]).date <= last_date(us) by {
            if i < rest.len() {
                assert(us[i] == rest[i]);
            }
        }
        let a = choose|i: int| 0 <= i < rest.len() && (#[trigger] rest[i]).date == first_date(rest);
        let b = choose|j: int| 0 <= j < rest.len() && (#[trigger] rest[j]).date == last_date(rest);
        assert(us[a] == rest[a]);
        assert(us[b] == rest[b]);
        assert(us[us.len() - 1] == us.last());
    }
}

/// The span of a forecast is the largest number of days between two of the
/// part's usage records, and at least one day.
pub proof fn law_forecast_span_is_widest_gap(v: StoreView, part_id: Seq<char>, horizon: u32, r: Option<Forecast>)
    requires
        forecast_result(v, part_id, horizon, r),
    ensures
        r matches Some(Forecast::Estimate(f)) ==> {
            let us = usage_of(v.usage, part_id);
            &&& f.span_days >= 1
            &&& forall|i: int, j: int|
                0 <= i < us.len() && 0 <= j < us.len() ==> (#[trigger] us[j]).date - (#[trigger] us[i]).date <= f.span_days
            &&& f.span_days == 1 || exists|i: int, j: int|
                0 <= i < us.len() && 0 <= j < us.len() && (#[trigger] us[j]).date - (#[trigger] us[i]).date == f.span_days
        },
{
    if r matches Some(Forecast::Estimate(f)) {
        let us = usage_of(v.usage, part_id);
        lemma_date_bounds(us);
        let a = choose|i: int| 0 <= i < us.len() && (#[trigger] us[i]).date == first_date(us);
        let b = choose|j: int| 0 <= j < us.len() && (#[trigger] us[j]).date == last_date(us);
        assert(us[b].date - us[a].date == last_date(us) - first_date(us));
    }
}

/// The average daily usage of a forecast is the total usage over the span,
/// to the nearest thousandth; the demand projected over the horizon is the
/// total usage times the horizon over the span, to the nearest thousandth,
/// where it is not held at the bounds of `i64`.
pub proof fn law_forecast_average_is_rate(v: StoreView, part_id: Seq<char>, horizon: u32, r: Option<Forecast>)
    requires
        forecast_result(v, part_id, horizon, r),
    ensures
        r matches Some(Forecast::Estimate(f)) ==> {
            &&& -f.span_days <= 2 * (f.avg_daily_usage * f.span_days - f.total_usage) <= f.span_days
            &&& i64::MIN < f.projected_demand_over_horizon < i64::MAX ==> -f.span_days <= 2 * (
            f.projected_demand_over_horizon * f.span_days - f.total_usage * horizon) <= f.span_days
        },
{
    match r {
        Some(Forecast::Estimate(f)) => {
            lemma_round_div_nearest(f.total_usage as int, f.span_days as int);
            lemma_round_div_nearest(f.total_usage * horizon, f.span_days as int);
        },
        _ => {},
    }
}

} // verus!


