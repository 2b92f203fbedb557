//! Stock rows, reorder policy and stock movements.

use vstd::prelude::*;
use super::{
    held_by, lemma_open_reserved_none, open_reserved, audited, has_location, has_part, has_row, is_row, keys_unique, movement_prefix, row_pos, same_key, PartsStore,
    StoreView,
};
use super::messages::{
    insufficient_issue, insufficient_issue_msg, insufficient_transfer, insufficient_transfer_msg,
    location_not_found, location_not_found_msg, movement_detail, movement_detail_msg,
    negative_adjustment, negative_adjustment_msg, no_stock, no_stock_msg, out_of_range,
    out_of_range_msg, part_not_found, part_not_found_msg, policy_detail, policy_detail_msg,
};
use crate::clock::{now_micros, today_day, valid_day};
use crate::order::{lay_out, order_by_text, order_newest_first, sorted_by_text, sorted_newest_first};
use crate::text::{chars_of, id_text};
use crate::types::{copy_opt_text, Movement, MovementKind, ReservationStatus, StockItem, UsageRecord};

verus! {

// ─── the model of stock rows ─────────────────────────────────────────────────

/// The stock row of a part at a location, if there is one.
pub open spec fn row_of(stock: Seq<StockItem>, part_id: Seq<char>, location_id: Seq<char>) -> Option<StockItem> {
    if has_row(stock, part_id, location_id) {
        Some(stock[row_pos(stock, part_id, location_id)])
    } else {
        None
    }
}

/// On-hand quantity of a part at a location (0 without a row).
pub open spec fn on_hand_at(stock: Seq<StockItem>, part_id: Seq<char>, location_id: Seq<char>) -> int {
    if has_row(stock, part_id, location_id) {
        stock[row_pos(stock, part_id, location_id)].on_hand as int
    } else {
        0
    }
}

/// Reserved quantity of a part at a location (0 without a row).
pub open spec fn reserved_at(stock: Seq<StockItem>, part_id: Seq<char>, location_id: Seq<char>) -> int {
    if has_row(stock, part_id, location_id) {
        stock[row_pos(stock, part_id, location_id)].reserved as int
    } else {
        0
    }
}

/// Reorder point of a part at a location (0 without a row).
pub open spec fn reorder_point_at(stock: Seq<StockItem>, part_id: Seq<char>, location_id: Seq<char>) -> int {
    if has_row(stock, part_id, location_id) {
        stock[row_pos(stock, part_id, location_id)].reorder_point as int
    } else {
        0
    }
}

/// Reorder quantity of a part at a location (0 without a row).
pub open spec fn reorder_qty_at(stock: Seq<StockItem>, part_id: Seq<char>, location_id: Seq<char>) -> int {
    if has_row(stock, part_id, location_id) {
        stock[row_pos(stock, part_id, location_id)].reorder_qty as int
    } else {
        0
    }
}

pub open spec fn has_quantities(r: StockItem, on_hand: int, reserved: int, reorder_point: int, reorder_qty: int) -> bool {
    &&& r.on_hand == on_hand
    &&& r.reserved == reserved
    &&& r.reorder_point == reorder_point
    &&& r.reorder_qty == reorder_qty
}

/// `new` is `old` where the row of (`part_id`, `location_id`), appended when
/// `old` has none, holds the given quantities; no other row changes. (The
/// row's `updated_at` is the time of the write.)
pub open spec fn row_written(
    old: Seq<StockItem>,
    new: Seq<StockItem>,
    part_id: Seq<char>,
    location_id: Seq<char>,
    on_hand: int,
    reserved: int,
    reorder_point: int,
    reorder_qty: int,
) -> bool {
    let i = row_pos(old, part_id, location_id);
    if has_row(old, part_id, location_id) {
        &&& new.len() == old.len()
        &&& forall|j: int| 0 <= j < old.len() && j != i ==> new[j] == old[j]
        &&& new[i].part_id == old[i].part_id
        &&& new[i].location_id == old[i].location_id
        &&& has_quantities(new[i], on_hand, reserved, reorder_point, reorder_qty)
    } else {
        &&& new.len() == old.len() + 1
        &&& new.drop_last() == old
        &&& is_row(new.last(), part_id, location_id)
        &&& has_quantities(new.last(), on_hand, reserved, reorder_point, reorder_qty)
    }
}

/// `new` is `old` with an all-zero row for (`part_id`, `location_id`)
/// appended when `old` has none.
pub open spec fn row_ensured(old: Seq<StockItem>, new: Seq<StockItem>, part_id: Seq<char>, location_id: Seq<char>) -> bool {
    if has_row(old, part_id, location_id) {
        new == old
    } else {
        &&& new.len() == old.len() + 1
        &&& new.drop_last() == old
        &&& is_row(new.last(), part_id, location_id)
        &&& has_quantities(new.last(), 0, 0, 0, 0)
    }
}

pub open spec fn opt_text(o: Option<String>) -> Option<Seq<char>> {
    match o {
        Some(s) => Some(s@),
        None => None,
    }
}

/// `new` records the movement `m` after `old`: `m` carries a new identifier
/// and the given particulars, and the audit trail records it.
pub open spec fn movement_made(
    old: StoreView,
    new: StoreView,
    m: Movement,
    kind: MovementKind,
    part_id: Seq<char>,
    from: Option<Seq<char>>,
    to: Option<Seq<char>>,
    qty: int,
    reason: Seq<char>,
    actor: Seq<char>,
) -> bool {
    &&& m.id@ == id_text(movement_prefix(), old.seq + 1)
    &&& m.part_id@ == part_id
    &&& m.kind == kind
    &&& opt_text(m.from_location_id) == from
    &&& opt_text(m.to_location_id) == to
    &&& m.qty == qty
    &&& m.reason@ == reason
    &&& m.actor@ == actor
    &&& new.movements == old.movements.push(m)
    &&& new.seq == old.seq + 1
    &&& audited(old.audit, new.audit, actor, "stock_movement"@, movement_detail(kind, part_id, qty))
}

/// `new` is `old` after `qty` of a part moved from location `from` to
/// location `to`: the `from` row is written first, then the `to` row (added
/// when missing).
pub open spec fn stock_transferred(
    old: Seq<StockItem>,
    new: Seq<StockItem>,
    part_id: Seq<char>,
    from: Seq<char>,
    to: Seq<char>,
    qty: int,
) -> bool {
    exists|mid: Seq<StockItem>|
        row_written(old, mid, part_id, from, on_hand_at(old, part_id, from) - qty, reserved_at(old, part_id, from),
            reorder_point_at(old, part_id, from), reorder_qty_at(old, part_id, from))
        && row_written(mid, new, part_id, to, on_hand_at(mid, part_id, to) + qty,
            reserved_at(mid, part_id, to), reorder_point_at(mid, part_id, to), reorder_qty_at(mid, part_id, to))
}

/// Why a policy change is refused, if it is.
pub open spec fn policy_refusal(v: StoreView, part_id: Seq<char>, location_id: Seq<char>) -> Option<Seq<char>> {
    if !has_part(v.parts, part_id) {
        Some(part_not_found(part_id))
    } else if !has_location(v.locations, location_id) {
        Some(location_not_found(location_id))
    } else {
        None
    }
}

/// Why a receipt is refused, if it is.
pub open spec fn receive_refusal(v: StoreView, part_id: Seq<char>, location_id: Seq<char>, qty: int) -> Option<Seq<char>> {
    if !has_part(v.parts, part_id) {
        Some(part_not_found(part_id))
    } else if !has_location(v.locations, location_id) {
        Some(location_not_found(location_id))
    } else if qty <= 0 {
        Some("receipt qty must be positive"@)
    } else if on_hand_at(v.stock, part_id, location_id) + qty > i64::MAX {
        Some(out_of_range())
    } else {
        None
    }
}

/// Why an issue is refused, if it is.
pub open spec fn issue_refusal(v: StoreView, part_id: Seq<char>, location_id: Seq<char>, qty: int) -> Option<Seq<char>> {
    let s = v.stock;
    if qty <= 0 {
        Some("issue qty must be positive"@)
    } else if !has_row(s, part_id, location_id) {
        Some(no_stock(part_id, location_id))
    } else if qty > on_hand_at(s, part_id, location_id) - reserved_at(s, part_id, location_id) {
        Some(insufficient_issue(
            on_hand_at(s, part_id, location_id) - reserved_at(s, part_id, location_id),
            qty,
            on_hand_at(s, part_id, location_id),
            reserved_at(s, part_id, location_id),
        ))
    } else {
        None
    }
}

/// Why a transfer is refused, if it is.
pub open spec fn transfer_refusal(v: StoreView, part_id: Seq<char>, from_id: Seq<char>, to_id: Seq<char>, qty: int) -> Option<Seq<char>> {
    let s = v.stock;
    if qty <= 0 {
        Some("transfer qty must be positive"@)
    } else if !has_location(v.locations, to_id) {
        Some(location_not_found(to_id))
    } else if !has_row(s, part_id, from_id) {
        Some(no_stock(part_id, from_id))
    } else if qty > on_hand_at(s, part_id, from_id) - reserved_at(s, part_id, from_id) {
        Some(insufficient_transfer(on_hand_at(s, part_id, from_id) - reserved_at(s, part_id, from_id), qty))
    } else if from_id != to_id && on_hand_at(s, part_id, to_id) + qty > i64::MAX {
        Some(out_of_range())
    } else {
        None
    }
}

/// Why an adjustment is refused, if it is.
pub open spec fn adjust_refusal(v: StoreView, part_id: Seq<char>, location_id: Seq<char>, delta: int) -> Option<Seq<char>> {
    let on_hand = on_hand_at(v.stock, part_id, location_id);
    if !has_part(v.parts, part_id) {
        Some(part_not_found(part_id))
    } else if !has_location(v.locations, location_id) {
        Some(location_not_found(location_id))
    } else if on_hand + delta < 0 {
        Some(negative_adjustment(on_hand, delta))
    } else if on_hand + delta > i64::MAX {
        Some(out_of_range())
    } else {
        None
    }
}

impl StoreView {
    /// `new` differs from `self` in its stock rows at most.
    pub open spec fn only_stock_changed(self, new: StoreView) -> bool {
        new == (StoreView { stock: new.stock, ..self })
    }

    /// `new` differs from `self` in its stock rows, movements, usage history,
    /// audit trail and sequence at most.
    pub open spec fn only_movement_changed(self, new: StoreView) -> bool {
        new == (StoreView {
            stock: new.stock,
            movements: new.movements,
            usage: new.usage,
            audit: new.audit,
            seq: new.seq,
            ..self
        })
    }
}

impl PartsStore {
    /// Position of the stock row of a part at a location.
    pub(crate) fn find_row(&self, part_id: &str, location_id: &str) -> (r: Option<usize>)
        requires
            self@.stock_ok(),
        ensures
            match r {
                Some(i) => i < self@.stock.len() && i == row_pos(self@.stock, part_id@, location_id@)
                    && has_row(self@.stock, part_id@, location_id@),
                None => !has_row(self@.stock, part_id@, location_id@),
            },
    {
        let p = part_id.to_owned();
        let l = location_id.to_owned();
        let mut i: usize = 0;
        while i < self.stock.len()
            invariant
                self@.stock_ok(),
                p@ == part_id@,
                l@ == location_id@,
                i <= self.stock.len(),
                forall|j: int| 0 <= j < i ==> !is_row(#[trigger] self@.stock[j], part_id@, location_id@),
            decreases self.stock.len() - i,
        {
            if self.stock[i].part_id == p && self.stock[i].location_id == l {
                proof {
                    let s = self@.stock;
                    assert(is_row(s[i as int], part_id@, location_id@));
                    let k = row_pos(s, part_id@, location_id@);
                    if k != i {
                        assert(same_key(s[k], s[i as int]));
                        if k < i {
                        } else {
                        }
                    }
                }
                return Some(i);
            }
            i = i + 1;
        }
        None
    }

    /// The position of the row of a part at a location, adding an all-zero
    /// row first when there is none.
    pub(crate) fn ensure_row(&mut self, part_id: &str, location_id: &str) -> (i: usize)
        requires
            old(self).inv(),
            has_part(old(self)@.parts, part_id@),
            has_location(old(self)@.locations, location_id@),
        ensures
            final(self).inv(),
            old(self)@.only_stock_changed(final(self)@),
            row_ensured(old(self)@.stock, final(self)@.stock, part_id@, location_id@),
            i < final(self)@.stock.len(),
            i == row_pos(final(self)@.stock, part_id@, location_id@),
            has_row(final(self)@.stock, part_id@, location_id@),
    {
        match self.find_row(part_id, location_id) {
            Some(i) => i,
            None => {
                let row = StockItem {
                    part_id: part_id.to_owned(),
                    location_id: location_id.to_owned(),
                    on_hand: 0,
                    reserved: 0,
                    reorder_point: 0,
                    reorder_qty: 0,
                    updated_at: now_micros(),
                };
                self.stock.push(row);
                let i = self.stock.len() - 1;
                proof {
                    old(self)@.lemma_ids_ok_frame(self@);
                    old(self)@.lemma_links_frame(self@);
                    let s = self@.stock;
                    assert(s.drop_last() =~= old(self)@.stock);
                    assert(is_row(s[i as int], part_id@, location_id@));
                    let rs = self@.reservations;
                    assert forall|j: int| 0 <= j < rs.len() implies held_by(#[trigger] rs[j], part_id@, location_id@) == 0 by {
                        if held_by(rs[j], part_id@, location_id@) != 0 {
                            assert(has_row(old(self)@.stock, rs[j].part_id@, rs[j].location_id@));
                        }
                    }
                    lemma_open_reserved_none(rs, part_id@, location_id@);
                    assert forall|j: int| 0 <= j < rs.len() && (#[trigger] rs[j]).status == ReservationStatus::Open
                        implies has_row(s, rs[j].part_id@, rs[j].location_id@) by {
                        let k = row_pos(old(self)@.stock, rs[j].part_id@, rs[j].location_id@);
                        assert(s[k] == old(self)@.stock[k]);
                    }
                    assert forall|a: int, b: int| 0 <= a < b < s.len() implies !same_key(s[a], s[b]) by {
                        if b == i {
                            assert(!is_row(old(self)@.stock[a], part_id@, location_id@));
                        }
                    }
                    let k = row_pos(s, part_id@, location_id@);
                    if k != i {
                        assert(same_key(s[k], s[i as int]));
                    }
                }
                i
            },
        }
    }

    /// Sets the quantities of the row at position `i`.
    pub(crate) fn set_row(&mut self, i: usize, on_hand: i64, reserved: i64, reorder_point: i64, reorder_qty: i64)
        requires
            old(self)@.base_ok(),
            i < old(self)@.stock.len(),
            on_hand >= 0,
            reserved >= 0,
        ensures
            final(self)@.base_ok(),
            old(self)@.reserved_ok() && reserved == old(self)@.stock[i as int].reserved ==> final(self).inv(),
            forall|j: int| 0 <= j < old(self)@.reservations.len() && (#[trigger] old(self)@.reservations[j]).status == ReservationStatus::Open
                && has_row(old(self)@.stock, old(self)@.reservations[j].part_id@, old(self)@.reservations[j].location_id@)
                ==> has_row(final(self)@.stock, old(self)@.reservations[j].part_id@, old(self)@.reservations[j].location_id@),
            old(self)@.only_stock_changed(final(self)@),
            final(self)@.stock.len() == old(self)@.stock.len(),
            forall|j: int| 0 <= j < old(self)@.stock.len() && j != i ==> final(self)@.stock[j] == old(self)@.stock[j],
            final(self)@.stock[i as int].part_id == old(self)@.stock[i as int].part_id,
            final(self)@.stock[i as int].location_id == old(self)@.stock[i as int].location_id,
            has_quantities(final(self)@.stock[i as int], on_hand as int, reserved as int, reorder_point as int, reorder_qty as int),
    {
        let row = StockItem {
            part_id: self.stock[i].part_id.clone(),
            location_id: self.stock[i].location_id.clone(),
            on_hand,
            reserved,
            reorder_point,
            reorder_qty,
            updated_at: now_micros(),
        };
        self.stock.set(i, row);
        proof {
            old(self)@.lemma_ids_ok_frame(self@);
            old(self)@.lemma_links_frame(self@);
            let s = self@.stock;
            let o = old(self)@.stock;
            assert forall|a: int, b: int| 0 <= a < b < s.len() implies !same_key(s[a], s[b]) by {
                assert(same_key(s[a], o[a]));
                assert(same_key(s[b], o[b]));
                assert(!same_key(o[a], o[b]));
            }
            assert forall|j: int| 0 <= j < s.len() implies has_part(self@.parts, (#[trigger] s[j]).part_id@)
                && has_location(self@.locations, s[j].location_id@) by {
                assert(same_key(s[j], o[j]));
            }
            let rs = self@.reservations;
            assert forall|j: int| 0 <= j < rs.len() && (#[trigger] rs[j]).status == ReservationStatus::Open
                && has_row(o, rs[j].part_id@, rs[j].location_id@) implies has_row(s, rs[j].part_id@, rs[j].location_id@) by {
                let k = row_pos(o, rs[j].part_id@, rs[j].location_id@);
                assert(same_key(s[k], o[k]));
                assert(is_row(s[k], rs[j].part_id@, rs[j].location_id@));
            }
            if old(self)@.reserved_ok() && reserved == o[i as int].reserved {
                assert forall|j: int| 0 <= j < s.len() implies (#[trigger] s[j]).reserved == open_reserved(rs, s[j].part_id@, s[j].location_id@) by {
                    assert(same_key(s[j], o[j]));
                }
            }
        }
    }

    /// The row at `i`, found for (`part_id`, `location_id`), rewritten with
    /// the given quantities gives `row_written`.
    pub(crate) proof fn lemma_row_written(
        old: Seq<StockItem>,
        mid: Seq<StockItem>,
        new: Seq<StockItem>,
        part_id: Seq<char>,
        location_id: Seq<char>,
        i: int,
        on_hand: int,
        reserved: int,
        reorder_point: int,
        reorder_qty: int,
    )
        requires
            row_ensured(old, mid, part_id, location_id),
            0 <= i < mid.len(),
            is_row(mid[i], part_id, location_id),
            has_row(old, part_id, location_id) ==> i == row_pos(old, part_id, location_id),
            new.len() == mid.len(),
            forall|j: int| 0 <= j < mid.len() && j != i ==> new[j] == mid[j],
            new[i].part_id == mid[i].part_id,
            new[i].location_id == mid[i].location_id,
            has_quantities(new[i], on_hand, reserved, reorder_point, reorder_qty),
        ensures
            row_written(old, new, part_id, location_id, on_hand, reserved, reorder_point, reorder_qty),
    {
        if !has_row(old, part_id, location_id) {
            if i < old.len() {
                assert(mid[i] == old[i]);
                assert(is_row(old[i], part_id, location_id));
            }
            assert(i == old.len());
            assert(new.drop_last() =~= old);
        }
    }

    // ─── stock & policy ──────────────────────────────────────────────────

    /// Sets the reorder policy of a part at a location, adding the stock row
    /// when there is none.
    pub fn set_stock_policy(
        &mut self,
        part_id: &str,
        location_id: &str,
        reorder_point: i64,
        reorder_qty: i64,
        actor: &str,
    ) -> (r: Result<StockItem, String>)
        requires
            old(self).inv(),
        ensures
            final(self).inv(),
            match r {
                Err(e) => policy_refusal(old(self)@, part_id@, location_id@) == Some(e@)
                    && final(self)@ == old(self)@,
                Ok(item) => {
                    let s = old(self)@.stock;
                    &&& policy_refusal(old(self)@, part_id@, location_id@) is None
                    &&& row_written(s, final(self)@.stock, part_id@, location_id@,
                        on_hand_at(s, part_id@, location_id@), reserved_at(s, part_id@, location_id@),
                        reorder_point as int, reorder_qty as int)
                    &&& row_of(final(self)@.stock, part_id@, location_id@) == Some(item)
                    &&& final(self)@ == (StoreView { stock: final(self)@.stock, audit: final(self)@.audit, ..old(self)@ })
                    &&& audited(old(self)@.audit, final(self)@.audit, actor@, "set_stock_policy"@,
                        policy_detail(part_id@, location_id@, reorder_point as int))
                },
            },
    {
        if !self.part_exists(part_id) {
            return Err(part_not_found_msg(part_id));
        }
        if !self.location_exists(location_id) {
            return Err(location_not_found_msg(location_id));
        }
        let ghost s0 = self@.stock;
        let i = self.ensure_row(part_id, location_id);
        let ghost s1 = self@.stock;
        let on_hand = self.stock[i].on_hand;
        let reserved = self.stock[i].reserved;
        self.set_row(i, on_hand, reserved, reorder_point, reorder_qty);
        proof {
            Self::lemma_row_written(s0, s1, self@.stock, part_id@, location_id@, i as int,
                on_hand as int, reserved as int, reorder_point as int, reorder_qty as int);
            assert(same_key(self@.stock[i as int], s1[i as int]));
            assert(row_pos(self@.stock, part_id@, location_id@) == i) by {
                let k = row_pos(self@.stock, part_id@, location_id@);
                assert(is_row(self@.stock[i as int], part_id@, location_id@));
                if k != i {
                    assert(same_key(self@.stock[k], self@.stock[i as int]));
                }
            }
        }
        let out = self.stock[i].clone();
        let detail = policy_detail_msg(part_id, location_id, reorder_point);
        self.audit(actor, "set_stock_policy", detail);
        Ok(out)
    }

    /// The stock row of a part at a location.
    pub fn get_stock(&self, part_id: &str, location_id: &str) -> (r: Option<StockItem>)
        requires
            self.inv(),
        ensures
            r == row_of(self@.stock, part_id@, location_id@),
    {
        match self.find_row(part_id, location_id) {
            Some(i) => Some(self.stock[i].clone()),
            None => None,
        }
    }

    /// The values of the row that `ensure_row` finds or adds are those the
    /// model gives for the key before the call.
    pub(crate) proof fn lemma_ensured_values(s0: Seq<StockItem>, s1: Seq<StockItem>, part_id: Seq<char>, location_id: Seq<char>, i: int)
        requires
            row_ensured(s0, s1, part_id, location_id),
            0 <= i < s1.len(),
            is_row(s1[i], part_id, location_id),
            has_row(s0, part_id, location_id) ==> i == row_pos(s0, part_id, location_id),
        ensures
            s1[i].on_hand == on_hand_at(s0, part_id, location_id),
            s1[i].reserved == reserved_at(s0, part_id, location_id),
            s1[i].reorder_point == reorder_point_at(s0, part_id, location_id),
            s1[i].reorder_qty == reorder_qty_at(s0, part_id, location_id),
    {
        if !has_row(s0, part_id, location_id) {
            if i < s0.len() {
                assert(s1[i] == s0[i]);
                assert(is_row(s0[i], part_id, location_id));
            }
        }
    }

    /// Records a stock movement under a new identifier and audits it.
    pub(crate) fn record_movement(
        &mut self,
        part_id: &str,
        kind: MovementKind,
        from: Option<String>,
        to: Option<String>,
        qty: i64,
        reason: &str,
        actor: &str,
    ) -> (m: Movement)
        requires
            old(self).inv(),
            old(self)@.seq < u64::MAX,
        ensures
            final(self).inv(),
            movement_made(old(self)@, final(self)@, m, kind, part_id@, opt_text(from), opt_text(to), qty as int, reason@, actor@),
            final(self)@ == (StoreView {
                movements: final(self)@.movements,
                audit: final(self)@.audit,
                seq: final(self)@.seq,
                ..old(self)@
            }),
    {
        proof {
            old(self)@.lemma_ids_ok_bump();
        }
        let id = self.next_id("MOV");
        let m = Movement {
            id,
            part_id: part_id.to_owned(),
            kind,
            from_location_id: from,
            to_location_id: to,
            qty,
            reason: reason.to_owned(),
            actor: actor.to_owned(),
            at: now_micros(),
        };
        self.movements.push(m.clone());
        proof {
            super::lemma_issued_is_fresh(movement_prefix(), self@.seq);
            reveal(StoreView::ids_ok);
            let n = self@.movements.len() - 1;
            assert(self@.movements[n].id@ == id_text(movement_prefix(), self@.seq));
            assert forall|i: int, j: int| 0 <= i < j < self@.movements.len() implies self@.movements[i].id@ != self@.movements[j].id@ by {
                if j == n {
                    assert(old(self)@.movements[i] == self@.movements[i]);
                }
            }
            old(self)@.lemma_links_frame(self@);
        }
        let detail = movement_detail_msg(kind, part_id, qty);
        self.audit(actor, "stock_movement", detail);
        m
    }

    // ─── movements ───────────────────────────────────────────────────────

    /// Receives stock into a location (purchase/return).
    pub fn receive_stock(
        &mut self,
        part_id: &str,
        location_id: &str,
        qty: i64,
        reason: &str,
        actor: &str,
    ) -> (r: Result<Movement, String>)
        requires
            old(self).inv(),
            old(self)@.seq < u64::MAX,
        ensures
            final(self).inv(),
            match r {
                Err(e) => receive_refusal(old(self)@, part_id@, location_id@, qty as int) == Some(e@)
                    && final(self)@ == old(self)@,
                Ok(m) => {
                    let s = old(self)@.stock;
                    let (p, l) = (part_id@, location_id@);
                    &&& receive_refusal(old(self)@, p, l, qty as int) is None
                    &&& row_written(s, final(self)@.stock, p, l, on_hand_at(s, p, l) + qty,
                        reserved_at(s, p, l), reorder_point_at(s, p, l), reorder_qty_at(s, p, l))
                    &&& movement_made(old(self)@, final(self)@, m, MovementKind::Receipt, p, None, Some(l),
                        qty as int, reason@, actor@)
                    &&& old(self)@.only_movement_changed(final(self)@)
                    &&& final(self)@.usage == old(self)@.usage
                },
            },
    {
        if !self.part_exists(part_id) {
            return Err(part_not_found_msg(part_id));
        }
        if !self.location_exists(location_id) {
            return Err(location_not_found_msg(location_id));
        }
        if qty <= 0 {
            return Err("receipt qty must be positive".to_owned());
        }
        if let Some(i) = self.find_row(part_id, location_id) {
            if self.stock[i].on_hand > i64::MAX - qty {
                return Err(out_of_range_msg());
            }
        }
        let ghost s0 = self@.stock;
        let i = self.ensure_row(part_id, location_id);
        let ghost s1 = self@.stock;
        proof {
            Self::lemma_ensured_values(s0, s1, part_id@, location_id@, i as int);
        }
        let on_hand = self.stock[i].on_hand;
        let reserved = self.stock[i].reserved;
        let reorder_point = self.stock[i].reorder_point;
        let reorder_qty = self.stock[i].reorder_qty;
        self.set_row(i, on_hand + qty, reserved, reorder_point, reorder_qty);
        proof {
            Self::lemma_row_written(s0, s1, self@.stock, part_id@, location_id@, i as int,
                on_hand + qty, reserved as int, reorder_point as int, reorder_qty as int);
        }
        let m = self.record_movement(part_id, MovementKind::Receipt, None, Some(location_id.to_owned()), qty, reason, actor);
        Ok(m)
    }

    /// Issues (consumes) stock from a location on the day `today`, recording
    /// the usage under that day for forecasting. Refuses to oversell
    /// available stock.
    pub fn issue_stock_on(
        &mut self,
        part_id: &str,
        location_id: &str,
        qty: i64,
        reason: &str,
        actor: &str,
        today: i32,
    ) -> (r: Result<Movement, String>)
        requires
            old(self).inv(),
            old(self)@.seq < u64::MAX,
            valid_day(today as int),
        ensures
            final(self).inv(),
            match r {
                Err(e) => issue_refusal(old(self)@, part_id@, location_id@, qty as int) == Some(e@)
                    && final(self)@ == old(self)@,
                Ok(m) => {
                    let s = old(self)@.stock;
                    let (p, l) = (part_id@, location_id@);
                    &&& issue_refusal(old(self)@, p, l, qty as int) is None
                    &&& row_written(s, final(self)@.stock, p, l, on_hand_at(s, p, l) - qty,
                        reserved_at(s, p, l), reorder_point_at(s, p, l), reorder_qty_at(s, p, l))
                    &&& movement_made(old(self)@, final(self)@, m, MovementKind::Issue, p, Some(l), None,
                        qty as int, reason@, actor@)
                    &&& old(self)@.only_movement_changed(final(self)@)
                    &&& final(self)@.usage.len() == old(self)@.usage.len() + 1
                    &&& final(self)@.usage.drop_last() == old(self)@.usage
                    &&& final(self)@.usage.last().part_id@ == p
                    &&& final(self)@.usage.last().qty == qty
                    &&& final(self)@.usage.last().date == today
                },
            },
    {
        if qty <= 0 {
            return Err("issue qty must be positive".to_owned());
        }
        let i = match self.find_row(part_id, location_id) {
            Some(i) => i,
            None => {
                return Err(no_stock_msg(part_id, location_id));
            },
        };
        let on_hand = self.stock[i].on_hand;
        let reserved = self.stock[i].reserved;
        let available = on_hand - reserved;
        if qty > available {
            return Err(insufficient_issue_msg(available, qty, on_hand, reserved));
        }
        let ghost s0 = self@.stock;
        let reorder_point = self.stock[i].reorder_point;
        let reorder_qty = self.stock[i].reorder_qty;
        self.set_row(i, on_hand - qty, reserved, reorder_point, reorder_qty);
        proof {
            Self::lemma_row_written(s0, s0, self@.stock, part_id@, location_id@, i as int,
                on_hand - qty, reserved as int, reorder_point as int, reorder_qty as int);
        }
        let used = UsageRecord { part_id: part_id.to_owned(), date: today, qty };
        self.usage.push(used);
        proof {
            old(self)@.lemma_ids_ok_frame(self@);
            old(self)@.lemma_links_frame(self@);
            assert(self@.usage.drop_last() =~= old(self)@.usage);
        }
        let m = self.record_movement(part_id, MovementKind::Issue, Some(location_id.to_owned()), None, qty, reason, actor);
        Ok(m)
    }

    /// Issues (consumes) stock from a location, recording the usage under
    /// today's date (from the clock) for forecasting. Refuses to oversell
    /// available stock.
    pub fn issue_stock(
        &mut self,
        part_id: &str,
        location_id: &str,
        qty: i64,
        reason: &str,
        actor: &str,
    ) -> (r: Result<Movement, String>)
        requires
            old(self).inv(),
            old(self)@.seq < u64::MAX,
        ensures
            final(self).inv(),
            match r {
                Err(e) => issue_refusal(old(self)@, part_id@, location_id@, qty as int) == Some(e@)
                    && final(self)@ == old(self)@,
                Ok(m) => {
                    let s = old(self)@.stock;
                    let (p, l) = (part_id@, location_id@);
                    &&& issue_refusal(old(self)@, p, l, qty as int) is None
                    &&& row_written(s, final(self)@.stock, p, l, on_hand_at(s, p, l) - qty,
                        reserved_at(s, p, l), reorder_point_at(s, p, l), reorder_qty_at(s, p, l))
                    &&& movement_made(old(self)@, final(self)@, m, MovementKind::Issue, p, Some(l), None,
                        qty as int, reason@, actor@)
                    &&& old(self)@.only_movement_changed(final(self)@)
                    &&& final(self)@.usage.len() == old(self)@.usage.len() + 1
                    &&& final(self)@.usage.drop_last() == old(self)@.usage
                    &&& final(self)@.usage.last().part_id@ == p
                    &&& final(self)@.usage.last().qty == qty
                    &&& valid_day(final(self)@.usage.last().date as int)
                },
            },
    {
        let today = today_day();
        self.issue_stock_on(part_id, location_id, qty, reason, actor, today)
    }

    /// Rewriting one row keeps the position and contents of the rows of
    /// every other key.
    proof fn lemma_other_row_kept(s: Seq<StockItem>, mid: Seq<StockItem>, i: int, part_id: Seq<char>, location_id: Seq<char>)
        requires
            keys_unique(s),
            keys_unique(mid),
            0 <= i < s.len(),
            mid.len() == s.len(),
            forall|j: int| 0 <= j < s.len() && j != i ==> mid[j] == s[j],
            same_key(mid[i], s[i]),
            !is_row(s[i], part_id, location_id),
        ensures
            has_row(mid, part_id, location_id) == has_row(s, part_id, location_id),
            has_row(s, part_id, location_id) ==> row_pos(mid, part_id, location_id) == row_pos(s, part_id, location_id)
                && mid[row_pos(s, part_id, location_id)] == s[row_pos(s, part_id, location_id)],
    {
        if has_row(s, part_id, location_id) {
            let k = row_pos(s, part_id, location_id);
            assert(k != i);
            assert(is_row(mid[k], part_id, location_id));
            let k2 = row_pos(mid, part_id, location_id);
            if k2 != k {
                assert(same_key(mid[k], mid[k2]));
            }
        }
        if has_row(mid, part_id, location_id) {
            let k2 = row_pos(mid, part_id, location_id);
            if k2 == i {
                assert(same_key(mid[i], s[i]));
            }
            assert(is_row(s[k2], part_id, location_id));
        }
    }

    /// Transfers stock between locations of the same part.
    pub fn transfer_stock(
        &mut self,
        part_id: &str,
        from_id: &str,
        to_id: &str,
        qty: i64,
        reason: &str,
        actor: &str,
    ) -> (r: Result<Movement, String>)
        requires
            old(self).inv(),
            old(self)@.seq < u64::MAX,
        ensures
            final(self).inv(),
            match r {
                Err(e) => transfer_refusal(old(self)@, part_id@, from_id@, to_id@, qty as int) == Some(e@)
                    && final(self)@ == old(self)@,
                Ok(m) => {
                    let s = old(self)@.stock;
                    let (p, f, t) = (part_id@, from_id@, to_id@);
                    &&& transfer_refusal(old(self)@, p, f, t, qty as int) is None
                    &&& stock_transferred(s, final(self)@.stock, p, f, t, qty as int)
                    &&& movement_made(old(self)@, final(self)@, m, MovementKind::Transfer, p, Some(f), Some(t),
                        qty as int, reason@, actor@)
                    &&& old(self)@.only_movement_changed(final(self)@)
                    &&& final(self)@.usage == old(self)@.usage
                },
            },
    {
        if qty <= 0 {
            return Err("transfer qty must be positive".to_owned());
        }
        if !self.location_exists(to_id) {
            return Err(location_not_found_msg(to_id));
        }
        let i = match self.find_row(part_id, from_id) {
            Some(i) => i,
            None => {
                return Err(no_stock_msg(part_id, from_id));
            },
        };
        let on_hand = self.stock[i].on_hand;
        let reserved = self.stock[i].reserved;
        let available = on_hand - reserved;
        if qty > available {
            return Err(insufficient_transfer_msg(available, qty));
        }
        let ghost s0 = self@.stock;
        let target = self.find_row(part_id, to_id);
        proof {
            if from_id@ == to_id@ {
                assert(target == Some(i));
            }
            if let Some(j) = target {
                if j == i {
                    assert(self@.stock[i as int].location_id@ == from_id@);
                }
            }
        }
        if let Some(j) = target {
            if j != i && self.stock[j].on_hand > i64::MAX - qty {
                return Err(out_of_range_msg());
            }
        }
        let reorder_point = self.stock[i].reorder_point;
        let reorder_qty = self.stock[i].reorder_qty;
        assert(has_part(self@.parts, self@.stock[i as int].part_id@));
        self.set_row(i, on_hand - qty, reserved, reorder_point, reorder_qty);
        let ghost mid = self@.stock;
        proof {
            Self::lemma_row_written(s0, s0, mid, part_id@, from_id@, i as int,
                on_hand - qty, reserved as int, reorder_point as int, reorder_qty as int);
            if from_id@ != to_id@ {
                Self::lemma_other_row_kept(s0, mid, i as int, part_id@, to_id@);
            } else {
                assert(is_row(mid[i as int], part_id@, to_id@));
                let k = row_pos(mid, part_id@, to_id@);
                if k != i {
                    assert(same_key(mid[k], mid[i as int]));
                }
            }
        }
        let j = self.ensure_row(part_id, to_id);
        let ghost mid1 = self@.stock;
        proof {
            Self::lemma_ensured_values(mid, mid1, part_id@, to_id@, j as int);
        }
        let to_on_hand = self.stock[j].on_hand;
        let to_reserved = self.stock[j].reserved;
        let to_reorder_point = self.stock[j].reorder_point;
        let to_reorder_qty = self.stock[j].reorder_qty;
        self.set_row(j, to_on_hand + qty, to_reserved, to_reorder_point, to_reorder_qty);
        proof {
            Self::lemma_row_written(mid, mid1, self@.stock, part_id@, to_id@, j as int,
                to_on_hand + qty, to_reserved as int, to_reorder_point as int, to_reorder_qty as int);
        }
        let m = self.record_movement(
            part_id,
            MovementKind::Transfer,
            Some(from_id.to_owned()),
            Some(to_id.to_owned()),
            qty,
            reason,
            actor,
        );
        Ok(m)
    }

    /// Adjusts stock by a signed delta (cycle count / correction). The stock
    /// row is added first when missing, and stays even when the adjustment is
    /// then refused.
    pub fn adjust_stock(
        &mut self,
        part_id: &str,
        location_id: &str,
        delta: i64,
        reason: &str,
        actor: &str,
    ) -> (r: Result<Movement, String>)
        requires
            old(self).inv(),
            old(self)@.seq < u64::MAX,
        ensures
            final(self).inv(),
            match r {
                Err(e) => {
                    &&& adjust_refusal(old(self)@, part_id@, location_id@, delta as int) == Some(e@)
                    &&& if has_part(old(self)@.parts, part_id@) && has_location(old(self)@.locations, location_id@) {
                        row_ensured(old(self)@.stock, final(self)@.stock, part_id@, location_id@)
                            && old(self)@.only_stock_changed(final(self)@)
                    } else {
                        final(self)@ == old(self)@
                    }
                },
                Ok(m) => {
                    let s = old(self)@.stock;
                    let (p, l) = (part_id@, location_id@);
                    &&& adjust_refusal(old(self)@, p, l, delta as int) is None
                    &&& row_written(s, final(self)@.stock, p, l, on_hand_at(s, p, l) + delta,
                        reserved_at(s, p, l), reorder_point_at(s, p, l), reorder_qty_at(s, p, l))
                    &&& movement_made(old(self)@, final(self)@, m, MovementKind::Adjustment, p, None, Some(l),
                        delta as int, reason@, actor@)
                    &&& old(self)@.only_movement_changed(final(self)@)
                    &&& final(self)@.usage == old(self)@.usage
                },
            },
    {
        if !self.part_exists(part_id) {
            return Err(part_not_found_msg(part_id));
        }
        if !self.location_exists(location_id) {
            return Err(location_not_found_msg(location_id));
        }
        let ghost s0 = self@.stock;
        let i = self.ensure_row(part_id, location_id);
        let ghost s1 = self@.stock;
        proof {
            Self::lemma_ensured_values(s0, s1, part_id@, location_id@, i as int);
        }
        let on_hand = self.stock[i].on_hand;
        let total: i128 = on_hand as i128 + delta as i128;
        if total < 0 {
            return Err(negative_adjustment_msg(on_hand, delta));
        }
        if total > i64::MAX as i128 {
            return Err(out_of_range_msg());
        }
        let reserved = self.stock[i].reserved;
        let reorder_point = self.stock[i].reorder_point;
        let reorder_qty = self.stock[i].reorder_qty;
        self.set_row(i, on_hand + delta, reserved, reorder_point, reorder_qty);
        proof {
            Self::lemma_row_written(s0, s1, self@.stock, part_id@, location_id@, i as int,
                on_hand + delta, reserved as int, reorder_point as int, reorder_qty as int);
        }
        let m = self.record_movement(part_id, MovementKind::Adjustment, None, Some(location_id.to_owned()), delta, reason, actor);
        Ok(m)
    }

    /// All stock rows of a part, ordered by location identifier.
    pub fn stock_for_part(&self, part_id: &str) -> (r: Vec<StockItem>)
        ensures
            sorted_by_text(
                r@,
                self@.stock.filter(|s: StockItem| s.part_id@ == part_id@),
                |s: StockItem| location_key(s),
            ),
    {
        let ghost pred = |s: StockItem| s.part_id@ == part_id@;
        let key = part_id.to_owned();
        let mut rows: Vec<StockItem> = Vec::new();
        let mut keys: Vec<Vec<char>> = Vec::new();
        let mut i: usize = 0;
        while i < self.stock.len()
            invariant
                key@ == part_id@,
                i <= self.stock.len(),
                pred == (|s: StockItem| s.part_id@ == part_id@),
                rows@ == self@.stock.take(i as int).filter(pred),
                keys.len() == rows.len(),
                forall|j: int| 0 <= j < keys.len() ==> (#[trigger] keys@[j])@ == rows@[j].location_id@,
            decreases self.stock.len() - i,
        {
            proof {
                reveal_with_fuel(Seq::<_>::filter, 1);
                assert(self@.stock.take(i + 1).drop_last() =~= self@.stock.take(i as int));
            }
            if self.stock[i].part_id == key {
                rows.push(self.stock[i].clone());
                keys.push(chars_of(self.stock[i].location_id.as_str()));
            }
            i = i + 1;
        }
        assert(self@.stock.take(self.stock.len() as int) =~= self@.stock);
        assert(keys@.map_values(|k: Vec<char>| k@) =~= rows@.map_values(|s: StockItem| location_key(s)));
        let idx = order_by_text(&keys);
        let out = lay_out(&rows, &idx);
        assert(sorted_by_text(out@, rows@, |s: StockItem| location_key(s)));
        out
    }

    /// Total available stock (on hand less reserved, never below zero per
    /// row) of a part across all locations, capped at `i64::MAX`.
    pub fn available_total(&self, part_id: &str) -> (r: i64)
        ensures
            r == min_i64(available_sum(self@.stock, part_id@)),
            r >= 0,
    {
        let key = part_id.to_owned();
        let mut total: i64 = 0;
        let mut i: usize = 0;
        while i < self.stock.len()
            invariant
                key@ == part_id@,
                i <= self.stock.len(),
                total == min_i64(available_sum(self@.stock.take(i as int), part_id@)),
                available_sum(self@.stock.take(i as int), part_id@) >= 0,
            decreases self.stock.len() - i,
        {
            proof {
                assert(self@.stock.take(i + 1).drop_last() =~= self@.stock.take(i as int));
            }
            if self.stock[i].part_id == key {
                let room = self.stock[i].on_hand as i128 - self.stock[i].reserved as i128;
                if room > 0 {
                    let sum = total as i128 + room;
                    total = if sum > i64::MAX as i128 { i64::MAX } else { sum as i64 };
                }
            }
            i = i + 1;
        }
        assert(self@.stock.take(self.stock.len() as int) =~= self@.stock);
        total
    }

    /// The movements of a part, newest first, at most `limit` of them.
    pub fn movements_for_part(&self, part_id: &str, limit: usize) -> (r: Vec<Movement>)
        ensures
            exists|all: Seq<Movement>|
                sorted_newest_first(all, self@.movements.filter(|m: Movement| m.part_id@ == part_id@), |m: Movement| m.at)
                && r@ == all.take(if limit < all.len() { limit as int } else { all.len() as int }),
    {
        let ghost pred = |m: Movement| m.part_id@ == part_id@;
        let key = part_id.to_owned();
        let mut rows: Vec<Movement> = Vec::new();
        let mut stamps: Vec<i64> = Vec::new();
        let mut i: usize = 0;
        while i < self.movements.len()
            invariant
                key@ == part_id@,
                i <= self.movements.len(),
                pred == (|m: Movement| m.part_id@ == part_id@),
                rows@ == self@.movements.take(i as int).filter(pred),
                stamps.len() == rows.len(),
                forall|j: int| 0 <= j < stamps.len() ==> #[trigger] stamps@[j] == rows@[j].at,
            decreases self.movements.len() - i,
        {
            proof {
                reveal_with_fuel(Seq::<_>::filter, 1);
                assert(self@.movements.take(i + 1).drop_last() =~= self@.movements.take(i as int));
            }
            if self.movements[i].part_id == key {
                rows.push(self.movements[i].clone());
                stamps.push(self.movements[i].at);
            }
            i = i + 1;
        }
        assert(self@.movements.take(self.movements.len() as int) =~= self@.movements);
        assert(stamps@ =~= rows@.map_values(|m: Movement| m.at));
        let idx = order_newest_first(&stamps);
        let mut out = lay_out(&rows, &idx);
        let ghost all = out@;
        assert(sorted_newest_first(all, rows@, |m: Movement| m.at));
        out.truncate(limit);
        assert(out@ =~= all.take(if limit < all.len() { limit as int } else { all.len() as int }));
        out
    }
}

pub open spec fn location_key(s: StockItem) -> Seq<char> {
    s.location_id@
}

/// What a row makes available: on hand less reserved, never below zero.
pub open spec fn row_available(s: StockItem) -> int {
    if s.on_hand - s.reserved > 0 {
        s.on_hand - s.reserved
    } else {
        0
    }
}

/// The stock available of a part, summed over its rows.
pub open spec fn available_sum(stock: Seq<StockItem>, part_id: Seq<char>) -> int
    decreases stock.len(),
{
    if stock.len() == 0 {
        0
    } else {
        available_sum(stock.drop_last(), part_id) + if stock.last().part_id@ == part_id {
            row_available(stock.last())
        } else {
            0
        }
    }
}

/// An integer capped at `i64::MAX`.
pub open spec fn min_i64(x: int) -> int {
    if x > i64::MAX {
        i64::MAX as int
    } else {
        x
    }
}

} // verus!
