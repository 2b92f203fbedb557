//! Reservations: stock committed against a reference without leaving the
//! shelf.

use vstd::prelude::*;
use super::{
    held_by, lemma_open_reserved_at_least, lemma_open_reserved_push, lemma_open_reserved_update, open_reserved,
    is_row, same_key, audited, has_reservation, has_row, reservation_pos, reservation_prefix, row_pos, PartsStore,
    StoreView,
};
use super::messages::{
    insufficient_reserve, insufficient_reserve_msg, no_stock, no_stock_msg, reservation_detail,
    reservation_detail_msg, reservation_not_found, reservation_not_found_msg, reservation_not_open,
    reservation_not_open_msg,
};
use super::stock::{on_hand_at, reorder_point_at, reorder_qty_at, reserved_at, row_written};
use crate::clock::now_micros;
use crate::order::{lay_out, order_newest_first, sorted_newest_first};
use crate::text::id_text;
use crate::types::{Reservation, ReservationStatus};

verus! {

/// Why a reservation is refused, if it is.
pub open spec fn reserve_refusal(v: StoreView, part_id: Seq<char>, location_id: Seq<char>, qty: int) -> Option<Seq<char>> {
    let s = v.stock;
    if qty <= 0 {
        Some("reservation qty must be positive"@)
    } else if !has_row(s, part_id, location_id) {
        Some(no_stock(part_id, location_id))
    } else if qty > on_hand_at(s, part_id, location_id) - reserved_at(s, part_id, location_id) {
        Some(insufficient_reserve(on_hand_at(s, part_id, location_id) - reserved_at(s, part_id, location_id), qty))
    } else {
        None
    }
}

/// Why a cancellation is refused, if it is.
pub open spec fn cancel_refusal(v: StoreView, id: Seq<char>) -> Option<Seq<char>> {
    if !has_reservation(v.reservations, id) {
        Some(reservation_not_found(id))
    } else if v.reservations[reservation_pos(v.reservations, id)].status != ReservationStatus::Open {
        Some(reservation_not_open(id, v.reservations[reservation_pos(v.reservations, id)].status))
    } else {
        None
    }
}

/// `v1` is `v0` after the reservation `res` of `qty` of a part at a
/// location: the row's reserved quantity grows by `qty`, `res` is open,
/// carries a new identifier and is recorded, and the audit trail records it.
pub open spec fn reservation_made(
    v0: StoreView,
    v1: StoreView,
    p: Seq<char>,
    l: Seq<char>,
    qty: int,
    reference: Seq<char>,
    actor: Seq<char>,
    res: Reservation,
) -> bool {
    let s = v0.stock;
    &&& row_written(s, v1.stock, p, l, on_hand_at(s, p, l), reserved_at(s, p, l) + qty,
        reorder_point_at(s, p, l), reorder_qty_at(s, p, l))
    &&& res.id@ == id_text(reservation_prefix(), v0.seq + 1)
    &&& res.part_id@ == p
    &&& res.location_id@ == l
    &&& res.qty == qty
    &&& res.status == ReservationStatus::Open
    &&& res.reference@ == reference
    &&& res.created_by@ == actor
    &&& v1 == (StoreView {
        stock: v1.stock,
        reservations: v0.reservations.push(res),
        audit: v1.audit,
        seq: v0.seq + 1,
        ..v0
    })
    &&& audited(v0.audit, v1.audit, actor, "reserve_stock"@, reservation_detail(res.id@, p, qty))
}

/// `v1` is `v0` after the cancellation of the open reservation `id`: it is
/// marked cancelled (`out`), its quantity is released at its stock row when
/// there is one (the reserved quantity never going below zero), and the audit
/// trail records it.
pub open spec fn reservation_cancelled(v0: StoreView, v1: StoreView, id: Seq<char>, actor: Seq<char>, out: Reservation) -> bool {
    let rs = v0.reservations;
    let i = reservation_pos(rs, id);
    let s = v0.stock;
    let (p, l) = (rs[i].part_id@, rs[i].location_id@);
    &&& out == Reservation { status: ReservationStatus::Cancelled, ..rs[i] }
    &&& v1.reservations == rs.update(i, out)
    &&& if has_row(s, p, l) {
        row_written(s, v1.stock, p, l, on_hand_at(s, p, l),
            if reserved_at(s, p, l) - rs[i].qty > 0 { reserved_at(s, p, l) - rs[i].qty } else { 0 },
            reorder_point_at(s, p, l), reorder_qty_at(s, p, l))
    } else {
        v1.stock == s
    }
    &&& v1 == (StoreView { stock: v1.stock, reservations: v1.reservations, audit: v1.audit, ..v0 })
    &&& audited(v0.audit, v1.audit, actor, "cancel_reservation"@, id)
}

/// A reservation passes the listing filters: its part, when given, and its
/// being open, when asked.
pub open spec fn reservation_listed(r: Reservation, part_id: Option<Seq<char>>, open_only: bool) -> bool {
    &&& match part_id {
        Some(p) => r.part_id@ == p,
        None => true,
    }
    &&& (open_only ==> r.status == ReservationStatus::Open)
}

pub open spec fn created_stamp(r: Reservation) -> i64 {
    r.created_at
}

impl PartsStore {
    /// Reserves available stock against a reference (work order, asset):
    /// the reserved quantity grows, the on-hand quantity does not change.
    pub fn reserve_stock(
        &mut self,
        part_id: &str,
        location_id: &str,
        qty: i64,
        reference: &str,
        actor: &str,
    ) -> (r: Result<Reservation, String>)
        requires
            old(self).inv(),
            old(self)@.seq < u64::MAX,
        ensures
            final(self).inv(),
            match r {
                Err(e) => reserve_refusal(old(self)@, part_id@, location_id@, qty as int) == Some(e@)
                    && final(self)@ == old(self)@,
                Ok(res) => reserve_refusal(old(self)@, part_id@, location_id@, qty as int) is None
                    && reservation_made(old(self)@, final(self)@, part_id@, location_id@, qty as int, reference@, actor@, res),
            },
    {
        if qty <= 0 {
            return Err("reservation qty must be positive".to_owned());
        }
        let i = match self.find_row(part_id, location_id) {
            Some(i) => i,
            None => {
                return Err(no_stock_msg(part_id, location_id));
            },
        };
        let on_hand = self.stock[i].on_hand;
        let reserved = self.stock[i].reserved;
        let available = on_hand - reserved;
        if qty > available {
            return Err(insufficient_reserve_msg(available, qty));
        }
        let ghost s0 = self@.stock;
        let reorder_point = self.stock[i].reorder_point;
        let reorder_qty = self.stock[i].reorder_qty;
        self.set_row(i, on_hand, reserved + qty, reorder_point, reorder_qty);
        proof {
            Self::lemma_row_written(s0, s0, self@.stock, part_id@, location_id@, i as int,
                on_hand as int, reserved + qty, reorder_point as int, reorder_qty as int);
            self@.lemma_ids_ok_bump();
        }
        let id = self.next_id("RSV");
        let res = Reservation {
            id,
            part_id: part_id.to_owned(),
            location_id: location_id.to_owned(),
            qty,
            status: ReservationStatus::Open,
            reference: reference.to_owned(),
            created_by: actor.to_owned(),
            created_at: now_micros(),
        };
        self.reservations.push(res.clone());
        proof {
            super::lemma_issued_is_fresh(reservation_prefix(), self@.seq);
            reveal(StoreView::ids_ok);
            old(self)@.lemma_links_frame(self@);
            let o = old(self)@;
            let v = self@;
            let pl = (part_id@, location_id@);
            assert(is_row(s0[i as int], part_id@, location_id@));
            assert forall|j: int| 0 <= j < v.stock.len() implies (#[trigger] v.stock[j]).reserved == open_reserved(
                v.reservations, v.stock[j].part_id@, v.stock[j].location_id@) by {
                lemma_open_reserved_push(o.reservations, res, v.stock[j].part_id@, v.stock[j].location_id@);
                if j != i {
                    assert(v.stock[j] == s0[j]);
                    assert(!same_key(s0[j], s0[i as int]));
                }
            }
            assert forall|j: int| 0 <= j < v.reservations.len() && (#[trigger] v.reservations[j]).status == ReservationStatus::Open
                implies has_row(v.stock, v.reservations[j].part_id@, v.reservations[j].location_id@) by {
                if j < o.reservations.len() {
                    assert(v.reservations[j] == o.reservations[j]);
                } else {
                    assert(is_row(v.stock[i as int], part_id@, location_id@));
                }
            }
        }
        let detail = reservation_detail_msg(res.id.as_str(), part_id, qty);
        self.audit(actor, "reserve_stock", detail);
        Ok(res)
    }

    /// Position of the reservation with identifier `id`.
    fn find_reservation(&self, id: &str) -> (r: Option<usize>)
        requires
            self.inv(),
        ensures
            match r {
                Some(i) => i < self@.reservations.len() && i == reservation_pos(self@.reservations, id@)
                    && has_reservation(self@.reservations, id@),
                None => !has_reservation(self@.reservations, id@),
            },
    {
        let key = id.to_owned();
        let mut i: usize = 0;
        while i < self.reservations.len()
            invariant
                self.inv(),
                key@ == id@,
                i <= self.reservations.len(),
                forall|j: int| 0 <= j < i ==> self@.reservations[j].id@ != id@,
            decreases self.reservations.len() - i,
        {
            if self.reservations[i].id == key {
                proof {
                    reveal(StoreView::ids_ok);
                    let p = reservation_pos(self@.reservations, id@);
                    assert(has_reservation(self@.reservations, id@));
                    assert(self@.reservations[p].id@ == self@.reservations[i as int].id@);
                }
                return Some(i);
            }
            i = i + 1;
        }
        None
    }

    /// Cancels an open reservation, releasing its quantity at its stock row
    /// (the reserved quantity never goes below zero).
    pub fn cancel_reservation(&mut self, reservation_id: &str, actor: &str) -> (r: Result<Reservation, String>)
        requires
            old(self).inv(),
        ensures
            final(self).inv(),
            match r {
                Err(e) => cancel_refusal(old(self)@, reservation_id@) == Some(e@) && final(self)@ == old(self)@,
                Ok(out) => cancel_refusal(old(self)@, reservation_id@) is None
                    && reservation_cancelled(old(self)@, final(self)@, reservation_id@, actor@, out),
            },
    {
        let i = match self.find_reservation(reservation_id) {
            Some(i) => i,
            None => {
                return Err(reservation_not_found_msg(reservation_id));
            },
        };
        if self.reservations[i].status != ReservationStatus::Open {
            return Err(reservation_not_open_msg(reservation_id, self.reservations[i].status));
        }
        let mut out = self.reservations[i].clone();
        out.status = ReservationStatus::Cancelled;
        self.reservations.set(i, out.clone());
        proof {
            old(self)@.lemma_ids_ok_frame(self@);
            old(self)@.lemma_links_frame(self@);
        }
        let ghost s0 = self@.stock;
        let part_id = out.part_id.as_str();
        let location_id = out.location_id.as_str();
        let ghost o = old(self)@;
        let ghost rs1 = self@.reservations;
        proof {
            assert(o.reservations[i as int].status == ReservationStatus::Open);
            assert(has_row(s0, part_id@, location_id@));
            assert(rs1 == o.reservations.update(i as int, out));
            assert(held_by(o.reservations[i as int], part_id@, location_id@) == out.qty);
            assert(held_by(out, part_id@, location_id@) == 0);
            lemma_open_reserved_at_least(o.reservations, i as int, part_id@, location_id@);
        }
        if let Some(j) = self.find_row(part_id, location_id) {
            let on_hand = self.stock[j].on_hand;
            let reserved = self.stock[j].reserved;
            let left = if reserved - out.qty > 0 { reserved - out.qty } else { 0 };
            let reorder_point = self.stock[j].reorder_point;
            let reorder_qty = self.stock[j].reorder_qty;
            proof {
                assert(is_row(s0[j as int], part_id@, location_id@));
                assert(reserved == open_reserved(o.reservations, part_id@, location_id@));
                assert(left == reserved - out.qty);
            }
            self.set_row(j, on_hand, left, reorder_point, reorder_qty);
            proof {
                Self::lemma_row_written(s0, s0, self@.stock, part_id@, location_id@, j as int,
                    on_hand as int, left as int, reorder_point as int, reorder_qty as int);
                let v = self@;
                assert forall|k: int| 0 <= k < v.stock.len() implies (#[trigger] v.stock[k]).reserved == open_reserved(
                    v.reservations, v.stock[k].part_id@, v.stock[k].location_id@) by {
                    lemma_open_reserved_update(o.reservations, i as int, out, v.stock[k].part_id@, v.stock[k].location_id@);
                    if k != j {
                        assert(v.stock[k] == s0[k]);
                        assert(!same_key(s0[k], s0[j as int]));
                    }
                }
                assert forall|k: int| 0 <= k < v.reservations.len() && (#[trigger] v.reservations[k]).status == ReservationStatus::Open
                    implies has_row(v.stock, v.reservations[k].part_id@, v.reservations[k].location_id@) by {
                    assert(k != i);
                    assert(v.reservations[k] == o.reservations[k]);
                    assert(has_row(s0, v.reservations[k].part_id@, v.reservations[k].location_id@));
                }
            }
        }
        self.audit(actor, "cancel_reservation", reservation_id.to_owned());
        Ok(out)
    }

    /// Reservations that pass the filters, newest first.
    pub fn list_reservations(&self, part_id: Option<&str>, open_only: bool) -> (r: Vec<Reservation>)
        ensures
            sorted_newest_first(
                r@,
                self@.reservations.filter(|x: Reservation| reservation_listed(x, super::catalog::text_opt(part_id), open_only)),
                |x: Reservation| created_stamp(x),
            ),
            forall|k: int| 0 <= k < r.len() ==> {
                &&& match part_id {
                    Some(p) => (#[trigger] r@[k]).part_id@ == p@,
                    None => true,
                }
                &&& (open_only ==> r@[k].status == ReservationStatus::Open)
            },
            forall|i: int|
                0 <= i < self@.reservations.len() && match super::catalog::text_opt(part_id) {
                    Some(p) => (#[trigger] self@.reservations[i]).part_id@ == p,
                    None => true,
                } && (open_only ==> self@.reservations[i].status == ReservationStatus::Open) ==> exists|k: int|
                    0 <= k < r.len() && #[trigger] r@[k] == self@.reservations[i],
            forall|a: int, b: int| 0 <= a < b < r.len() ==> (#[trigger] r@[a]).created_at >= (#[trigger] r@[b]).created_at,
    {
        let ghost pred = |x: Reservation| reservation_listed(x, super::catalog::text_opt(part_id), open_only);
        let key: Option<String> = match part_id {
            Some(p) => Some(p.to_owned()),
            None => None,
        };
        let mut rows: Vec<Reservation> = Vec::new();
        let mut stamps: Vec<i64> = Vec::new();
        let mut i: usize = 0;
        while i < self.reservations.len()
            invariant
                match key {
                    Some(k) => part_id matches Some(p) && k@ == p@,
                    None => part_id is None,
                },
                i <= self.reservations.len(),
                pred == (|x: Reservation| reservation_listed(x, super::catalog::text_opt(part_id), open_only)),
                rows@ == self@.reservations.take(i as int).filter(pred),
                stamps.len() == rows.len(),
                forall|j: int| 0 <= j < stamps.len() ==> #[trigger] stamps@[j] == rows@[j].created_at,
            decreases self.reservations.len() - i,
        {
            proof {
                reveal_with_fuel(Seq::<_>::filter, 1);
                assert(self@.reservations.take(i + 1).drop_last() =~= self@.reservations.take(i as int));
            }
            let x = &self.reservations[i];
            let part_ok = match &key {
                Some(k) => x.part_id == *k,
                None => true,
            };
            let status_ok = !open_only || x.status == ReservationStatus::Open;
            if part_ok && status_ok {
                rows.push(x.clone());
                stamps.push(x.created_at);
            }
            i = i + 1;
        }
        assert(self@.reservations.take(self.reservations.len() as int) =~= self@.reservations);
        assert(stamps@ =~= rows@.map_values(|x: Reservation| created_stamp(x)));
        let idx = order_newest_first(&stamps);
        let out = lay_out(&rows, &idx);
        assert(sorted_newest_first(out@, rows@, |x: Reservation| created_stamp(x)));
        proof {
            super::laws::law_reservation_listing_applies_both_filters(
                self@.reservations,
                super::catalog::text_opt(part_id),
                open_only,
                out@,
            );
        }
        out
    }
}

} // verus!
