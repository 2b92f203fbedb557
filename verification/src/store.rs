//! The parts store: catalog, locations, suppliers, stock, movements,
//! reservations, bill of materials, supersessions, usage history and audit
//! trail, with the operations on them.
//!
//! Identifiers come from one sequence shared by all collections: the `n`-th
//! identifier issued with prefix `P` is `P-n`, and the sequence starts at 1000.
//! Every write appends an entry to the audit trail.

use vstd::prelude::*;
use crate::clock::now_micros;
use bom::acyclic;
use crate::text::{id_text, lemma_id_text_injective, make_id};
use crate::types::{
    AuditEntry, BomLine, Location, Movement, Part, PartStatus, Reservation, ReservationStatus, StockItem, Supplier,
    SupersessionLink, UsageRecord,
};

pub mod catalog;
pub mod messages;
pub mod stock;
pub mod reservations;
pub mod bom;
pub mod supersession;
pub mod analytics;
pub mod laws;
pub mod seed;

verus! {

/// The contents of a store.
pub struct StoreView {
    pub parts: Seq<Part>,
    pub locations: Seq<Location>,
    pub stock: Seq<StockItem>,
    pub bom: Seq<BomLine>,
    pub supersessions: Seq<SupersessionLink>,
    pub suppliers: Seq<Supplier>,
    pub movements: Seq<Movement>,
    pub reservations: Seq<Reservation>,
    pub usage: Seq<UsageRecord>,
    pub audit: Seq<AuditEntry>,
    /// The number of the last identifier issued.
    pub seq: nat,
}

pub open spec fn part_prefix() -> Seq<char> {
    "PRT"@
}

pub open spec fn location_prefix() -> Seq<char> {
    "LOC"@
}

pub open spec fn supplier_prefix() -> Seq<char> {
    "SUP"@
}

pub open spec fn movement_prefix() -> Seq<char> {
    "MOV"@
}

pub open spec fn reservation_prefix() -> Seq<char> {
    "RSV"@
}

/// `id` is `prefix-k` for a `k` the sequence has reached, and no identifier
/// `prefix-k` with `k` beyond `seq` equals it: the sequence issued it, and
/// will not issue it again.
pub open spec fn fresh_id(id: Seq<char>, prefix: Seq<char>, seq: nat) -> bool {
    &&& exists|k: nat| k <= seq && id == #[trigger] id_text(prefix, k)
    &&& forall|k: nat| k > seq ==> id != #[trigger] id_text(prefix, k)
}

// ─── lookups ─────────────────────────────────────────────────────────────────

pub open spec fn has_part(parts: Seq<Part>, id: Seq<char>) -> bool {
    exists|i: int| 0 <= i < parts.len() && parts[i].id@ == id
}

/// Position of the part with identifier `id`, or -1.
pub open spec fn part_pos(parts: Seq<Part>, id: Seq<char>) -> int {
    if has_part(parts, id) {
        choose|i: int| 0 <= i < parts.len() && parts[i].id@ == id
    } else {
        -1
    }
}

/// A supersession link replaces the part with identifier `id`.
pub open spec fn has_link_from(links: Seq<SupersessionLink>, id: Seq<char>) -> bool {
    exists|j: int| 0 <= j < links.len() && links[j].from_id@ == id
}

pub open spec fn has_location(locations: Seq<Location>, id: Seq<char>) -> bool {
    exists|i: int| 0 <= i < locations.len() && locations[i].id@ == id
}

pub open spec fn has_supplier(suppliers: Seq<Supplier>, id: Seq<char>) -> bool {
    exists|i: int| 0 <= i < suppliers.len() && suppliers[i].id@ == id
}

pub open spec fn is_row(s: StockItem, part_id: Seq<char>, location_id: Seq<char>) -> bool {
    s.part_id@ == part_id && s.location_id@ == location_id
}

pub open spec fn has_row(stock: Seq<StockItem>, part_id: Seq<char>, location_id: Seq<char>) -> bool {
    exists|i: int| 0 <= i < stock.len() && is_row(stock[i], part_id, location_id)
}

/// Position of the stock row of a part at a location, or -1.
pub open spec fn row_pos(stock: Seq<StockItem>, part_id: Seq<char>, location_id: Seq<char>) -> int {
    if has_row(stock, part_id, location_id) {
        choose|i: int| 0 <= i < stock.len() && is_row(stock[i], part_id, location_id)
    } else {
        -1
    }
}

pub open spec fn has_reservation(reservations: Seq<Reservation>, id: Seq<char>) -> bool {
    exists|i: int| 0 <= i < reservations.len() && reservations[i].id@ == id
}

/// Position of the reservation with identifier `id`, or -1.
pub open spec fn reservation_pos(reservations: Seq<Reservation>, id: Seq<char>) -> int {
    if has_reservation(reservations, id) {
        choose|i: int| 0 <= i < reservations.len() && reservations[i].id@ == id
    } else {
        -1
    }
}

/// The audit trail `new` is `old` with one entry more, recording `action` by
/// `actor` with `detail`.
pub open spec fn audited(
    old: Seq<AuditEntry>,
    new: Seq<AuditEntry>,
    actor: Seq<char>,
    action: Seq<char>,
    detail: Seq<char>,
) -> bool {
    &&& new.len() == old.len() + 1
    &&& new.drop_last() == old
    &&& new.last().actor@ == actor
    &&& new.last().action@ == action
    &&& new.last().detail@ == detail
}

// ─── well-formedness ─────────────────────────────────────────────────────────

impl StoreView {
    /// Identifiers of each collection (movements included) are distinct and
    /// not beyond the sequence.
    #[verifier::opaque]
    pub open spec fn ids_ok(self) -> bool {
        &&& forall|i: int, j: int| 0 <= i < j < self.parts.len() ==> self.parts[i].id@ != self.parts[j].id@
        &&& forall|i: int|
            0 <= i < self.parts.len() ==> fresh_id(#[trigger] self.parts[i].id@, part_prefix(), self.seq)
        &&& forall|i: int, j: int|
            0 <= i < j < self.locations.len() ==> self.locations[i].id@ != self.locations[j].id@
        &&& forall|i: int|
            0 <= i < self.locations.len() ==> fresh_id(
                #[trigger] self.locations[i].id@,
                location_prefix(),
                self.seq,
            )
        &&& forall|i: int, j: int|
            0 <= i < j < self.suppliers.len() ==> self.suppliers[i].id@ != self.suppliers[j].id@
        &&& forall|i: int|
            0 <= i < self.suppliers.len() ==> fresh_id(
                #[trigger] self.suppliers[i].id@,
                supplier_prefix(),
                self.seq,
            )
        &&& forall|i: int, j: int|
            0 <= i < j < self.reservations.len() ==> self.reservations[i].id@ != self.reservations[j].id@
        &&& forall|i: int|
            0 <= i < self.reservations.len() ==> fresh_id(
                #[trigger] self.reservations[i].id@,
                reservation_prefix(),
                self.seq,
            )
        &&& forall|i: int, j: int|
            0 <= i < j < self.movements.len() ==> self.movements[i].id@ != self.movements[j].id@
        &&& forall|i: int|
            0 <= i < self.movements.len() ==> fresh_id(
                #[trigger] self.movements[i].id@,
                movement_prefix(),
                self.seq,
            )
    }

    /// Stock rows have distinct (part, location) keys, never a negative
    /// on-hand or reserved quantity, and name a catalogued part and a known
    /// location.
    pub open spec fn stock_ok(self) -> bool {
        &&& keys_unique(self.stock)
        &&& forall|i: int| 0 <= i < self.stock.len() ==> (#[trigger] self.stock[i]).on_hand >= 0 && self.stock[i].reserved >= 0
        &&& forall|i: int|
            0 <= i < self.stock.len() ==> has_part(self.parts, (#[trigger] self.stock[i]).part_id@)
                && has_location(self.locations, self.stock[i].location_id@)
    }

    /// Every reservation holds a positive quantity.
    pub open spec fn reservations_ok(self) -> bool {
        forall|i: int| 0 <= i < self.reservations.len() ==> (#[trigger] self.reservations[i]).qty > 0
    }

    /// Bill-of-materials lines and supersession links join catalogued parts,
    /// no part is (transitively) a component of itself, a part is superseded
    /// exactly when a link replaces it, and no part is obsolete (no operation
    /// makes one so).
    #[verifier::opaque]
    pub open spec fn links_ok(self) -> bool {
        &&& acyclic(self.bom)
        &&& forall|i: int|
            0 <= i < self.bom.len() ==> has_part(self.parts, (#[trigger] self.bom[i]).parent_id@)
                && has_part(self.parts, self.bom[i].child_id@)
        &&& forall|i: int|
            0 <= i < self.supersessions.len() ==> has_part(self.parts, (#[trigger] self.supersessions[i]).from_id@)
                && has_part(self.parts, self.supersessions[i].to_id@)
        &&& forall|i: int|
            0 <= i < self.parts.len() ==> ((#[trigger] self.parts[i]).status == PartStatus::Superseded
                <==> has_link_from(self.supersessions, self.parts[i].id@))
        &&& forall|i: int| 0 <= i < self.parts.len() ==> (#[trigger] self.parts[i]).status != PartStatus::Obsolete
    }

    /// Each stock row's reserved quantity is what the open reservations at
    /// its part and location hold, and every open reservation stands
    /// against a stock row.
    pub open spec fn reserved_ok(self) -> bool {
        &&& forall|i: int|
            0 <= i < self.stock.len() ==> (#[trigger] self.stock[i]).reserved == open_reserved(
                self.reservations,
                self.stock[i].part_id@,
                self.stock[i].location_id@,
            )
        &&& forall|j: int|
            0 <= j < self.reservations.len() && (#[trigger] self.reservations[j]).status == ReservationStatus::Open
                ==> has_row(self.stock, self.reservations[j].part_id@, self.reservations[j].location_id@)
    }

    /// Well-formedness but for the accounting of reserved quantities.
    pub open spec fn base_ok(self) -> bool {
        &&& self.ids_ok()
        &&& self.stock_ok()
        &&& self.reservations_ok()
        &&& self.links_ok()
    }

    /// The well-formedness of a store's contents.
    pub open spec fn wf(self) -> bool {
        &&& self.base_ok()
        &&& self.reserved_ok()
    }
}

/// What a reservation holds against the stock of a part at a location: its
/// quantity while it is open there, else nothing.
pub open spec fn held_by(r: Reservation, part_id: Seq<char>, location_id: Seq<char>) -> int {
    if r.status == ReservationStatus::Open && r.part_id@ == part_id && r.location_id@ == location_id {
        r.qty as int
    } else {
        0
    }
}

/// What the open reservations hold against the stock of a part at a
/// location.
pub open spec fn open_reserved(rs: Seq<Reservation>, part_id: Seq<char>, location_id: Seq<char>) -> int
    decreases rs.len(),
{
    if rs.len() == 0 {
        0
    } else {
        open_reserved(rs.drop_last(), part_id, location_id) + held_by(rs.last(), part_id, location_id)
    }
}

/// A reservation appended adds what it holds.
pub proof fn lemma_open_reserved_push(rs: Seq<Reservation>, r: Reservation, p: Seq<char>, l: Seq<char>)
    ensures
        open_reserved(rs.push(r), p, l) == open_reserved(rs, p, l) + held_by(r, p, l),
{
    assert(rs.push(r).drop_last() =~= rs);
}

/// Replacing one reservation changes the sum by the change in what it holds.
pub proof fn lemma_open_reserved_update(rs: Seq<Reservation>, k: int, r: Reservation, p: Seq<char>, l: Seq<char>)
    requires
        0 <= k < rs.len(),
    ensures
        open_reserved(rs.update(k, r), p, l) == open_reserved(rs, p, l) - held_by(rs[k], p, l) + held_by(r, p, l),
    decreases rs.len(),
{
    let u = rs.update(k, r);
    if k == rs.len() - 1 {
        assert(u.drop_last() =~= rs.drop_last());
    } else {
        assert(u.drop_last() =~= rs.drop_last().update(k, r));
        lemma_open_reserved_update(rs.drop_last(), k, r, p, l);
    }
}

/// Where no reservation holds anything there, nothing is reserved.
pub proof fn lemma_open_reserved_none(rs: Seq<Reservation>, p: Seq<char>, l: Seq<char>)
    requires
        forall|j: int| 0 <= j < rs.len() ==> held_by(#[trigger] rs[j], p, l) == 0,
    ensures
        open_reserved(rs, p, l) == 0,
    decreases rs.len(),
{
    if rs.len() > 0 {
        assert forall|j: int| 0 <= j < rs.drop_last().len() implies held_by(#[trigger] rs.drop_last()[j], p, l) == 0 by {
            assert(rs.drop_last()[j] == rs[j]);
        }
        lemma_open_reserved_none(rs.drop_last(), p, l);
    }
}

/// With positive quantities, the sum holds at least what any one
/// reservation holds.
pub proof fn lemma_open_reserved_at_least(rs: Seq<Reservation>, k: int, p: Seq<char>, l: Seq<char>)
    requires
        0 <= k < rs.len(),
        forall|j: int| 0 <= j < rs.len() ==> (#[trigger] rs[j]).qty > 0,
    ensures
        open_reserved(rs, p, l) >= held_by(rs[k], p, l),
        open_reserved(rs, p, l) >= 0,
    decreases rs.len(),
{
    if k < rs.len() - 1 {
        assert forall|j: int| 0 <= j < rs.drop_last().len() implies (#[trigger] rs.drop_last()[j]).qty > 0 by {
            assert(rs.drop_last()[j] == rs[j]);
        }
        lemma_open_reserved_at_least(rs.drop_last(), k, p, l);
        assert(rs.drop_last()[k] == rs[k]);
    } else if rs.len() > 1 {
        assert forall|j: int| 0 <= j < rs.drop_last().len() implies (#[trigger] rs.drop_last()[j]).qty > 0 by {
            assert(rs.drop_last()[j] == rs[j]);
        }
        lemma_open_reserved_at_least(rs.drop_last(), 0, p, l);
    }
}

pub open spec fn same_key(a: StockItem, b: StockItem) -> bool {
    a.part_id@ == b.part_id@ && a.location_id@ == b.location_id@
}

/// No two stock rows share a (part, location) key.
pub open spec fn keys_unique(stock: Seq<StockItem>) -> bool {
    forall|i: int, j: int|
        #![trigger stock[i], stock[j]]
        0 <= i < j < stock.len() ==> !same_key(stock[i], stock[j])
}

/// `new` keeps every part of `old`, by identifier and position.
pub open spec fn parts_kept(old: Seq<Part>, new: Seq<Part>) -> bool {
    &&& old.len() <= new.len()
    &&& forall|i: int| 0 <= i < old.len() ==> (#[trigger] new[i]).id@ == old[i].id@
}

/// `new` keeps every location of `old`, by identifier and position.
pub open spec fn locations_kept(old: Seq<Location>, new: Seq<Location>) -> bool {
    &&& old.len() <= new.len()
    &&& forall|i: int| 0 <= i < old.len() ==> (#[trigger] new[i]).id@ == old[i].id@
}

pub proof fn lemma_parts_kept(old: Seq<Part>, new: Seq<Part>, id: Seq<char>)
    requires
        parts_kept(old, new),
        has_part(old, id),
    ensures
        has_part(new, id),
{
    let i = choose|i: int| 0 <= i < old.len() && old[i].id@ == id;
    assert(new[i].id@ == id);
}

pub proof fn lemma_locations_kept(old: Seq<Location>, new: Seq<Location>, id: Seq<char>)
    requires
        locations_kept(old, new),
        has_location(old, id),
    ensures
        has_location(new, id),
{
    let i = choose|i: int| 0 <= i < old.len() && old[i].id@ == id;
    assert(new[i].id@ == id);
}

impl StoreView {
    /// The identifier invariant depends on identifiers and the sequence only.
    pub proof fn lemma_ids_ok_frame(self, new: StoreView)
        requires
            self.ids_ok(),
            new.parts.len() == self.parts.len(),
            forall|i: int| 0 <= i < self.parts.len() ==> (#[trigger] new.parts[i]).id@ == self.parts[i].id@,
            new.locations == self.locations,
            new.suppliers == self.suppliers,
            new.reservations.len() == self.reservations.len(),
            forall|i: int| 0 <= i < self.reservations.len() ==> (#[trigger] new.reservations[i]).id@ == self.reservations[i].id@,
            new.movements == self.movements,
            new.seq == self.seq,
        ensures
            new.ids_ok(),
    {
        reveal(StoreView::ids_ok);
    }

    /// The link invariant depends on parts, lines and links only.
    pub proof fn lemma_links_frame(self, new: StoreView)
        requires
            self.links_ok(),
            new.parts == self.parts,
            new.bom == self.bom,
            new.supersessions == self.supersessions,
        ensures
            new.links_ok(),
    {
        reveal(StoreView::links_ok);
    }

    /// Stock and links stay well formed while parts and locations are only
    /// added.
    pub proof fn lemma_stock_ok_kept(self, new: StoreView)
        requires
            self.stock_ok(),
            self.links_ok(),
            new.stock == self.stock,
            new.bom == self.bom,
            new.supersessions == self.supersessions,
            parts_kept(self.parts, new.parts),
            locations_kept(self.locations, new.locations),
            new.parts == self.parts || {
                &&& new.parts.len() == self.parts.len() + 1
                &&& new.parts.drop_last() == self.parts
                &&& new.parts.last().status == PartStatus::Active
                &&& forall|i: int| 0 <= i < self.parts.len() ==> (#[trigger] self.parts[i]).id@ != new.parts.last().id@
            },
        ensures
            new.stock_ok(),
            new.links_ok(),
    {
        reveal(StoreView::links_ok);
        assert forall|i: int| 0 <= i < new.bom.len() implies has_part(new.parts, (#[trigger] new.bom[i]).parent_id@)
            && has_part(new.parts, new.bom[i].child_id@) by {
            lemma_parts_kept(self.parts, new.parts, new.bom[i].parent_id@);
            lemma_parts_kept(self.parts, new.parts, new.bom[i].child_id@);
        }
        assert forall|i: int| 0 <= i < new.supersessions.len() implies has_part(new.parts, (#[trigger] new.supersessions[i]).from_id@)
            && has_part(new.parts, new.supersessions[i].to_id@) by {
            lemma_parts_kept(self.parts, new.parts, new.supersessions[i].from_id@);
            lemma_parts_kept(self.parts, new.parts, new.supersessions[i].to_id@);
        }
        assert forall|i: int| 0 <= i < new.stock.len() implies has_part(new.parts, (#[trigger] new.stock[i]).part_id@)
            && has_location(new.locations, new.stock[i].location_id@) by {
            lemma_parts_kept(self.parts, new.parts, new.stock[i].part_id@);
            lemma_locations_kept(self.locations, new.locations, new.stock[i].location_id@);
        }
        assert forall|i: int| 0 <= i < new.parts.len() implies ((#[trigger] new.parts[i]).status == PartStatus::Superseded
            <==> has_link_from(new.supersessions, new.parts[i].id@)) by {
            if i < self.parts.len() {
                assert(new.parts[i] == self.parts[i]);
            } else if has_link_from(new.supersessions, new.parts[i].id@) {
                let j = choose|j: int| 0 <= j < new.supersessions.len() && new.supersessions[j].from_id@ == new.parts[i].id@;
                assert(has_part(self.parts, self.supersessions[j].from_id@));
                let k = choose|k: int| 0 <= k < self.parts.len() && self.parts[k].id@ == self.supersessions[j].from_id@;
                assert(self.parts[k].id@ != new.parts.last().id@);
            }
        }
    }
}

pub struct PartsStore {
    parts: Vec<Part>,
    locations: Vec<Location>,
    stock: Vec<StockItem>,
    bom: Vec<BomLine>,
    supersessions: Vec<SupersessionLink>,
    suppliers: Vec<Supplier>,
    movements: Vec<Movement>,
    reservations: Vec<Reservation>,
    usage: Vec<UsageRecord>,
    audit_log: Vec<AuditEntry>,
    seq: u64,
}

impl View for PartsStore {
    type V = StoreView;

    closed spec fn view(&self) -> StoreView {
        StoreView {
            parts: self.parts@,
            locations: self.locations@,
            stock: self.stock@,
            bom: self.bom@,
            supersessions: self.supersessions@,
            suppliers: self.suppliers@,
            movements: self.movements@,
            reservations: self.reservations@,
            usage: self.usage@,
            audit: self.audit_log@,
            seq: self.seq as nat,
        }
    }
}

impl Default for PartsStore {
    /// A new seeded store, as `PartsStore::new`.
    fn default() -> (s: Self)
        ensures
            s.inv(),
            seed::seeded(s@),
    {
        Self::new()
    }
}

impl PartsStore {
    pub open spec fn inv(&self) -> bool {
        self@.wf()
    }

    /// A store seeded with sample data (see `seed::seeded`): two suppliers,
    /// two locations, six parts (a brake assembly built from a rotor and two
    /// pad sets, an oil filter, and an O2 sensor superseded by its next
    /// revision), stock with reorder policies, and sixty days of oil-filter
    /// usage ending five days before `today`.
    pub fn new_on(today: i32) -> (s: Self)
        requires
            crate::clock::valid_day(today as int),
        ensures
            s.inv(),
            seed::seeded(s@),
            s@.usage[0].date == today - 60,
    {
        let mut s = PartsStore {
            parts: Vec::new(),
            locations: Vec::new(),
            stock: Vec::new(),
            bom: Vec::new(),
            supersessions: Vec::new(),
            suppliers: Vec::new(),
            movements: Vec::new(),
            reservations: Vec::new(),
            usage: Vec::new(),
            audit_log: Vec::new(),
            seq: 1000,
        };
        proof {
            reveal(StoreView::ids_ok);
            reveal(StoreView::links_ok);
            assert forall|n: Seq<char>| !bom::reaches(s@.bom, n, n) by {
                if bom::reaches(s@.bom, n, n) {
                    let k = choose|k: nat| #[trigger] bom::reach_within(s@.bom, n, k).contains(n);
                    bom::lemma_reach_empty(s@.bom, n, k);
                }
            }
        }
        s.seed_on(today);
        s
    }

    /// A store seeded with sample data (see `new_on`), its usage dated
    /// relative to today's date (from the clock).
    pub fn new() -> (s: Self)
        ensures
            s.inv(),
            seed::seeded(s@),
    {
        Self::new_on(crate::clock::today_day())
    }

    /// Whether the sequence can still issue an identifier (it stops at
    /// `u64::MAX`).
    pub fn can_issue_id(&self) -> (r: bool)
        ensures
            r == (self@.seq < u64::MAX),
    {
        self.seq < u64::MAX
    }

    /// Issues the next identifier with the given prefix.
    fn next_id(&mut self, prefix: &str) -> (r: String)
        requires
            old(self)@.seq < u64::MAX,
        ensures
            final(self)@ == (StoreView { seq: old(self)@.seq + 1, ..old(self)@ }),
            r@ == id_text(prefix@, final(self)@.seq),
    {
        self.seq = self.seq + 1;
        make_id(prefix, self.seq)
    }

    /// Appends an entry to the audit trail.
    fn audit(&mut self, actor: &str, action: &str, detail: String)
        ensures
            final(self)@ == (StoreView { audit: final(self)@.audit, ..old(self)@ }),
            audited(old(self)@.audit, final(self)@.audit, actor@, action@, detail@),
            old(self).inv() ==> final(self).inv(),
    {
        let entry = AuditEntry { at: now_micros(), actor: actor.to_owned(), action: action.to_owned(), detail };
        self.audit_log.push(entry);
        assert(self.audit_log@.drop_last() =~= old(self).audit_log@);
        proof {
            if old(self).inv() {
                old(self)@.lemma_ids_ok_frame(self@);
                old(self)@.lemma_links_frame(self@);
            }
        }
    }
}

/// After the sequence moves on, identifiers that were fresh stay fresh.
pub proof fn lemma_fresh_after_issue(id: Seq<char>, prefix: Seq<char>, seq: nat)
    requires
        fresh_id(id, prefix, seq),
    ensures
        fresh_id(id, prefix, seq + 1),
        id != id_text(prefix, seq + 1),
{
    assert(id != id_text(prefix, seq + 1));
    let k = choose|k: nat| k <= seq && id == #[trigger] id_text(prefix, k);
    assert(k <= seq + 1 && id == id_text(prefix, k));
}

/// The identifier just issued is fresh for the new sequence number.
pub proof fn lemma_issued_is_fresh(prefix: Seq<char>, seq: nat)
    ensures
        fresh_id(id_text(prefix, seq), prefix, seq),
{
    assert(seq <= seq && id_text(prefix, seq) == id_text(prefix, seq));
    assert forall|k: nat| k > seq implies id_text(prefix, seq) != #[trigger] id_text(prefix, k) by {
        if id_text(prefix, seq) == id_text(prefix, k) {
            lemma_id_text_injective(prefix, seq, k);
        }
    }
}

} // verus!
