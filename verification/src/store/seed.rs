//! The sample data a new store starts with: two suppliers, two locations, six
//! parts (a brake assembly built from a rotor and two pad sets, an oil filter,
//! and an O2 sensor superseded by its next revision), stock with reorder
//! policies, and sixty days of oil-filter usage.

use vstd::prelude::*;
use super::{audited, location_prefix, movement_prefix, part_prefix, supplier_prefix, PartsStore, StoreView};
use super::messages::{bom_detail, link_detail, movement_detail, policy_detail};
use super::bom::{lemma_reach_empty, lemma_reach_extended, reach_within, reaches};
use super::stock::{has_quantities, opt_text};
use super::{has_location, has_part, has_row, is_row, part_pos, row_pos};
use crate::clock::valid_day;
use crate::text::{id_text, lemma_id_text_injective};
use crate::types::{AuditEntry, BomLine, Movement, MovementKind, Part, PartStatus, StockItem, UsageRecord};

verus! {

/// The identifier of the `k`-th seeded supplier.
pub open spec fn seed_supplier_id(k: int) -> Seq<char> {
    id_text(supplier_prefix(), (1001 + k) as nat)
}

/// The identifier of the `k`-th seeded location (the warehouse, then the van).
pub open spec fn seed_location_id(k: int) -> Seq<char> {
    id_text(location_prefix(), (1003 + k) as nat)
}

/// The identifier of the `k`-th seeded part.
pub open spec fn seed_part_id(k: int) -> Seq<char> {
    id_text(part_prefix(), (1005 + k) as nat)
}

/// The `k`-th seeded part: part number, name, category, unit, lead time in
/// days and unit cost in thousandths.
pub open spec fn seed_part(k: int) -> (Seq<char>, Seq<char>, Seq<char>, Seq<char>, u32, i64) {
    if k == 0 {
        ("BRK-ASSY-100"@, "Brake assembly"@, "brakes"@, "ea"@, 14u32, 120_000i64)
    } else if k == 1 {
        ("BRK-PAD-22"@, "Brake pad set"@, "brakes"@, "set"@, 7u32, 35_000i64)
    } else if k == 2 {
        ("BRK-ROT-9"@, "Brake rotor"@, "brakes"@, "ea"@, 10u32, 60_000i64)
    } else if k == 3 {
        ("OIL-FLT-3"@, "Oil filter"@, "filters"@, "ea"@, 7u32, 8_000i64)
    } else if k == 4 {
        ("SEN-O2-1"@, "O2 sensor (rev A)"@, "sensors"@, "ea"@, 21u32, 45_000i64)
    } else {
        ("SEN-O2-2"@, "O2 sensor (rev B)"@, "sensors"@, "ea"@, 14u32, 48_000i64)
    }
}

/// `p` is the `k`-th seeded part, supplied by the first seeded supplier.
pub open spec fn is_seed_part(p: Part, k: int) -> bool {
    &&& p.id@ == seed_part_id(k)
    &&& p.part_number@ == seed_part(k).0
    &&& p.name@ == seed_part(k).1
    &&& p.category@ == seed_part(k).2
    &&& p.unit@ == seed_part(k).3
    &&& p.lead_time_days == seed_part(k).4
    &&& p.unit_cost == seed_part(k).5
    &&& opt_text(p.preferred_supplier_id) == Some(seed_supplier_id(0))
}

/// The seeded suppliers, locations and parts (the parts' status aside).
pub open spec fn seeded_catalog(v: StoreView) -> bool {
    &&& v.suppliers.len() == 2
    &&& v.suppliers[0].id@ == seed_supplier_id(0)
    &&& v.suppliers[0].name@ == "Acme Parts Co"@
    &&& v.suppliers[0].lead_time_days == 14
    &&& v.suppliers[1].id@ == seed_supplier_id(1)
    &&& v.suppliers[1].name@ == "FastSpares Ltd"@
    &&& v.suppliers[1].lead_time_days == 5
    &&& v.locations.len() == 2
    &&& v.locations[0].id@ == seed_location_id(0)
    &&& v.locations[0].name@ == "Central Warehouse"@
    &&& v.locations[0].kind@ == "warehouse"@
    &&& v.locations[1].id@ == seed_location_id(1)
    &&& v.locations[1].name@ == "Service Van 7"@
    &&& v.locations[1].kind@ == "van"@
    &&& v.parts.len() == 6
    &&& forall|k: int| 0 <= k < 6 ==> is_seed_part(#[trigger] v.parts[k], k)
}

/// The `k`-th seeded stock row: part, location (seed indices), on hand,
/// reorder point and reorder quantity, in thousandths. The rotor starts below
/// its reorder point.
pub open spec fn seed_row(k: int) -> (int, int, int, int, int) {
    if k == 0 {
        (1, 0, 50_000, 20_000, 40_000)
    } else if k == 1 {
        (2, 0, 8_000, 10_000, 20_000)
    } else if k == 2 {
        (3, 0, 200_000, 30_000, 100_000)
    } else if k == 3 {
        (3, 1, 12_000, 0, 0)
    } else {
        (5, 0, 15_000, 0, 0)
    }
}

/// `s` is the `k`-th seeded stock row; nothing of it is reserved.
pub open spec fn is_seed_row(s: StockItem, k: int) -> bool {
    &&& s.part_id@ == seed_part_id(seed_row(k).0)
    &&& s.location_id@ == seed_location_id(seed_row(k).1)
    &&& s.on_hand == seed_row(k).2
    &&& s.reserved == 0
    &&& s.reorder_point == seed_row(k).3
    &&& s.reorder_qty == seed_row(k).4
}

/// `m` is the receipt that filled the `k`-th seeded stock row.
pub open spec fn is_seed_receipt(m: Movement, k: int) -> bool {
    &&& m.id@ == id_text(movement_prefix(), (1011 + k) as nat)
    &&& m.part_id@ == seed_part_id(seed_row(k).0)
    &&& m.kind == MovementKind::Receipt
    &&& m.from_location_id is None
    &&& opt_text(m.to_location_id) == Some(seed_location_id(seed_row(k).1))
    &&& m.qty == seed_row(k).2
    &&& m.reason@ == "initial"@
    &&& m.actor@ == "system"@
}

/// The seeded oil-filter usage: twelve records five days apart, the last five
/// days before the day of seeding, of 6, 7 and 8 units in turn.
pub open spec fn seeded_usage(usage: Seq<UsageRecord>) -> bool {
    &&& usage.len() == 12
    &&& valid_day(usage[0].date + 60)
    &&& forall|k: int| 0 <= k < 12 ==> {
        &&& (#[trigger] usage[k]).part_id@ == seed_part_id(3)
        &&& usage[k].date == usage[0].date + 5 * k
        &&& usage[k].qty == 6_000 + (k % 3) * 1_000
    }
}

/// The `k`-th seeded policy's audit detail.
pub open spec fn seed_policy_detail(k: int) -> Seq<char> {
    policy_detail(seed_part_id(seed_row(k).0), seed_location_id(seed_row(k).1), seed_row(k).3)
}

/// The `k`-th seeded receipt's audit detail.
pub open spec fn seed_receipt_detail(k: int) -> Seq<char> {
    movement_detail(MovementKind::Receipt, seed_part_id(seed_row(k).0), seed_row(k).2)
}

/// Where the audit entry of the `k`-th seeded receipt stands: each of the
/// first three follows its row's policy.
pub open spec fn seed_receipt_pos(k: int) -> int {
    if k < 3 {
        14 + 2 * k
    } else {
        16 + k
    }
}

/// The `n`-th audit entry written while seeding: its action and detail.
pub open spec fn seed_audit(n: int) -> (Seq<char>, Seq<char>) {
    if n < 2 {
        ("create_supplier"@, seed_supplier_id(n))
    } else if n < 4 {
        ("create_location"@, seed_location_id(n - 2))
    } else if n < 10 {
        ("create_part"@, seed_part(n - 4).0)
    } else if n == 10 {
        ("add_bom_line"@, bom_detail(seed_part_id(0), seed_part_id(2), 1_000))
    } else if n == 11 {
        ("add_bom_line"@, bom_detail(seed_part_id(0), seed_part_id(1), 2_000))
    } else if n == 12 {
        ("add_supersession"@, link_detail(seed_part_id(4), seed_part_id(5)))
    } else if n == 13 || n == 15 || n == 17 {
        ("set_stock_policy"@, seed_policy_detail((n - 13) / 2))
    } else if n < 19 {
        ("stock_movement"@, seed_receipt_detail((n - 14) / 2))
    } else {
        ("stock_movement"@, seed_receipt_detail(n - 16))
    }
}

/// The audit trail holds the first `n` entries that seeding writes, each by
/// the actor "system".
pub open spec fn seed_audit_upto(audit: Seq<AuditEntry>, n: int) -> bool {
    &&& audit.len() == n
    &&& forall|k: int| 0 <= k < n ==> {
        &&& (#[trigger] audit[k]).actor@ == "system"@
        &&& audit[k].action@ == seed_audit(k).0
        &&& audit[k].detail@ == seed_audit(k).1
    }
}

/// One more seeding entry on the audit trail.
proof fn lemma_seed_audit_step(old: Seq<AuditEntry>, new: Seq<AuditEntry>, n: int, action: Seq<char>, detail: Seq<char>)
    requires
        seed_audit_upto(old, n),
        audited(old, new, "system"@, action, detail),
        action == seed_audit(n).0,
        detail == seed_audit(n).1,
    ensures
        seed_audit_upto(new, n + 1),
{
    assert forall|k: int| 0 <= k < n implies new[k] == old[k] by {
        assert(new.drop_last()[k] == new[k]);
    }
}

/// The whole seeded store.
pub open spec fn seeded(v: StoreView) -> bool {
    &&& seeded_catalog(v)
    &&& forall|k: int| 0 <= k < 6 ==> (#[trigger] v.parts[k]).status == if k == 4 {
        PartStatus::Superseded
    } else {
        PartStatus::Active
    }
    &&& v.bom.len() == 2
    &&& v.bom[0].parent_id@ == seed_part_id(0) && v.bom[0].child_id@ == seed_part_id(2) && v.bom[0].qty == 1_000
    &&& v.bom[1].parent_id@ == seed_part_id(0) && v.bom[1].child_id@ == seed_part_id(1) && v.bom[1].qty == 2_000
    &&& v.supersessions.len() == 1
    &&& v.supersessions[0].from_id@ == seed_part_id(4)
    &&& v.supersessions[0].to_id@ == seed_part_id(5)
    &&& v.supersessions[0].note@ == "rev A discontinued"@
    &&& v.stock.len() == 5
    &&& forall|k: int| 0 <= k < 5 ==> is_seed_row(#[trigger] v.stock[k], k)
    &&& v.movements.len() == 5
    &&& forall|k: int| 0 <= k < 5 ==> is_seed_receipt(#[trigger] v.movements[k], k)
    &&& v.reservations.len() == 0
    &&& seeded_usage(v.usage)
    &&& seed_audit_upto(v.audit, 21)
    &&& v.seq == 1015
}

/// Seeded identifiers with one prefix differ where their numbers do.
proof fn lemma_seed_ids_differ(prefix: Seq<char>, a: nat, b: nat)
    requires
        a != b,
    ensures
        id_text(prefix, a) != id_text(prefix, b),
{
    if id_text(prefix, a) == id_text(prefix, b) {
        lemma_id_text_injective(prefix, a, b);
    }
}

/// The identifiers handed from the catalog to the later seeding steps.
struct SeedIds {
    warehouse: String,
    van: String,
    parts: Vec<String>,
}

impl PartsStore {
    /// Suppliers, locations and parts.
    fn seed_catalog(&mut self) -> (ids: SeedIds)
        requires
            old(self).inv(),
            old(self)@.seq == 1000,
            old(self)@.parts.len() == 0,
            old(self)@.locations.len() == 0,
            old(self)@.suppliers.len() == 0,
            seed_audit_upto(old(self)@.audit, 0),
        ensures
            final(self).inv(),
            seeded_catalog(final(self)@),
            seed_audit_upto(final(self)@.audit, 10),
            forall|k: int| 0 <= k < 6 ==> (#[trigger] final(self)@.parts[k]).status == PartStatus::Active,
            final(self)@ == (StoreView {
                parts: final(self)@.parts,
                locations: final(self)@.locations,
                suppliers: final(self)@.suppliers,
                audit: final(self)@.audit,
                seq: 1010,
                ..old(self)@
            }),
            ids.warehouse@ == seed_location_id(0),
            ids.van@ == seed_location_id(1),
            ids.parts.len() == 6,
            forall|k: int| 0 <= k < 6 ==> (#[trigger] ids.parts@[k])@ == seed_part_id(k),
    {
        let ghost a0 = self@.audit;
        let acme = self.create_supplier("Acme Parts Co", 14, "system");
        proof {
            lemma_seed_audit_step(a0, self@.audit, 0, self@.audit.last().action@, self@.audit.last().detail@);
        }
        let ghost a1 = self@.audit;
        let _fast = self.create_supplier("FastSpares Ltd", 5, "system");
        proof {
            lemma_seed_audit_step(a1, self@.audit, 1, self@.audit.last().action@, self@.audit.last().detail@);
        }
        let ghost a2 = self@.audit;
        let wh = self.create_location("Central Warehouse", "warehouse", "system");
        proof {
            lemma_seed_audit_step(a2, self@.audit, 2, self@.audit.last().action@, self@.audit.last().detail@);
        }
        let ghost a3 = self@.audit;
        let van = self.create_location("Service Van 7", "van", "system");
        proof {
            lemma_seed_audit_step(a3, self@.audit, 3, self@.audit.last().action@, self@.audit.last().detail@);
        }
        let ghost a4 = self@.audit;
        let brake = self.create_part("BRK-ASSY-100", "Brake assembly", "brakes", "ea", Some(acme.id.clone()), 14, 120_000, "system");
        proof {
            lemma_seed_audit_step(a4, self@.audit, 4, self@.audit.last().action@, self@.audit.last().detail@);
        }
        let ghost a5 = self@.audit;
        let pads = self.create_part("BRK-PAD-22", "Brake pad set", "brakes", "set", Some(acme.id.clone()), 7, 35_000, "system");
        proof {
            lemma_seed_audit_step(a5, self@.audit, 5, self@.audit.last().action@, self@.audit.last().detail@);
        }
        let ghost a6 = self@.audit;
        let rotor = self.create_part("BRK-ROT-9", "Brake rotor", "brakes", "ea", Some(acme.id.clone()), 10, 60_000, "system");
        proof {
            lemma_seed_audit_step(a6, self@.audit, 6, self@.audit.last().action@, self@.audit.last().detail@);
        }
        let ghost a7 = self@.audit;
        let filter = self.create_part("OIL-FLT-3", "Oil filter", "filters", "ea", Some(acme.id.clone()), 7, 8_000, "system");
        proof {
            lemma_seed_audit_step(a7, self@.audit, 7, self@.audit.last().action@, self@.audit.last().detail@);
        }
        let ghost a8 = self@.audit;
        let sensor_old = self.create_part("SEN-O2-1", "O2 sensor (rev A)", "sensors", "ea", Some(acme.id.clone()), 21, 45_000, "system");
        proof {
            lemma_seed_audit_step(a8, self@.audit, 8, self@.audit.last().action@, self@.audit.last().detail@);
        }
        let ghost a9 = self@.audit;
        let sensor_new = self.create_part("SEN-O2-2", "O2 sensor (rev B)", "sensors", "ea", Some(acme.id.clone()), 14, 48_000, "system");
        proof {
            lemma_seed_audit_step(a9, self@.audit, 9, self@.audit.last().action@, self@.audit.last().detail@);
        }
        proof {
            assert(self@.parts =~= seq![brake, pads, rotor, filter, sensor_old, sensor_new]);
            assert forall|k: int| 0 <= k < 6 implies is_seed_part(#[trigger] self@.parts[k], k) by {}
        }
        let mut parts: Vec<String> = Vec::new();
        parts.push(brake.id);
        parts.push(pads.id);
        parts.push(rotor.id);
        parts.push(filter.id);
        parts.push(sensor_old.id);
        parts.push(sensor_new.id);
        SeedIds { warehouse: wh.id, van: van.id, parts }
    }
}


/// The seeded part identifiers are distinct, and so are the two locations'.
proof fn lemma_seed_distinct()
    ensures
        forall|a: int, b: int| 0 <= a < 6 && 0 <= b < 6 && a != b ==> #[trigger] seed_part_id(a) != #[trigger] seed_part_id(b),
        seed_location_id(0) != seed_location_id(1),
{
    assert forall|a: int, b: int| 0 <= a < 6 && 0 <= b < 6 && a != b implies #[trigger] seed_part_id(a) != #[trigger] seed_part_id(b) by {
        lemma_seed_ids_differ(part_prefix(), (1005 + a) as nat, (1005 + b) as nat);
    }
    lemma_seed_ids_differ(location_prefix(), 1003, 1004);
}

/// A seeded catalog holds each seeded part and location.
proof fn lemma_seed_found(v: StoreView)
    requires
        seeded_catalog(v),
    ensures
        forall|k: int| 0 <= k < 6 ==> has_part(v.parts, #[trigger] seed_part_id(k)),
        forall|k: int| 0 <= k < 6 ==> part_pos(v.parts, #[trigger] seed_part_id(k)) == k,
        has_location(v.locations, seed_location_id(0)),
        has_location(v.locations, seed_location_id(1)),
{
    lemma_seed_distinct();
    assert forall|k: int| 0 <= k < 6 implies has_part(v.parts, #[trigger] seed_part_id(k)) && part_pos(v.parts, seed_part_id(k)) == k by {
        assert(is_seed_part(v.parts[k], k));
        let i = part_pos(v.parts, seed_part_id(k));
        assert(is_seed_part(v.parts[i], i));
    }
    assert(v.locations[0].id@ == seed_location_id(0));
    assert(v.locations[1].id@ == seed_location_id(1));
}

/// The row at `i` is the only one of its key.
proof fn lemma_row_at(stock: Seq<StockItem>, i: int, p: Seq<char>, l: Seq<char>)
    requires
        0 <= i < stock.len(),
        is_row(stock[i], p, l),
        forall|j: int| 0 <= j < stock.len() && j != i ==> !is_row(#[trigger] stock[j], p, l),
    ensures
        has_row(stock, p, l),
        row_pos(stock, p, l) == i,
{
}

/// Nothing of an empty bill of materials lies beneath any part.
proof fn lemma_reaches_nothing(bom: Seq<BomLine>, r: Seq<char>, t: Seq<char>)
    requires
        bom.len() == 0,
    ensures
        !reaches(bom, r, t),
{
    if reaches(bom, r, t) {
        let k = choose|k: nat| #[trigger] reach_within(bom, r, k).contains(t);
        lemma_reach_empty(bom, r, k);
    }
}

impl PartsStore {
    /// The brake assembly's bill of materials and the O2 sensor supersession.
    fn seed_links(&mut self, ids: &SeedIds)
        requires
            old(self).inv(),
            seeded_catalog(old(self)@),
            forall|k: int| 0 <= k < 6 ==> (#[trigger] old(self)@.parts[k]).status == PartStatus::Active,
            old(self)@.bom.len() == 0,
            old(self)@.supersessions.len() == 0,
            seed_audit_upto(old(self)@.audit, 10),
            ids.parts.len() == 6,
            forall|k: int| 0 <= k < 6 ==> (#[trigger] ids.parts@[k])@ == seed_part_id(k),
        ensures
            final(self).inv(),
            seeded_catalog(final(self)@),
            seed_audit_upto(final(self)@.audit, 13),
            forall|k: int| 0 <= k < 6 ==> (#[trigger] final(self)@.parts[k]).status == if k == 4 {
                PartStatus::Superseded
            } else {
                PartStatus::Active
            },
            final(self)@.bom.len() == 2,
            final(self)@.bom[0].parent_id@ == seed_part_id(0),
            final(self)@.bom[0].child_id@ == seed_part_id(2),
            final(self)@.bom[0].qty == 1_000,
            final(self)@.bom[1].parent_id@ == seed_part_id(0),
            final(self)@.bom[1].child_id@ == seed_part_id(1),
            final(self)@.bom[1].qty == 2_000,
            final(self)@.supersessions.len() == 1,
            final(self)@.supersessions[0].from_id@ == seed_part_id(4),
            final(self)@.supersessions[0].to_id@ == seed_part_id(5),
            final(self)@.supersessions[0].note@ == "rev A discontinued"@,
            final(self)@ == (StoreView {
                parts: final(self)@.parts,
                bom: final(self)@.bom,
                supersessions: final(self)@.supersessions,
                audit: final(self)@.audit,
                ..old(self)@
            }),
    {
        let brake = ids.parts[0].as_str();
        let pads = ids.parts[1].as_str();
        let rotor = ids.parts[2].as_str();
        let v0 = Ghost(self@);
        proof {
            lemma_seed_distinct();
            lemma_seed_found(self@);
            assert(ids.parts@[0]@ == seed_part_id(0));
            assert(ids.parts@[1]@ == seed_part_id(1));
            assert(ids.parts@[2]@ == seed_part_id(2));
            lemma_reaches_nothing(self@.bom, seed_part_id(2), seed_part_id(0));
        }
        // Brake assembly = 1 rotor + 2 pad sets.
        let ghost a10 = self@.audit;
        let first = self.add_bom_line(brake, rotor, 1_000, "system");
        let ghost l0 = match first {
            Ok(line) => line,
            Err(_) => arbitrary(),
        };
        proof {
            assert(first is Ok);
            lemma_seed_audit_step(a10, self@.audit, 10, self@.audit.last().action@, self@.audit.last().detail@);
            assert(self@.bom =~= seq![l0]);
            lemma_seed_found(self@);
            assert(seq![l0] =~= Seq::<BomLine>::empty().push(l0));
            lemma_reaches_nothing(Seq::<BomLine>::empty(), seed_part_id(2), seed_part_id(0));
            if reaches(self@.bom, seed_part_id(1), seed_part_id(0)) {
                let k = choose|k: nat| #[trigger] reach_within(self@.bom, seed_part_id(1), k).contains(seed_part_id(0));
                lemma_reach_extended(Seq::<BomLine>::empty(), l0, seed_part_id(1), seed_part_id(0), k);
                lemma_reaches_nothing(Seq::<BomLine>::empty(), seed_part_id(1), seed_part_id(0));
            }
        }
        let ghost a11 = self@.audit;
        let second = self.add_bom_line(brake, pads, 2_000, "system");
        proof {
            assert(second is Ok);
            lemma_seed_audit_step(a11, self@.audit, 11, self@.audit.last().action@, self@.audit.last().detail@);
            lemma_seed_found(self@);
            assert(ids.parts@[4]@ == seed_part_id(4));
            assert(ids.parts@[5]@ == seed_part_id(5));
        }
        // The old O2 sensor is superseded by the new one.
        let ghost a12 = self@.audit;
        let link = self.add_supersession(ids.parts[4].as_str(), ids.parts[5].as_str(), "rev A discontinued", "system");
        proof {
            assert(link is Ok);
            lemma_seed_audit_step(a12, self@.audit, 12, self@.audit.last().action@, self@.audit.last().detail@);
            assert forall|k: int| 0 <= k < 6 implies is_seed_part(#[trigger] self@.parts[k], k) by {
                assert(is_seed_part(v0@.parts[k], k));
            }
        }
    }
}


/// Stock rows `0 .. n` of `stock` are the first `n` seeded rows.
pub open spec fn seed_rows_upto(stock: Seq<StockItem>, n: int) -> bool {
    &&& stock.len() == n
    &&& forall|k: int| 0 <= k < n ==> is_seed_row(#[trigger] stock[k], k)
}

/// The first `n` movements are the first `n` seeded receipts.
pub open spec fn seed_receipts_upto(movements: Seq<Movement>, n: int) -> bool {
    &&& movements.len() == n
    &&& forall|k: int| 0 <= k < n ==> is_seed_receipt(#[trigger] movements[k], k)
}

/// The keys of the seeded rows are distinct.
proof fn lemma_seed_rows_distinct()
    ensures
        forall|a: int, b: int| 0 <= a < 5 && 0 <= b < 5 && a != b ==>
            seed_part_id(#[trigger] seed_row(a).0) != seed_part_id(#[trigger] seed_row(b).0)
            || seed_location_id(seed_row(a).1) != seed_location_id(seed_row(b).1),
{
    lemma_seed_distinct();
}

impl PartsStore {
    /// Receives the quantity of the `k`-th seeded row, whose row is the last
    /// one and holds nothing yet but its policy.
    fn seed_receipt(&mut self, ids: &SeedIds, k: usize)
        requires
            old(self).inv(),
            seeded_catalog(old(self)@),
            k < 5,
            old(self)@.seq == 1011 + k - 1,
            old(self)@.stock.len() == k + 1 || (old(self)@.stock.len() == k && (k == 3 || k == 4)),
            old(self)@.stock.len() == k + 1 ==> {
                let r = old(self)@.stock[k as int];
                &&& r.part_id@ == seed_part_id(seed_row(k as int).0)
                &&& r.location_id@ == seed_location_id(seed_row(k as int).1)
                &&& has_quantities(r, 0, 0, seed_row(k as int).3, seed_row(k as int).4)
            },
            forall|j: int| 0 <= j < k ==> is_seed_row(#[trigger] old(self)@.stock[j], j),
            seed_receipts_upto(old(self)@.movements, k as int),
            seed_audit_upto(old(self)@.audit, seed_receipt_pos(k as int)),
            ids.warehouse@ == seed_location_id(0),
            ids.van@ == seed_location_id(1),
            ids.parts.len() == 6,
            forall|j: int| 0 <= j < 6 ==> (#[trigger] ids.parts@[j])@ == seed_part_id(j),
        ensures
            final(self).inv(),
            seed_audit_upto(final(self)@.audit, seed_receipt_pos(k as int) + 1),
            seed_rows_upto(final(self)@.stock, k + 1),
            seed_receipts_upto(final(self)@.movements, k + 1),
            final(self)@ == (StoreView {
                stock: final(self)@.stock,
                movements: final(self)@.movements,
                audit: final(self)@.audit,
                seq: old(self)@.seq + 1,
                ..old(self)@
            }),
    {
        let (part, loc, qty): (usize, bool, i64) = if k == 0 {
            (1, false, 50_000)
        } else if k == 1 {
            (2, false, 8_000)
        } else if k == 2 {
            (3, false, 200_000)
        } else if k == 3 {
            (3, true, 12_000)
        } else {
            (5, false, 15_000)
        };
        let location = if loc { ids.van.as_str() } else { ids.warehouse.as_str() };
        let ghost s0 = self@.stock;
        let ghost p = seed_part_id(seed_row(k as int).0);
        let ghost l = seed_location_id(seed_row(k as int).1);
        proof {
            lemma_seed_distinct();
            lemma_seed_found(self@);
            lemma_seed_rows_distinct();
            assert(ids.parts@[part as int]@ == p);
            assert(location@ == l);
            if s0.len() == k + 1 {
                assert forall|j: int| 0 <= j < s0.len() && j != k implies !is_row(#[trigger] s0[j], p, l) by {
                    assert(is_seed_row(s0[j], j));
                }
                lemma_row_at(s0, k as int, p, l);
            } else {
                assert forall|j: int| 0 <= j < s0.len() implies !is_row(#[trigger] s0[j], p, l) by {
                    assert(is_seed_row(s0[j], j));
                }
                assert(!has_row(s0, p, l));
            }
        }
        let ghost a0 = self@.audit;
        let r = self.receive_stock(ids.parts[part].as_str(), location, qty, "initial", "system");
        proof {
            assert(r is Ok);
            lemma_seed_audit_step(a0, self@.audit, seed_receipt_pos(k as int), self@.audit.last().action@, self@.audit.last().detail@);
            let s1 = self@.stock;
            assert(is_seed_row(s1[k as int], k as int));
            assert forall|j: int| 0 <= j < k + 1 implies is_seed_row(#[trigger] s1[j], j) by {
                if j < k {
                    assert(is_seed_row(s0[j], j));
                }
            }
        }
    }

    /// Sets the reorder policy of the `k`-th seeded row, which is not there yet.
    fn seed_policy(&mut self, ids: &SeedIds, k: usize)
        requires
            old(self).inv(),
            seeded_catalog(old(self)@),
            k < 3,
            seed_rows_upto(old(self)@.stock, k as int),
            seed_audit_upto(old(self)@.audit, 13 + 2 * k),
            ids.warehouse@ == seed_location_id(0),
            ids.parts.len() == 6,
            forall|j: int| 0 <= j < 6 ==> (#[trigger] ids.parts@[j])@ == seed_part_id(j),
        ensures
            final(self).inv(),
            seed_audit_upto(final(self)@.audit, 14 + 2 * k),
            final(self)@.stock.len() == k + 1,
            forall|j: int| 0 <= j < k ==> is_seed_row(#[trigger] final(self)@.stock[j], j),
            final(self)@.stock[k as int].part_id@ == seed_part_id(seed_row(k as int).0),
            final(self)@.stock[k as int].location_id@ == seed_location_id(seed_row(k as int).1),
            has_quantities(final(self)@.stock[k as int], 0, 0, seed_row(k as int).3, seed_row(k as int).4),
            final(self)@ == (StoreView { stock: final(self)@.stock, audit: final(self)@.audit, ..old(self)@ }),
    {
        let (part, point, qty): (usize, i64, i64) = if k == 0 {
            (1, 20_000, 40_000)
        } else if k == 1 {
            (2, 10_000, 20_000)
        } else {
            (3, 30_000, 100_000)
        };
        let ghost s0 = self@.stock;
        let ghost p = seed_part_id(seed_row(k as int).0);
        let ghost l = seed_location_id(seed_row(k as int).1);
        proof {
            lemma_seed_distinct();
            lemma_seed_found(self@);
            assert(ids.parts@[part as int]@ == p);
            assert forall|j: int| 0 <= j < s0.len() implies !is_row(#[trigger] s0[j], p, l) by {
                assert(is_seed_row(s0[j], j));
            }
            assert(!has_row(s0, p, l));
        }
        let ghost a0 = self@.audit;
        let r = self.set_stock_policy(ids.parts[part].as_str(), ids.warehouse.as_str(), point, qty, "system");
        proof {
            assert(r is Ok);
            assert((13 + 2 * k - 13) / 2 == k);
            lemma_seed_audit_step(a0, self@.audit, 13 + 2 * k, self@.audit.last().action@, self@.audit.last().detail@);
            let s1 = self@.stock;
            assert forall|j: int| 0 <= j < k implies is_seed_row(#[trigger] s1[j], j) by {
                assert(s1[j] == s1.drop_last()[j]);
                assert(is_seed_row(s0[j], j));
            }
        }
    }

    /// Stock and reorder policies: each policy, then each receipt.
    fn seed_stock(&mut self, ids: &SeedIds)
        requires
            old(self).inv(),
            seeded_catalog(old(self)@),
            old(self)@.seq == 1010,
            old(self)@.stock.len() == 0,
            old(self)@.movements.len() == 0,
            seed_audit_upto(old(self)@.audit, 13),
            ids.warehouse@ == seed_location_id(0),
            ids.van@ == seed_location_id(1),
            ids.parts.len() == 6,
            forall|j: int| 0 <= j < 6 ==> (#[trigger] ids.parts@[j])@ == seed_part_id(j),
        ensures
            final(self).inv(),
            seed_audit_upto(final(self)@.audit, 21),
            seed_rows_upto(final(self)@.stock, 5),
            seed_receipts_upto(final(self)@.movements, 5),
            final(self)@ == (StoreView {
                stock: final(self)@.stock,
                movements: final(self)@.movements,
                audit: final(self)@.audit,
                seq: 1015,
                ..old(self)@
            }),
    {
        self.seed_policy(ids, 0);
        self.seed_receipt(ids, 0);
        self.seed_policy(ids, 1);
        self.seed_receipt(ids, 1);
        self.seed_policy(ids, 2);
        self.seed_receipt(ids, 2);
        self.seed_receipt(ids, 3);
        self.seed_receipt(ids, 4);
    }

    /// Steady oil-filter consumption over the sixty days before `today`.
    fn seed_usage(&mut self, filter: &String, today: i32)
        requires
            old(self).inv(),
            valid_day(today as int),
            old(self)@.usage.len() == 0,
            filter@ == seed_part_id(3),
        ensures
            final(self).inv(),
            seeded_usage(final(self)@.usage),
            final(self)@.usage[0].date == today - 60,
            final(self)@ == (StoreView { usage: final(self)@.usage, ..old(self)@ }),
    {
        let mut k: i32 = 0;
        while k < 12
            invariant
                0 <= k <= 12,
                self.inv(),
                valid_day(today as int),
                filter@ == seed_part_id(3),
                self@ == (StoreView { usage: self@.usage, ..old(self)@ }),
                self@.usage.len() == k,
                forall|j: int| 0 <= j < k ==> {
                    &&& (#[trigger] self@.usage[j]).part_id@ == seed_part_id(3)
                    &&& self@.usage[j].date == today - 60 + 5 * j
                    &&& self@.usage[j].qty == 6_000 + (j % 3) * 1_000
                },
            decreases 12 - k,
        {
            let date = today - (60 - k * 5);
            let qty: i64 = 6_000 + (k % 3) as i64 * 1_000;
            let ghost before = self@;
            self.usage.push(UsageRecord { part_id: filter.clone(), date, qty });
            proof {
                before.lemma_ids_ok_frame(self@);
                before.lemma_links_frame(self@);
            }
            k = k + 1;
        }
    }

    /// Seeds a new store, its usage dated relative to `today`.
    pub(super) fn seed_on(&mut self, today: i32)
        requires
            valid_day(today as int),
            old(self).inv(),
            old(self)@.seq == 1000,
            old(self)@.parts.len() == 0,
            old(self)@.locations.len() == 0,
            old(self)@.suppliers.len() == 0,
            old(self)@.stock.len() == 0,
            old(self)@.bom.len() == 0,
            old(self)@.supersessions.len() == 0,
            old(self)@.movements.len() == 0,
            old(self)@.reservations.len() == 0,
            old(self)@.usage.len() == 0,
            old(self)@.audit.len() == 0,
        ensures
            final(self).inv(),
            seeded(final(self)@),
            final(self)@.usage[0].date == today - 60,
    {
        let ids = self.seed_catalog();
        self.seed_links(&ids);
        self.seed_stock(&ids);
        proof {
            assert(ids.parts@[3]@ == seed_part_id(3));
        }
        self.seed_usage(&ids.parts[3], today);
        proof {
            let v = self@;
            assert(forall|k: int| 0 <= k < 5 ==> is_seed_row(#[trigger] v.stock[k], k));
        }
    }
}

} // verus!
