//! Tests of the store on the seeded sample data: identifiers, each refusal
//! and its message, listings and their order, the stock laws on concrete
//! values, bill of materials, supersession chains, and the analytics figures.

use chrono::{Datelike, NaiveDate, Utc};
use mcp_parts::store::analytics::Forecast;
use mcp_parts::store::PartsStore;
use mcp_parts::types::{MovementKind, PartStatus, ReservationStatus, QTY_SCALE};

fn q(units: i64) -> i64 {
    units * QTY_SCALE
}

fn pid(s: &PartsStore, pn: &str) -> String {
    s.resolve_part(pn).unwrap().id
}

fn loc(s: &PartsStore, name: &str) -> String {
    s.list_locations().into_iter().find(|l| l.name.contains(name)).unwrap().id
}

fn day(y: i32, m: u32, d: u32) -> i32 {
    NaiveDate::from_ymd_opt(y, m, d).unwrap().num_days_from_ce()
}

// ─── identifiers ─────────────────────────────────────────────────────────────

#[test]
fn seeded_identifiers_follow_the_sequence() {
    let s = PartsStore::new();
    let sups: Vec<String> = s.list_suppliers().into_iter().map(|x| x.id).collect();
    assert_eq!(sups, vec!["SUP-1001".to_string(), "SUP-1002".to_string()]);
    let locs: Vec<String> = s.list_locations().into_iter().map(|x| x.id).collect();
    assert_eq!(locs, vec!["LOC-1003".to_string(), "LOC-1004".to_string()]);
    assert_eq!(pid(&s, "BRK-ASSY-100"), "PRT-1005");
    assert_eq!(pid(&s, "SEN-O2-2"), "PRT-1010");
}

#[test]
fn created_part_gets_next_identifier_and_is_found() {
    let mut s = PartsStore::new();
    assert!(s.can_issue_id());
    let p = s.create_part("HOSE-7", "Coolant hose", "cooling", "ea", None, 3, 12_500, "clerk");
    // five seeded receipts took MOV-1011..MOV-1015
    assert_eq!(p.id, "PRT-1016");
    assert_eq!(p.status, PartStatus::Active);
    assert_eq!(p.unit_cost, 12_500);
    let got = s.get_part("PRT-1016").unwrap();
    assert_eq!(got.part_number, "HOSE-7");
    assert_eq!(s.resolve_part("hose-7").unwrap().id, "PRT-1016");
    assert!(s.part_exists("PRT-1016"));
    let q2 = s.create_part("HOSE-8", "", "", "ea", None, 14, 0, "clerk");
    assert_ne!(p.id, q2.id);
    assert_eq!(q2.id, "PRT-1017");
    let last = &s.audit_log(1)[0];
    assert_eq!(last.action, "create_part");
    assert_eq!(last.detail, "HOSE-8");
    assert_eq!(last.actor, "clerk");
}

#[test]
fn created_location_and_supplier_are_listed_by_name() {
    let mut s = PartsStore::new();
    let l = s.create_location("Annex", "depot", "ops");
    assert_eq!(l.id, "LOC-1016");
    assert!(s.location_exists("LOC-1016"));
    let names: Vec<String> = s.list_locations().into_iter().map(|x| x.name).collect();
    assert_eq!(names, vec!["Annex", "Central Warehouse", "Service Van 7"]);
    let sup = s.create_supplier("Best Bolts", 3, "ops");
    assert_eq!(sup.id, "SUP-1017");
    let names: Vec<String> = s.list_suppliers().into_iter().map(|x| x.name).collect();
    assert_eq!(names, vec!["Acme Parts Co", "Best Bolts", "FastSpares Ltd"]);
    let entries = s.audit_log(2);
    assert_eq!(entries[0].action, "create_supplier");
    assert_eq!(entries[0].detail, "SUP-1017");
    assert_eq!(entries[1].action, "create_location");
    assert_eq!(entries[1].detail, "LOC-1016");
}

#[test]
fn timestamps_come_from_the_clock() {
    let before = Utc::now().timestamp_micros();
    let mut s = PartsStore::new();
    let p = s.create_part("T-1", "", "", "ea", None, 1, 0, "t");
    let after = Utc::now().timestamp_micros();
    assert!(before <= p.created_at && p.created_at <= after);
}

// ─── catalog ─────────────────────────────────────────────────────────────────

#[test]
fn parts_are_listed_by_part_number_and_filtered() {
    let s = PartsStore::new();
    let all: Vec<String> = s.list_parts(None, None).into_iter().map(|p| p.part_number).collect();
    assert_eq!(all, vec!["BRK-ASSY-100", "BRK-PAD-22", "BRK-ROT-9", "OIL-FLT-3", "SEN-O2-1", "SEN-O2-2"]);
    let brakes = s.list_parts(Some("BRAKES"), None);
    assert_eq!(brakes.len(), 3);
    let sup: Vec<String> = s.list_parts(None, Some(PartStatus::Superseded)).into_iter().map(|p| p.part_number).collect();
    assert_eq!(sup, vec!["SEN-O2-1"]);
    assert!(s.list_parts(Some("sensors"), Some(PartStatus::Obsolete)).is_empty());
}

#[test]
fn resolve_by_id_or_part_number() {
    let s = PartsStore::new();
    assert_eq!(s.resolve_part("PRT-1006").unwrap().part_number, "BRK-PAD-22");
    assert_eq!(s.resolve_part("brk-pad-22").unwrap().id, "PRT-1006");
    assert!(s.resolve_part("NOPE").is_none());
    // get_part takes identifiers only
    assert!(s.get_part("BRK-PAD-22").is_none());
    assert!(!s.part_exists("BRK-PAD-22"));
}

// ─── stock and movements ─────────────────────────────────────────────────────

#[test]
fn receive_adds_on_hand_and_records_a_receipt() {
    let mut s = PartsStore::new();
    let pads = pid(&s, "BRK-PAD-22");
    let van = loc(&s, "Van");
    assert!(s.get_stock(&pads, &van).is_none());
    let m = s.receive_stock(&pads, &van, 2_500, "po-1", "clerk").unwrap();
    assert_eq!(m.kind, MovementKind::Receipt);
    assert_eq!(m.id, "MOV-1016");
    assert_eq!(m.from_location_id, None);
    assert_eq!(m.to_location_id, Some(van.clone()));
    assert_eq!(m.qty, 2_500);
    let row = s.get_stock(&pads, &van).unwrap();
    assert_eq!(row.on_hand, 2_500);
    assert_eq!(row.reserved, 0);
    assert_eq!(row.reorder_point, 0);
    let e = &s.audit_log(1)[0];
    assert_eq!(e.action, "stock_movement");
    assert_eq!(e.detail, "Receipt PRT-1006 2.5");
}

#[test]
fn receive_refusals() {
    let mut s = PartsStore::new();
    let pads = pid(&s, "BRK-PAD-22");
    let wh = loc(&s, "Warehouse");
    assert_eq!(s.receive_stock("PRT-1", &wh, q(1), "r", "a").unwrap_err(), "Part not found: PRT-1");
    assert_eq!(s.receive_stock(&pads, "LOC-1", q(1), "r", "a").unwrap_err(), "Location not found: LOC-1");
    assert_eq!(s.receive_stock(&pads, &wh, 0, "r", "a").unwrap_err(), "receipt qty must be positive");
    assert_eq!(s.receive_stock(&pads, &wh, i64::MAX, "r", "a").unwrap_err(), "quantity out of range");
    assert_eq!(s.get_stock(&pads, &wh).unwrap().on_hand, q(50));
}

#[test]
fn issue_refusals_and_messages() {
    let mut s = PartsStore::new();
    let pads = pid(&s, "BRK-PAD-22");
    let wh = loc(&s, "Warehouse");
    let van = loc(&s, "Van");
    assert_eq!(s.issue_stock(&pads, &wh, 0, "r", "a").unwrap_err(), "issue qty must be positive");
    assert_eq!(s.issue_stock(&pads, &van, q(1), "r", "a").unwrap_err(), "No stock of PRT-1006 at LOC-1004");
    assert_eq!(
        s.issue_stock(&pads, &wh, q(9999), "r", "a").unwrap_err(),
        "insufficient available stock: 50 < 9999 (on_hand 50, reserved 0)"
    );
    s.reserve_stock(&pads, &wh, 12_250, "wo", "a").unwrap();
    assert_eq!(
        s.issue_stock(&pads, &wh, 40_000, "r", "a").unwrap_err(),
        "insufficient available stock: 37.75 < 40 (on_hand 50, reserved 12.25)"
    );
    let m = s.issue_stock(&pads, &wh, 37_750, "r", "a").unwrap();
    assert_eq!(m.kind, MovementKind::Issue);
    assert_eq!(m.from_location_id, Some(wh.clone()));
    assert_eq!(s.get_stock(&pads, &wh).unwrap().on_hand, 12_250);
}

#[test]
fn issue_is_recorded_as_usage_today() {
    let mut s = PartsStore::new();
    let pads = pid(&s, "BRK-PAD-22");
    let wh = loc(&s, "Warehouse");
    s.issue_stock(&pads, &wh, q(4), "wo", "tech").unwrap();
    let f = match s.forecast_demand(&pads, 30).unwrap() {
        Forecast::Estimate(f) => f,
        other => panic!("expected an estimate, got {other:?}"),
    };
    assert_eq!(f.usage_records, 1);
    assert_eq!(f.total_usage, q(4));
    assert_eq!(f.span_days, 1);
    assert_eq!(f.avg_daily_usage, q(4));
}

#[test]
fn transfer_refusals_and_conservation() {
    let mut s = PartsStore::new();
    let filter = pid(&s, "OIL-FLT-3");
    let pads = pid(&s, "BRK-PAD-22");
    let wh = loc(&s, "Warehouse");
    let van = loc(&s, "Van");
    assert_eq!(s.transfer_stock(&filter, &wh, &van, 0, "r", "a").unwrap_err(), "transfer qty must be positive");
    assert_eq!(s.transfer_stock(&filter, &wh, "LOC-9", q(1), "r", "a").unwrap_err(), "Location not found: LOC-9");
    assert_eq!(s.transfer_stock(&pads, &van, &wh, q(1), "r", "a").unwrap_err(), "No stock of PRT-1006 at LOC-1004");
    assert_eq!(
        s.transfer_stock(&filter, &wh, &van, q(300), "r", "a").unwrap_err(),
        "insufficient available stock to transfer: 200 < 300"
    );
    let total = |s: &PartsStore| s.stock_for_part(&filter).iter().map(|r| r.on_hand).sum::<i64>();
    let before = total(&s);
    let m = s.transfer_stock(&filter, &wh, &van, q(10), "restock", "driver").unwrap();
    assert_eq!(m.kind, MovementKind::Transfer);
    assert_eq!(m.from_location_id, Some(wh.clone()));
    assert_eq!(m.to_location_id, Some(van.clone()));
    assert_eq!(total(&s), before);
    assert_eq!(s.get_stock(&filter, &wh).unwrap().on_hand, q(190));
    assert_eq!(s.get_stock(&filter, &van).unwrap().on_hand, q(22));
    // to a location without a row: the row is made
    s.transfer_stock(&pads, &wh, &van, q(5), "r", "a").unwrap();
    assert_eq!(s.get_stock(&pads, &van).unwrap().on_hand, q(5));
}

#[test]
fn adjust_refusals_and_row_left_behind() {
    let mut s = PartsStore::new();
    let rotor = pid(&s, "BRK-ROT-9");
    let pads = pid(&s, "BRK-PAD-22");
    let wh = loc(&s, "Warehouse");
    let van = loc(&s, "Van");
    assert_eq!(s.adjust_stock("PRT-0", &wh, q(1), "c", "a").unwrap_err(), "Part not found: PRT-0");
    assert_eq!(s.adjust_stock(&rotor, "LOC-0", q(1), "c", "a").unwrap_err(), "Location not found: LOC-0");
    assert_eq!(
        s.adjust_stock(&rotor, &wh, -q(9999), "count", "auditor").unwrap_err(),
        "adjustment would drive on_hand negative (8 + -9999)"
    );
    assert_eq!(s.get_stock(&rotor, &wh).unwrap().on_hand, q(8));
    // a refused adjustment at a location without stock still leaves an empty row
    assert!(s.get_stock(&pads, &van).is_none());
    assert!(s.adjust_stock(&pads, &van, -1, "count", "auditor").is_err());
    let row = s.get_stock(&pads, &van).unwrap();
    assert_eq!(row.on_hand, 0);
    assert_eq!(row.reserved, 0);
    let m = s.adjust_stock(&rotor, &wh, -q(8), "count", "auditor").unwrap();
    assert_eq!(m.kind, MovementKind::Adjustment);
    assert_eq!(m.qty, -q(8));
    assert_eq!(m.to_location_id, Some(wh.clone()));
    assert_eq!(s.get_stock(&rotor, &wh).unwrap().on_hand, 0);
    assert_eq!(s.audit_log(1)[0].detail, "Adjustment PRT-1007 -8");
}

#[test]
fn stock_policy_sets_levels_and_refuses_unknowns() {
    let mut s = PartsStore::new();
    let pads = pid(&s, "BRK-PAD-22");
    let wh = loc(&s, "Warehouse");
    let van = loc(&s, "Van");
    assert_eq!(s.set_stock_policy("X", &wh, 1, 1, "a").unwrap_err(), "Part not found: X");
    assert_eq!(s.set_stock_policy(&pads, "Y", 1, 1, "a").unwrap_err(), "Location not found: Y");
    let row = s.set_stock_policy(&pads, &van, q(3), q(9), "planner").unwrap();
    assert_eq!(row.on_hand, 0);
    assert_eq!(row.reorder_point, q(3));
    assert_eq!(row.reorder_qty, q(9));
    let row = s.set_stock_policy(&pads, &wh, 7_500, q(40), "planner").unwrap();
    assert_eq!(row.on_hand, q(50));
    assert_eq!(row.reorder_point, 7_500);
    assert_eq!(s.audit_log(1)[0].detail, "PRT-1006@LOC-1003 rop=7.5");
}

#[test]
fn stock_rows_listed_by_location_and_availability_summed() {
    let mut s = PartsStore::new();
    let filter = pid(&s, "OIL-FLT-3");
    let wh = loc(&s, "Warehouse");
    let rows: Vec<String> = s.stock_for_part(&filter).into_iter().map(|r| r.location_id).collect();
    assert_eq!(rows, vec!["LOC-1003", "LOC-1004"]);
    assert_eq!(s.available_total(&filter), q(212));
    s.reserve_stock(&filter, &wh, q(12), "wo", "a").unwrap();
    assert_eq!(s.available_total(&filter), q(200));
    assert_eq!(s.available_total("PRT-404"), 0);
}

#[test]
fn movements_newest_first_and_limited() {
    let mut s = PartsStore::new();
    let filter = pid(&s, "OIL-FLT-3");
    let wh = loc(&s, "Warehouse");
    let all = s.movements_for_part(&filter, 50);
    assert_eq!(all.len(), 2);
    s.issue_stock(&filter, &wh, q(1), "a", "t").unwrap();
    let m = s.movements_for_part(&filter, 1);
    assert_eq!(m.len(), 1);
    assert_eq!(m[0].kind, MovementKind::Issue);
    let m3 = s.movements_for_part(&filter, 10);
    assert_eq!(m3.len(), 3);
    assert!(m3[0].at >= m3[1].at && m3[1].at >= m3[2].at);
    assert!(s.movements_for_part(&filter, 0).is_empty());
}

// ─── reservations ────────────────────────────────────────────────────────────

#[test]
fn reservation_refusals_and_cancel_twice() {
    let mut s = PartsStore::new();
    let pads = pid(&s, "BRK-PAD-22");
    let wh = loc(&s, "Warehouse");
    let van = loc(&s, "Van");
    assert_eq!(s.reserve_stock(&pads, &wh, 0, "wo", "a").unwrap_err(), "reservation qty must be positive");
    assert_eq!(s.reserve_stock(&pads, &van, q(1), "wo", "a").unwrap_err(), "No stock of PRT-1006 at LOC-1004");
    assert_eq!(
        s.reserve_stock(&pads, &wh, q(60), "wo", "a").unwrap_err(),
        "insufficient available stock to reserve: 50 < 60"
    );
    let r = s.reserve_stock(&pads, &wh, q(5), "wo-9", "planner").unwrap();
    assert_eq!(r.id, "RSV-1016");
    assert_eq!(r.status, ReservationStatus::Open);
    assert_eq!(r.reference, "wo-9");
    assert_eq!(s.audit_log(1)[0].detail, "RSV-1016 PRT-1006 5");
    let c = s.cancel_reservation(&r.id, "planner").unwrap();
    assert_eq!(c.status, ReservationStatus::Cancelled);
    assert_eq!(s.cancel_reservation(&r.id, "planner").unwrap_err(), "reservation RSV-1016 is Cancelled");
    assert_eq!(s.cancel_reservation("RSV-1", "planner").unwrap_err(), "Reservation not found: RSV-1");
}

#[test]
fn cancel_gives_back_the_row() {
    let mut s = PartsStore::new();
    let pads = pid(&s, "BRK-PAD-22");
    let wh = loc(&s, "Warehouse");
    let before = s.get_stock(&pads, &wh).unwrap();
    let r = s.reserve_stock(&pads, &wh, 1_500, "wo", "a").unwrap();
    assert_eq!(s.get_stock(&pads, &wh).unwrap().reserved, 1_500);
    s.cancel_reservation(&r.id, "a").unwrap();
    let after = s.get_stock(&pads, &wh).unwrap();
    assert_eq!(after.on_hand, before.on_hand);
    assert_eq!(after.reserved, before.reserved);
    assert_eq!(after.reorder_point, before.reorder_point);
    assert_eq!(after.reorder_qty, before.reorder_qty);
}

#[test]
fn reservations_listed_newest_first_and_filtered() {
    let mut s = PartsStore::new();
    let pads = pid(&s, "BRK-PAD-22");
    let filter = pid(&s, "OIL-FLT-3");
    let wh = loc(&s, "Warehouse");
    let a = s.reserve_stock(&pads, &wh, q(1), "a", "p").unwrap();
    let b = s.reserve_stock(&filter, &wh, q(1), "b", "p").unwrap();
    let c = s.reserve_stock(&pads, &wh, q(2), "c", "p").unwrap();
    s.cancel_reservation(&a.id, "p").unwrap();
    let open: Vec<String> = s.list_reservations(None, true).into_iter().map(|r| r.id).collect();
    assert_eq!(open.len(), 2);
    assert!(open.contains(&b.id) && open.contains(&c.id));
    let pads_all = s.list_reservations(Some(&pads), false);
    assert_eq!(pads_all.len(), 2);
    assert!(pads_all[0].created_at >= pads_all[1].created_at);
    assert_eq!(s.list_reservations(Some(&pads), true).len(), 1);
}

// ─── bill of materials ───────────────────────────────────────────────────────

#[test]
fn bom_refusals() {
    let mut s = PartsStore::new();
    let brake = pid(&s, "BRK-ASSY-100");
    let rotor = pid(&s, "BRK-ROT-9");
    assert_eq!(s.add_bom_line("P0", &rotor, q(1), "t").unwrap_err(), "Parent part not found: P0");
    assert_eq!(s.add_bom_line(&brake, "C0", q(1), "t").unwrap_err(), "Child part not found: C0");
    assert_eq!(s.add_bom_line(&brake, &brake, q(1), "t").unwrap_err(), "a part cannot be its own component");
    assert_eq!(
        s.add_bom_line(&rotor, &brake, q(1), "t").unwrap_err(),
        "adding PRT-1005 under PRT-1007 would create a BOM cycle"
    );
}

#[test]
fn bom_explodes_through_levels() {
    let mut s = PartsStore::new();
    let brake = pid(&s, "BRK-ASSY-100");
    let axle = s.create_part("AXL-1", "Axle kit", "axles", "ea", None, 5, 0, "eng").id;
    let line = s.add_bom_line(&axle, &brake, q(2), "eng").unwrap();
    assert_eq!(line.qty, q(2));
    assert_eq!(s.audit_log(1)[0].detail, "PRT-1016 -> PRT-1005 x2");
    let ex = s.explode_bom(&axle, 1_500).unwrap();
    assert_eq!(ex.parent_id, axle);
    assert_eq!(ex.multiplier, 1_500);
    assert_eq!(ex.component_count, 3);
    let rows: Vec<(String, i64)> = ex.components.iter().map(|c| (c.part_number.clone(), c.total_qty)).collect();
    assert_eq!(
        rows,
        vec![("BRK-ASSY-100".to_string(), q(3)), ("BRK-PAD-22".to_string(), q(6)), ("BRK-ROT-9".to_string(), q(3))]
    );
    // a cycle through two levels is refused as well
    let pads = pid(&s, "BRK-PAD-22");
    assert!(s.add_bom_line(&pads, &axle, q(1), "eng").is_err());
    // a part without components explodes to nothing
    let leaf = s.explode_bom(&pads, q(1)).unwrap();
    assert_eq!(leaf.component_count, 0);
    assert!(leaf.components.is_empty());
}

#[test]
fn bom_explosion_rounds_to_thousandths() {
    let mut s = PartsStore::new();
    let pads = pid(&s, "BRK-PAD-22");
    let kit = s.create_part("KIT-1", "Kit", "kits", "ea", None, 1, 0, "eng").id;
    s.add_bom_line(&kit, &pads, 1_500, "eng").unwrap();
    // 1.5 x 0.001 = 0.0015 -> 0.002; 1.5 x 0.003 = 0.0045 -> 0.005 (halves away from zero)
    assert_eq!(s.explode_bom(&kit, 1).unwrap().components[0].total_qty, 2);
    assert_eq!(s.explode_bom(&kit, 3).unwrap().components[0].total_qty, 5);
    assert_eq!(s.explode_bom(&kit, -3).unwrap().components[0].total_qty, -5);
}

#[test]
fn where_used_rows_and_empty_answer() {
    let mut s = PartsStore::new();
    let rotor = pid(&s, "BRK-ROT-9");
    let wu = s.where_used(&rotor);
    assert_eq!(wu.child_id, rotor);
    assert_eq!(wu.used_in_count, 1);
    assert_eq!(wu.used_in[0].parent_id, "PRT-1005");
    assert_eq!(wu.used_in[0].qty_per, q(1));
    let kit = s.create_part("AAA-KIT", "Kit", "kits", "ea", None, 1, 0, "eng").id;
    s.add_bom_line(&kit, &rotor, q(4), "eng").unwrap();
    let wu = s.where_used(&rotor);
    let pns: Vec<String> = wu.used_in.iter().map(|r| r.part_number.clone()).collect();
    assert_eq!(pns, vec!["AAA-KIT", "BRK-ASSY-100"]);
    assert_eq!(s.where_used("PRT-404").used_in_count, 0);
}

// ─── supersession ────────────────────────────────────────────────────────────

#[test]
fn supersession_refusals() {
    let mut s = PartsStore::new();
    let old = pid(&s, "SEN-O2-1");
    assert_eq!(s.add_supersession("X", &old, "", "a").unwrap_err(), "Part not found: X");
    assert_eq!(s.add_supersession(&old, "Y", "", "a").unwrap_err(), "Part not found: Y");
    assert_eq!(s.add_supersession(&old, &old, "", "a").unwrap_err(), "a part cannot supersede itself");
}

#[test]
fn supersession_follows_the_chain() {
    let mut s = PartsStore::new();
    let a = pid(&s, "SEN-O2-1");
    let b = pid(&s, "SEN-O2-2");
    let c = s.create_part("SEN-O2-3", "O2 sensor (rev C)", "sensors", "ea", None, 14, 0, "eng").id;
    let link = s.add_supersession(&b, &c, "rev B discontinued", "eng").unwrap();
    assert_eq!(link.note, "rev B discontinued");
    assert_eq!(s.get_part(&b).unwrap().status, PartStatus::Superseded);
    assert_eq!(s.audit_log(1)[0].detail, "PRT-1010 -> PRT-1016");
    let r = s.resolve_supersession(&a);
    assert_eq!(r.part_id, a);
    assert_eq!(r.current_part_id, c);
    assert!(r.superseded);
    assert_eq!(r.chain, vec![a.clone(), b.clone(), c.clone()]);
    let pads = pid(&s, "BRK-PAD-22");
    let r = s.resolve_supersession(&pads);
    assert!(!r.superseded);
    assert_eq!(r.current_part_id, pads);
    assert_eq!(r.chain, vec![pads.clone()]);
}

#[test]
fn supersession_cycle_stops_where_it_began() {
    let mut s = PartsStore::new();
    let a = pid(&s, "SEN-O2-1");
    let b = pid(&s, "SEN-O2-2");
    s.add_supersession(&b, &a, "loop", "eng").unwrap();
    let r = s.resolve_supersession(&a);
    assert_eq!(r.chain, vec![a.clone(), b.clone(), a.clone()]);
    assert_eq!(r.current_part_id, a);
    assert!(!r.superseded);
}

// ─── reorder, usage and forecast ─────────────────────────────────────────────

#[test]
fn reorder_suggestion_figures() {
    let mut s = PartsStore::new();
    let sug = s.reorder_suggestions(None);
    assert_eq!(sug.count, 1);
    let row = &sug.suggestions[0];
    assert_eq!(row.part_number, "BRK-ROT-9");
    assert_eq!(row.location_id, "LOC-1003");
    assert_eq!(row.available, q(8));
    assert_eq!(row.reorder_point, q(10));
    // up to the reorder quantity 20 from 8 available
    assert_eq!(row.suggested_order_qty, q(12));
    assert_eq!(row.lead_time_days, 10);
    let van = loc(&s, "Van");
    assert_eq!(s.reorder_suggestions(Some(&van)).count, 0);
    // a row already at its replenish level orders nothing; reserved stock
    // is not available
    let pads = pid(&s, "BRK-PAD-22");
    let wh = loc(&s, "Warehouse");
    s.set_stock_policy(&pads, &wh, q(60), q(5), "planner").unwrap();
    s.set_stock_policy(&pads, &wh, q(60), q(70), "planner").unwrap();
    s.reserve_stock(&pads, &wh, q(5), "wo", "planner").unwrap();
    let sug = s.reorder_suggestions(Some(&wh));
    let pns: Vec<String> = sug.suggestions.iter().map(|r| r.part_number.clone()).collect();
    assert_eq!(pns, vec!["BRK-PAD-22", "BRK-ROT-9"]);
    assert_eq!(sug.suggestions[0].available, q(45));
    assert_eq!(sug.suggestions[0].suggested_order_qty, q(25));
    s.set_stock_policy(&pads, &wh, q(60), q(5), "planner").unwrap();
    assert_eq!(s.reorder_suggestions(Some(&wh)).suggestions[0].suggested_order_qty, 0);
}

#[test]
fn usage_is_recorded_with_its_date() {
    let mut s = PartsStore::new();
    let pads = pid(&s, "BRK-PAD-22");
    let d = day(2024, 3, 1);
    let u = s.record_usage(&pads, d, 6_500, "tech").unwrap();
    assert_eq!(u.date, d);
    assert_eq!(u.qty, 6_500);
    let e = &s.audit_log(1)[0];
    assert_eq!(e.action, "record_usage");
    assert_eq!(e.detail, "PRT-1006 6.5@2024-03-01");
    assert_eq!(s.record_usage("PRT-1", d, 1, "tech").unwrap_err(), "Part not found: PRT-1");
}

#[test]
fn forecast_of_seeded_filter() {
    let s = PartsStore::new();
    let filter = pid(&s, "OIL-FLT-3");
    let f = match s.forecast_demand(&filter, 30).unwrap() {
        Forecast::Estimate(f) => f,
        other => panic!("expected an estimate, got {other:?}"),
    };
    assert_eq!(f.part_number, "OIL-FLT-3");
    assert_eq!(f.usage_records, 12);
    assert_eq!(f.total_usage, q(84));
    assert_eq!(f.span_days, 55);
    assert_eq!(f.avg_daily_usage, 1_527);
    assert_eq!(f.lead_time_days, 7);
    assert_eq!(f.projected_demand_over_horizon, 45_818);
    assert_eq!(f.horizon_days, 30);
    // ceil(84 / 55 * (7 + sqrt 7)) = ceil(14.73...) = 15
    assert_eq!(f.recommended_reorder_point, q(15));
    assert_eq!(f.available_now, q(212));
    assert_eq!(f.days_of_cover, Some(1_388));
    assert!(!f.stockout_risk);
    assert!(s.forecast_demand("PRT-404", 30).is_none());
}

#[test]
fn forecast_flags_stockout_risk() {
    let mut s = PartsStore::new();
    let rotor = pid(&s, "BRK-ROT-9");
    // 8 on hand, 4 a day over lead time 10: two days of cover
    s.record_usage(&rotor, day(2024, 1, 1), q(20), "t").unwrap();
    s.record_usage(&rotor, day(2024, 1, 6), q(20), "t").unwrap();
    let f = match s.forecast_demand(&rotor, 10).unwrap() {
        Forecast::Estimate(f) => f,
        other => panic!("expected an estimate, got {other:?}"),
    };
    assert_eq!(f.span_days, 5);
    assert_eq!(f.avg_daily_usage, q(8));
    assert_eq!(f.projected_demand_over_horizon, q(80));
    assert_eq!(f.days_of_cover, Some(10));
    assert!(f.stockout_risk);
    // 8 * (10 + sqrt 10) = 105.29... -> 106
    assert_eq!(f.recommended_reorder_point, q(106));
}

#[test]
fn forecast_without_history() {
    let s = PartsStore::new();
    let rotor = pid(&s, "BRK-ROT-9");
    match s.forecast_demand(&rotor, 30).unwrap() {
        Forecast::NoUsageHistory { part_id } => assert_eq!(part_id, rotor),
        other => panic!("expected no history, got {other:?}"),
    }
}

#[test]
fn audit_log_newest_first_and_limited() {
    let s = PartsStore::new();
    let all = s.audit_log(1000);
    assert!(all.len() > 10);
    assert_eq!(all.last().unwrap().action, "create_supplier");
    assert_eq!(all.last().unwrap().detail, "SUP-1001");
    assert_eq!(all.last().unwrap().actor, "system");
    assert_eq!(s.audit_log(3).len(), 3);
    assert!(s.audit_log(0).is_empty());
}

#[test]
fn default_store_is_the_seeded_store() {
    let s = PartsStore::default();
    assert_eq!(s.list_parts(None, None).len(), 6);
    let pads = pid(&s, "BRK-PAD-22");
    let m = s.movements_for_part(&pads, 10);
    assert_eq!(m.len(), 1);
    assert_eq!(m[0].id, "MOV-1011");
    assert_eq!(m[0].qty, q(50));
    assert!(s.list_reservations(None, false).is_empty());
}

#[test]
fn seeded_stock_rows_and_policies() {
    let s = PartsStore::new();
    let wh = loc(&s, "Warehouse");
    let van = loc(&s, "Van");
    let rows = [
        ("BRK-PAD-22", &wh, 50, 20, 40),
        ("BRK-ROT-9", &wh, 8, 10, 20),
        ("OIL-FLT-3", &wh, 200, 30, 100),
        ("OIL-FLT-3", &van, 12, 0, 0),
        ("SEN-O2-2", &wh, 15, 0, 0),
    ];
    for (pn, l, on_hand, rop, rq) in rows {
        let r = s.get_stock(&pid(&s, pn), l).unwrap();
        assert_eq!((r.on_hand, r.reserved, r.reorder_point, r.reorder_qty), (q(on_hand), 0, q(rop), q(rq)), "{pn}");
    }
    assert!(s.get_stock(&pid(&s, "BRK-ASSY-100"), &wh).is_none());
    let brake = s.get_part(&pid(&s, "BRK-ASSY-100")).unwrap();
    assert_eq!(brake.preferred_supplier_id, Some("SUP-1001".to_string()));
    assert_eq!(brake.unit_cost, q(120));
    assert_eq!(brake.lead_time_days, 14);
}

#[test]
fn issue_gives_back_what_was_received() {
    let mut s = PartsStore::new();
    let rotor = pid(&s, "BRK-ROT-9");
    let wh = loc(&s, "Warehouse");
    let before = s.get_stock(&rotor, &wh).unwrap();
    s.receive_stock(&rotor, &wh, 4_250, "po", "clerk").unwrap();
    s.issue_stock(&rotor, &wh, 4_250, "wo", "tech").unwrap();
    let after = s.get_stock(&rotor, &wh).unwrap();
    assert_eq!(after.on_hand, before.on_hand);
    assert_eq!(after.reserved, before.reserved);
    assert_eq!(after.reorder_point, before.reorder_point);
    assert_eq!(after.reorder_qty, before.reorder_qty);
}

#[test]
fn bom_explosion_multiplies_exactly_down_each_path() {
    let mut s = PartsStore::new();
    let top = s.create_part("T", "", "", "ea", None, 1, 0, "eng").id;
    let mid = s.create_part("M", "", "", "ea", None, 1, 0, "eng").id;
    let low = s.create_part("L", "", "", "ea", None, 1, 0, "eng").id;
    s.add_bom_line(&top, &mid, 1, "eng").unwrap(); // 0.001 of M
    s.add_bom_line(&mid, &low, q(1000), "eng").unwrap(); // 1000 of L
    let ex = s.explode_bom(&top, 500).unwrap(); // at 0.5
    let rows: Vec<(String, i64)> = ex.components.iter().map(|c| (c.part_number.clone(), c.total_qty)).collect();
    // M: 0.0005 rounds to 0.001; L: 0.0005 x 1000 = 0.5 exactly
    assert_eq!(rows, vec![("L".to_string(), 500), ("M".to_string(), 1)]);
    // a second path to L adds before the total is rounded: 0.0004 + 0.0004
    let other = s.create_part("O", "", "", "ea", None, 1, 0, "eng").id;
    s.add_bom_line(&top, &other, 1, "eng").unwrap();
    s.add_bom_line(&other, &low, 800, "eng").unwrap();
    let ex = s.explode_bom(&top, 500).unwrap();
    let l = ex.components.iter().find(|c| c.part_number == "L").unwrap();
    // 0.5 + 0.0005 x 0.8 = 0.5004 -> 0.5
    assert_eq!(l.total_qty, 500);
}

#[test]
fn bom_explosion_deep_unit_chain_stays_exact() {
    let mut s = PartsStore::new();
    let mut ids = Vec::new();
    for k in 0..20 {
        ids.push(s.create_part(&format!("D-{k:02}"), "", "", "ea", None, 1, 0, "eng").id);
    }
    for k in 0..19 {
        s.add_bom_line(&ids[k], &ids[k + 1], q(1), "eng").unwrap();
    }
    let ex = s.explode_bom(&ids[0], q(2)).unwrap();
    assert_eq!(ex.component_count, 19);
    assert!(ex.components.iter().all(|c| c.total_qty == q(2)));
}

#[test]
fn bom_explosion_refuses_totals_beyond_exact_range() {
    let mut s = PartsStore::new();
    let mut ids = Vec::new();
    for k in 0..6 {
        ids.push(s.create_part(&format!("B-{k}"), "", "", "ea", None, 1, 0, "eng").id);
    }
    for k in 0..5 {
        s.add_bom_line(&ids[k], &ids[k + 1], i64::MAX, "eng").unwrap();
    }
    assert_eq!(s.explode_bom(&ids[0], i64::MAX).unwrap_err(), "quantity out of range");
}

#[test]
fn reserved_quantity_follows_open_reservations() {
    let mut s = PartsStore::new();
    let pads = pid(&s, "BRK-PAD-22");
    let wh = loc(&s, "Warehouse");
    let a = s.reserve_stock(&pads, &wh, q(2), "a", "p").unwrap();
    let b = s.reserve_stock(&pads, &wh, q(3), "b", "p").unwrap();
    s.issue_stock(&pads, &wh, q(10), "wo", "t").unwrap();
    s.transfer_stock(&pads, &wh, &loc(&s, "Van"), q(1), "r", "t").unwrap();
    assert_eq!(s.get_stock(&pads, &wh).unwrap().reserved, q(5));
    s.cancel_reservation(&a.id, "p").unwrap();
    assert_eq!(s.get_stock(&pads, &wh).unwrap().reserved, q(3));
    s.cancel_reservation(&b.id, "p").unwrap();
    assert_eq!(s.get_stock(&pads, &wh).unwrap().reserved, 0);
}

#[test]
fn resolved_part_is_not_superseded() {
    let s = PartsStore::new();
    let old = pid(&s, "SEN-O2-1");
    let r = s.resolve_supersession(&old);
    assert_eq!(s.get_part(&old).unwrap().status, PartStatus::Superseded);
    assert_eq!(s.get_part(&r.current_part_id).unwrap().status, PartStatus::Active);
}

#[test]
fn every_identifier_issued_is_distinct() {
    let mut s = PartsStore::new();
    let pads = pid(&s, "BRK-PAD-22");
    let filter = pid(&s, "OIL-FLT-3");
    let wh = loc(&s, "Warehouse");
    let part = s.create_part("X-1", "", "", "ea", None, 1, 0, "t").id;
    let res = s.reserve_stock(&pads, &wh, q(1), "r", "t").unwrap().id;
    let m1 = s.receive_stock(&pads, &wh, q(1), "r", "t").unwrap().id;
    let m2 = s.issue_stock(&filter, &wh, q(1), "r", "t").unwrap().id;
    let l = s.create_location("L", "depot", "t").id;
    let sup = s.create_supplier("S", 1, "t").id;
    let mut ids: Vec<String> = vec![res.clone()];
    ids.extend(s.list_parts(None, None).into_iter().map(|p| p.id));
    for p in s.list_parts(None, None) {
        ids.extend(s.movements_for_part(&p.id, 100).into_iter().map(|m| m.id));
    }
    ids.extend(s.list_locations().into_iter().map(|l| l.id));
    ids.extend(s.list_suppliers().into_iter().map(|x| x.id));
    for new in [&part, &m1, &m2, &l, &sup] {
        assert!(ids.contains(new), "{new}");
    }
    let n = ids.len();
    ids.sort();
    ids.dedup();
    assert_eq!(ids.len(), n);
    // ten seeded identifiers, five seeded receipts, and the six new ones
    assert_eq!(n, 10 + 5 + 6);
}

#[test]
fn issue_on_a_day_then_forecast() {
    let mut s = PartsStore::new();
    let pads = pid(&s, "BRK-PAD-22");
    let wh = loc(&s, "Warehouse");
    let today = day(2024, 5, 20);
    s.issue_stock_on(&pads, &wh, q(4), "wo", "tech", today).unwrap();
    s.record_usage(&pads, today - 10, q(6), "tech").unwrap();
    let f = match s.forecast_demand(&pads, 30).unwrap() {
        Forecast::Estimate(f) => f,
        other => panic!("expected an estimate, got {other:?}"),
    };
    assert_eq!(f.usage_records, 2);
    assert_eq!(f.span_days, 10);
    assert_eq!(f.avg_daily_usage, q(1));
    assert_eq!(f.projected_demand_over_horizon, q(30));
    // 1 a day * (7 + sqrt 7) = 9.65 -> 10
    assert_eq!(f.recommended_reorder_point, q(10));
    assert_eq!(f.available_now, q(46));
    assert_eq!(f.days_of_cover, Some(460));
    assert!(!f.stockout_risk);
}

#[test]
fn negative_usage_has_no_cover_and_no_risk() {
    let mut s = PartsStore::new();
    let rotor = pid(&s, "BRK-ROT-9");
    s.record_usage(&rotor, day(2024, 1, 1), -q(5), "t").unwrap();
    let f = match s.forecast_demand(&rotor, 10).unwrap() {
        Forecast::Estimate(f) => f,
        other => panic!("expected an estimate, got {other:?}"),
    };
    assert_eq!(f.avg_daily_usage, -q(5));
    assert_eq!(f.days_of_cover, None);
    assert!(!f.stockout_risk);
}

#[test]
fn seeding_writes_its_audit_trail() {
    let s = PartsStore::new();
    let mut all = s.audit_log(1000);
    all.reverse();
    assert_eq!(all.len(), 21);
    assert!(all.iter().all(|e| e.actor == "system"));
    let got: Vec<(String, String)> = all.iter().map(|e| (e.action.clone(), e.detail.clone())).collect();
    let want: Vec<(&str, &str)> = vec![
        ("create_supplier", "SUP-1001"),
        ("create_supplier", "SUP-1002"),
        ("create_location", "LOC-1003"),
        ("create_location", "LOC-1004"),
        ("create_part", "BRK-ASSY-100"),
        ("create_part", "BRK-PAD-22"),
        ("create_part", "BRK-ROT-9"),
        ("create_part", "OIL-FLT-3"),
        ("create_part", "SEN-O2-1"),
        ("create_part", "SEN-O2-2"),
        ("add_bom_line", "PRT-1005 -> PRT-1007 x1"),
        ("add_bom_line", "PRT-1005 -> PRT-1006 x2"),
        ("add_supersession", "PRT-1009 -> PRT-1010"),
        ("set_stock_policy", "PRT-1006@LOC-1003 rop=20"),
        ("stock_movement", "Receipt PRT-1006 50"),
        ("set_stock_policy", "PRT-1007@LOC-1003 rop=10"),
        ("stock_movement", "Receipt PRT-1007 8"),
        ("set_stock_policy", "PRT-1008@LOC-1003 rop=30"),
        ("stock_movement", "Receipt PRT-1008 200"),
        ("stock_movement", "Receipt PRT-1008 12"),
        ("stock_movement", "Receipt PRT-1010 15"),
    ];
    let want: Vec<(String, String)> = want.into_iter().map(|(a, d)| (a.to_string(), d.to_string())).collect();
    assert_eq!(got, want);
}

#[test]
fn seeded_usage_is_dated_from_the_given_day() {
    let today = day(2024, 5, 20);
    let mut s = PartsStore::new_on(today);
    let filter = pid(&s, "OIL-FLT-3");
    // the seeded records run from 60 to 5 days before `today`
    s.record_usage(&filter, today - 61, q(1), "t").unwrap();
    match s.forecast_demand(&filter, 30).unwrap() {
        Forecast::Estimate(f) => assert_eq!(f.span_days, 56),
        other => panic!("expected an estimate, got {other:?}"),
    }
    s.record_usage(&filter, today, q(1), "t").unwrap();
    match s.forecast_demand(&filter, 30).unwrap() {
        Forecast::Estimate(f) => assert_eq!(f.span_days, 61),
        other => panic!("expected an estimate, got {other:?}"),
    }
}
