//! Integration tests: stock movements + oversell guard, reservations, BOM
//! explode + cycle guard, where-used, supersession resolution, reorder
//! suggestions, and usage-based demand forecasting.

use chrono::{Datelike, Duration, Utc};
use mcp_parts::store::analytics::Forecast;
use mcp_parts::store::PartsStore;
use mcp_parts::types::{PartStatus, QTY_SCALE};

fn store() -> PartsStore {
    PartsStore::new()
}

/// `units` whole units, in thousandths.
fn q(units: i64) -> i64 {
    units * QTY_SCALE
}

fn pid(s: &PartsStore, pn: &str) -> String {
    s.resolve_part(pn).unwrap().id
}

fn loc(s: &PartsStore, name: &str) -> String {
    s.list_locations().into_iter().find(|l| l.name.contains(name)).unwrap().id
}

#[test]
fn seed_loads() {
    let s = store();
    assert!(s.list_parts(None, None).len() >= 6);
    assert_eq!(s.list_locations().len(), 2);
    assert_eq!(s.list_suppliers().len(), 2);
}

#[test]
fn receive_issue_and_oversell_guard() {
    let mut s = store();
    let pads = pid(&s, "BRK-PAD-22");
    let wh = loc(&s, "Warehouse");
    let before = s.get_stock(&pads, &wh).unwrap().on_hand; // 50 seeded
    s.issue_stock(&pads, &wh, q(10), "wo-1", "tech").unwrap();
    assert_eq!(s.get_stock(&pads, &wh).unwrap().on_hand, before - q(10));
    // oversell rejected
    let err = s.issue_stock(&pads, &wh, q(9999), "wo-2", "tech").unwrap_err();
    assert!(err.contains("insufficient"), "got: {err}");
}

#[test]
fn transfer_moves_between_locations() {
    let mut s = store();
    let filter = pid(&s, "OIL-FLT-3");
    let wh = loc(&s, "Warehouse");
    let van = loc(&s, "Van");
    let van_before = s.get_stock(&filter, &van).unwrap().on_hand;
    s.transfer_stock(&filter, &wh, &van, q(10), "restock van", "driver").unwrap();
    assert_eq!(s.get_stock(&filter, &van).unwrap().on_hand, van_before + q(10));
}

#[test]
fn adjust_cannot_go_negative() {
    let mut s = store();
    let rotor = pid(&s, "BRK-ROT-9");
    let wh = loc(&s, "Warehouse");
    assert!(s.adjust_stock(&rotor, &wh, -q(9999), "count", "auditor").is_err());
    let ok = s.adjust_stock(&rotor, &wh, q(2), "found stock", "auditor").unwrap();
    assert_eq!(ok.qty, q(2));
}

#[test]
fn reservation_reduces_available_and_releases_on_cancel() {
    let mut s = store();
    let pads = pid(&s, "BRK-PAD-22");
    let wh = loc(&s, "Warehouse");
    let avail0 = s.available_total(&pads);
    let r = s.reserve_stock(&pads, &wh, q(5), "wo-9", "planner").unwrap();
    assert_eq!(s.available_total(&pads), avail0 - q(5));
    // can't issue more than available after reservation
    let item = s.get_stock(&pads, &wh).unwrap();
    assert_eq!(item.reserved, q(5));
    s.cancel_reservation(&r.id, "planner").unwrap();
    assert_eq!(s.available_total(&pads), avail0);
}

#[test]
fn bom_explode_and_cycle_guard() {
    let mut s = store();
    let brake = pid(&s, "BRK-ASSY-100");
    // seeded: 1 rotor + 2 pad sets
    let ex = s.explode_bom(&brake, q(3)).unwrap();
    let comps = &ex.components;
    let pad_row = comps.iter().find(|c| c.part_number == "BRK-PAD-22").unwrap();
    assert_eq!(pad_row.total_qty, q(6)); // 2 * 3
    let rotor_row = comps.iter().find(|c| c.part_number == "BRK-ROT-9").unwrap();
    assert_eq!(rotor_row.total_qty, q(3));
    // cycle guard: rotor cannot be parent of brake (brake is its ancestor)
    let rotor = pid(&s, "BRK-ROT-9");
    assert!(s.add_bom_line(&rotor, &brake, q(1), "t").is_err());
}

#[test]
fn where_used_lists_parents() {
    let s = store();
    let pads = pid(&s, "BRK-PAD-22");
    let wu = s.where_used(&pads);
    assert_eq!(wu.used_in_count, 1);
    assert_eq!(wu.used_in[0].part_number, "BRK-ASSY-100");
}

#[test]
fn supersession_resolves_to_current() {
    let s = store();
    let old = pid(&s, "SEN-O2-1");
    let new = pid(&s, "SEN-O2-2");
    let r = s.resolve_supersession(&old);
    assert_eq!(r.superseded, true);
    assert_eq!(r.current_part_id, new);
    // old part marked superseded
    assert_eq!(s.get_part(&old).unwrap().status, PartStatus::Superseded);
}

#[test]
fn reorder_suggestions_flags_low_stock() {
    let s = store();
    // seeded rotor: on_hand 8, ROP 10 -> should appear
    let sug = s.reorder_suggestions(None);
    let rows = &sug.suggestions;
    assert!(rows.iter().any(|r| r.part_number == "BRK-ROT-9"), "rotor should be suggested: {sug:?}");
}

#[test]
fn forecast_uses_usage_history() {
    let s = store();
    let filter = pid(&s, "OIL-FLT-3");
    let f = match s.forecast_demand(&filter, 30).unwrap() {
        Forecast::Estimate(f) => f,
        other => panic!("expected an estimate, got {other:?}"),
    };
    assert!(f.avg_daily_usage > 0);
    assert!(f.recommended_reorder_point > 0);
    assert!(f.usage_records >= 12);
}

#[test]
fn issue_records_usage_for_forecast() {
    let mut s = store();
    let pads = pid(&s, "BRK-PAD-22");
    let wh = loc(&s, "Warehouse");
    // no usage history for pads yet -> forecast notes none
    let f0 = s.forecast_demand(&pads, 30).unwrap();
    assert!(matches!(f0, Forecast::NoUsageHistory { .. }), "got {f0:?}");
    // issuing creates a usage record
    s.issue_stock(&pads, &wh, q(4), "wo", "tech").unwrap();
    let ten_days_ago = (Utc::now().date_naive() - Duration::days(10)).num_days_from_ce();
    s.record_usage(&pads, ten_days_ago, q(6), "tech").unwrap();
    let f1 = match s.forecast_demand(&pads, 30).unwrap() {
        Forecast::Estimate(f) => f,
        other => panic!("expected an estimate, got {other:?}"),
    };
    assert!(f1.avg_daily_usage > 0);
}
