//! Tests of the library's free functions: tool defaults, dates, identifiers,
//! texts, orderings and the reorder-point arithmetic.

use chrono::{Datelike, NaiveDate, Utc};
use mcp_parts::clock::{date_text, parse_date, MAX_DAY, MIN_DAY};
use mcp_parts::demand::reorder_point_units;
use mcp_parts::order::{order_by_text, order_newest_first};
use mcp_parts::server::{
    dactor, date, dea, dhoriz, diss, dlimit, dlt, done, drecv, dtrue, dwh, dxfer, today, usage_date,
    usage_date_on,
};
use mcp_parts::store::messages::{
    bom_cycle_msg, insufficient_issue_msg, kind_text, movement_detail_msg, negative_adjustment_msg,
    no_stock_msg, reservation_not_open_msg, usage_detail_msg,
};
use mcp_parts::text::{chars_of, make_id, push_qty, same_ignoring_ascii_case, text_less};
use mcp_parts::types::{MovementKind, ReservationStatus};

fn day(y: i32, m: u32, d: u32) -> i32 {
    NaiveDate::from_ymd_opt(y, m, d).unwrap().num_days_from_ce()
}

fn qty(q: i64) -> String {
    let mut s = String::new();
    push_qty(&mut s, q);
    s
}

#[test]
fn tool_defaults() {
    assert_eq!(dactor(), "agent");
    assert_eq!(dea(), "ea");
    assert_eq!(dlt(), 14);
    assert_eq!(dlimit(), 50);
    assert_eq!(dwh(), "warehouse");
    assert_eq!(drecv(), "receipt");
    assert_eq!(diss(), "issue");
    assert_eq!(dxfer(), "transfer");
    assert!(dtrue());
    assert_eq!(done(), 1000);
    assert_eq!(dhoriz(), 30);
}

#[test]
fn dates_parse_or_fall_back_to_today() {
    assert_eq!(date(&Some("2024-03-01".to_string())), Some(day(2024, 3, 1)));
    assert_eq!(date(&Some("0001-01-01".to_string())), Some(1));
    assert_eq!(date(&Some("2024-02-30".to_string())), None);
    assert_eq!(date(&Some("yesterday".to_string())), None);
    assert_eq!(date(&None), None);
    assert_eq!(parse_date("1999-12-31"), Some(day(1999, 12, 31)));
    let now = Utc::now().date_naive().num_days_from_ce();
    let t = today();
    assert!(t == now || t == now + 1);
    assert_eq!(usage_date(&Some("2020-07-04".to_string())), day(2020, 7, 4));
    let fallback = usage_date(&Some("nonsense".to_string()));
    assert!(fallback == now || fallback == now + 1);
    assert!(MIN_DAY <= t && t <= MAX_DAY);
}

#[test]
fn dates_render_as_iso_text() {
    assert_eq!(date_text(day(2024, 3, 1)), "2024-03-01");
    assert_eq!(date_text(1), "0001-01-01");
    assert_eq!(date_text(day(1970, 1, 1)), "1970-01-01");
    assert!(NaiveDate::from_num_days_from_ce_opt(MIN_DAY).is_some());
    assert!(NaiveDate::from_num_days_from_ce_opt(MAX_DAY).is_some());
    assert!(NaiveDate::from_num_days_from_ce_opt(MAX_DAY + 1).is_none());
    assert!(NaiveDate::from_num_days_from_ce_opt(MIN_DAY - 1).is_none());
}

#[test]
fn identifiers_render_prefix_and_number() {
    assert_eq!(make_id("PRT", 1005), "PRT-1005");
    assert_eq!(make_id("MOV", 0), "MOV-0");
    assert_eq!(make_id("", u64::MAX), "-18446744073709551615");
}

#[test]
fn quantities_render_like_decimals() {
    assert_eq!(qty(0), "0");
    assert_eq!(qty(40_000), "40");
    assert_eq!(qty(2_500), "2.5");
    assert_eq!(qty(125), "0.125");
    assert_eq!(qty(100), "0.1");
    assert_eq!(qty(1_010), "1.01");
    assert_eq!(qty(-9_999_000), "-9999");
    assert_eq!(qty(-1), "-0.001");
    assert_eq!(qty(i64::MIN), "-9223372036854775.808");
    assert_eq!(qty(i64::MAX), "9223372036854775.807");
}

#[test]
fn refusal_and_detail_texts() {
    assert_eq!(
        insufficient_issue_msg(37_750, 40_000, 50_000, 12_250),
        "insufficient available stock: 37.75 < 40 (on_hand 50, reserved 12.25)"
    );
    assert_eq!(negative_adjustment_msg(8_000, -9_999_000), "adjustment would drive on_hand negative (8 + -9999)");
    assert_eq!(no_stock_msg("P", "L"), "No stock of P at L");
    assert_eq!(bom_cycle_msg("A", "B"), "adding B under A would create a BOM cycle");
    assert_eq!(reservation_not_open_msg("RSV-1", ReservationStatus::Fulfilled), "reservation RSV-1 is Fulfilled");
    assert_eq!(kind_text(MovementKind::Transfer), "Transfer");
    assert_eq!(movement_detail_msg(MovementKind::Issue, "P", 4_000), "Issue P 4");
    assert_eq!(usage_detail_msg("P", 6_500, day(2024, 3, 1)), "P 6.5@2024-03-01");
}

#[test]
fn ascii_case_comparison() {
    assert!(same_ignoring_ascii_case("brk-PAD-22", "BRK-pad-22"));
    assert!(!same_ignoring_ascii_case("brk", "brake"));
    assert!(!same_ignoring_ascii_case("a-1", "a_1"));
    assert!(same_ignoring_ascii_case("", ""));
    assert!(!same_ignoring_ascii_case("é", "É"));
}

#[test]
fn text_order_is_lexicographic() {
    assert!(text_less(&chars_of("BRK-PAD-22"), &chars_of("BRK-ROT-9")));
    assert!(text_less(&chars_of("BRK"), &chars_of("BRK-A")));
    assert!(!text_less(&chars_of("b"), &chars_of("B")));
    assert!(!text_less(&chars_of("same"), &chars_of("same")));
}

#[test]
fn orderings_are_stable() {
    let keys = vec![chars_of("b"), chars_of("a"), chars_of("b"), chars_of("a")];
    assert_eq!(order_by_text(&keys), vec![1, 3, 0, 2]);
    assert_eq!(order_newest_first(&vec![5, 9, 5, 1, 9]), vec![1, 4, 0, 2, 3]);
    assert!(order_by_text(&Vec::new()).is_empty());
}

#[test]
fn reorder_point_arithmetic() {
    // 84 units over 55 days, lead time 7: ceil(84/55 * (7 + sqrt 7)) = 15
    assert_eq!(reorder_point_units(84_000, 55, 7), 15);
    // exact squares land on the integer: 1 a day * (4 + 2) = 6
    assert_eq!(reorder_point_units(1_000, 1, 4), 6);
    assert_eq!(reorder_point_units(1_001, 1, 4), 7);
    assert_eq!(reorder_point_units(0, 10, 30), 0);
    assert_eq!(reorder_point_units(5_000, 1, 0), 0);
    // negative usage rounds towards zero: ceil(-6) = -6, ceil(-6.006) = -6
    assert_eq!(reorder_point_units(-1_000, 1, 4), -6);
    assert_eq!(reorder_point_units(-1_001, 1, 4), -6);
    // 2 a day * (2 + sqrt 2) = 6.83 -> 7
    assert_eq!(reorder_point_units(2_000, 1, 2), 7);
    let big = reorder_point_units(i64::MAX, 1, u32::MAX);
    assert!(big > 0);
}

#[test]
fn usage_date_falls_back_to_the_given_day() {
    let today = day(2024, 5, 20);
    assert_eq!(usage_date_on(&Some("2024-03-01".to_string()), today), day(2024, 3, 1));
    assert_eq!(usage_date_on(&Some("03/01/2024".to_string()), today), today);
    assert_eq!(usage_date_on(&None, today), today);
}
