//! The texts of the store's refusals and audit details.

use vstd::prelude::*;
use crate::clock::{date_text, iso_date_text, valid_day};
use crate::text::{push_qty, qty_text};
use crate::types::{MovementKind, ReservationStatus};

verus! {

pub open spec fn part_not_found(id: Seq<char>) -> Seq<char> {
    "Part not found: "@ + id
}

pub open spec fn location_not_found(id: Seq<char>) -> Seq<char> {
    "Location not found: "@ + id
}

pub open spec fn no_stock(part_id: Seq<char>, location_id: Seq<char>) -> Seq<char> {
    "No stock of "@ + part_id + " at "@ + location_id
}

/// The refusal of a quantity that a stock row cannot hold.
pub open spec fn out_of_range() -> Seq<char> {
    "quantity out of range"@
}

/// The name of a movement kind, as `Debug` writes it.
pub open spec fn kind_name(kind: MovementKind) -> Seq<char> {
    match kind {
        MovementKind::Receipt => "Receipt"@,
        MovementKind::Issue => "Issue"@,
        MovementKind::Transfer => "Transfer"@,
        MovementKind::Adjustment => "Adjustment"@,
    }
}

/// The audit detail of a stock movement.
pub open spec fn movement_detail(kind: MovementKind, part_id: Seq<char>, qty: int) -> Seq<char> {
    kind_name(kind) + " "@ + part_id + " "@ + qty_text(qty)
}

pub open spec fn insufficient_issue(available: int, qty: int, on_hand: int, reserved: int) -> Seq<char> {
    "insufficient available stock: "@ + qty_text(available) + " < "@ + qty_text(qty) + " (on_hand "@
        + qty_text(on_hand) + ", reserved "@ + qty_text(reserved) + ")"@
}

pub open spec fn insufficient_transfer(available: int, qty: int) -> Seq<char> {
    "insufficient available stock to transfer: "@ + qty_text(available) + " < "@ + qty_text(qty)
}

pub open spec fn insufficient_reserve(available: int, qty: int) -> Seq<char> {
    "insufficient available stock to reserve: "@ + qty_text(available) + " < "@ + qty_text(qty)
}

pub open spec fn negative_adjustment(on_hand: int, delta: int) -> Seq<char> {
    "adjustment would drive on_hand negative ("@ + qty_text(on_hand) + " + "@ + qty_text(delta) + ")"@
}

/// The audit detail of a stock policy change.
pub open spec fn policy_detail(part_id: Seq<char>, location_id: Seq<char>, reorder_point: int) -> Seq<char> {
    part_id + "@"@ + location_id + " rop="@ + qty_text(reorder_point)
}

pub fn insufficient_issue_msg(available: i64, qty: i64, on_hand: i64, reserved: i64) -> (r: String)
    ensures
        r@ == insufficient_issue(available as int, qty as int, on_hand as int, reserved as int),
{
    let mut s = "insufficient available stock: ".to_owned();
    push_qty(&mut s, available);
    s.append(" < ");
    push_qty(&mut s, qty);
    s.append(" (on_hand ");
    push_qty(&mut s, on_hand);
    s.append(", reserved ");
    push_qty(&mut s, reserved);
    s.append(")");
    s
}

pub fn insufficient_transfer_msg(available: i64, qty: i64) -> (r: String)
    ensures
        r@ == insufficient_transfer(available as int, qty as int),
{
    let mut s = "insufficient available stock to transfer: ".to_owned();
    push_qty(&mut s, available);
    s.append(" < ");
    push_qty(&mut s, qty);
    s
}

pub fn insufficient_reserve_msg(available: i64, qty: i64) -> (r: String)
    ensures
        r@ == insufficient_reserve(available as int, qty as int),
{
    let mut s = "insufficient available stock to reserve: ".to_owned();
    push_qty(&mut s, available);
    s.append(" < ");
    push_qty(&mut s, qty);
    s
}

pub fn negative_adjustment_msg(on_hand: i64, delta: i64) -> (r: String)
    ensures
        r@ == negative_adjustment(on_hand as int, delta as int),
{
    let mut s = "adjustment would drive on_hand negative (".to_owned();
    push_qty(&mut s, on_hand);
    s.append(" + ");
    push_qty(&mut s, delta);
    s.append(")");
    s
}

pub fn policy_detail_msg(part_id: &str, location_id: &str, reorder_point: i64) -> (r: String)
    ensures
        r@ == policy_detail(part_id@, location_id@, reorder_point as int),
{
    let mut s = part_id.to_owned();
    s.append("@");
    s.append(location_id);
    s.append(" rop=");
    push_qty(&mut s, reorder_point);
    s
}

pub open spec fn reservation_not_found(id: Seq<char>) -> Seq<char> {
    "Reservation not found: "@ + id
}

/// The name of a reservation status, as `Debug` writes it.
pub open spec fn status_name(status: ReservationStatus) -> Seq<char> {
    match status {
        ReservationStatus::Open => "Open"@,
        ReservationStatus::Fulfilled => "Fulfilled"@,
        ReservationStatus::Cancelled => "Cancelled"@,
    }
}

pub open spec fn reservation_not_open(id: Seq<char>, status: ReservationStatus) -> Seq<char> {
    "reservation "@ + id + " is "@ + status_name(status)
}

/// The audit detail of a reservation.
pub open spec fn reservation_detail(id: Seq<char>, part_id: Seq<char>, qty: int) -> Seq<char> {
    id + " "@ + part_id + " "@ + qty_text(qty)
}

pub fn reservation_not_found_msg(id: &str) -> (r: String)
    ensures
        r@ == reservation_not_found(id@),
{
    let mut s = "Reservation not found: ".to_owned();
    s.append(id);
    s
}

pub fn reservation_not_open_msg(id: &str, status: ReservationStatus) -> (r: String)
    ensures
        r@ == reservation_not_open(id@, status),
{
    let mut s = "reservation ".to_owned();
    s.append(id);
    s.append(" is ");
    let name = match status {
        ReservationStatus::Open => "Open",
        ReservationStatus::Fulfilled => "Fulfilled",
        ReservationStatus::Cancelled => "Cancelled",
    };
    s.append(name);
    s
}

pub fn reservation_detail_msg(id: &str, part_id: &str, qty: i64) -> (r: String)
    ensures
        r@ == reservation_detail(id@, part_id@, qty as int),
{
    let mut s = id.to_owned();
    s.append(" ");
    s.append(part_id);
    s.append(" ");
    push_qty(&mut s, qty);
    s
}

pub open spec fn parent_not_found(id: Seq<char>) -> Seq<char> {
    "Parent part not found: "@ + id
}

pub open spec fn child_not_found(id: Seq<char>) -> Seq<char> {
    "Child part not found: "@ + id
}

pub open spec fn bom_cycle(parent_id: Seq<char>, child_id: Seq<char>) -> Seq<char> {
    "adding "@ + child_id + " under "@ + parent_id + " would create a BOM cycle"@
}

/// The audit detail of a bill-of-materials line.
pub open spec fn bom_detail(parent_id: Seq<char>, child_id: Seq<char>, qty: int) -> Seq<char> {
    parent_id + " -> "@ + child_id + " x"@ + qty_text(qty)
}

pub fn parent_not_found_msg(id: &str) -> (r: String)
    ensures
        r@ == parent_not_found(id@),
{
    let mut s = "Parent part not found: ".to_owned();
    s.append(id);
    s
}

pub fn child_not_found_msg(id: &str) -> (r: String)
    ensures
        r@ == child_not_found(id@),
{
    let mut s = "Child part not found: ".to_owned();
    s.append(id);
    s
}

pub fn bom_cycle_msg(parent_id: &str, child_id: &str) -> (r: String)
    ensures
        r@ == bom_cycle(parent_id@, child_id@),
{
    let mut s = "adding ".to_owned();
    s.append(child_id);
    s.append(" under ");
    s.append(parent_id);
    s.append(" would create a BOM cycle");
    s
}

pub fn bom_detail_msg(parent_id: &str, child_id: &str, qty: i64) -> (r: String)
    ensures
        r@ == bom_detail(parent_id@, child_id@, qty as int),
{
    let mut s = parent_id.to_owned();
    s.append(" -> ");
    s.append(child_id);
    s.append(" x");
    push_qty(&mut s, qty);
    s
}

/// The audit detail of a supersession.
pub open spec fn link_detail(from_id: Seq<char>, to_id: Seq<char>) -> Seq<char> {
    from_id + " -> "@ + to_id
}

pub fn link_detail_msg(from_id: &str, to_id: &str) -> (r: String)
    ensures
        r@ == link_detail(from_id@, to_id@),
{
    let mut s = from_id.to_owned();
    s.append(" -> ");
    s.append(to_id);
    s
}

/// The audit detail of a usage record.
pub open spec fn usage_detail(part_id: Seq<char>, qty: int, date: int) -> Seq<char> {
    part_id + " "@ + qty_text(qty) + "@"@ + iso_date_text(date)
}

pub fn usage_detail_msg(part_id: &str, qty: i64, date: i32) -> (r: String)
    requires
        valid_day(date as int),
    ensures
        r@ == usage_detail(part_id@, qty as int, date as int),
{
    let mut s = part_id.to_owned();
    s.append(" ");
    push_qty(&mut s, qty);
    s.append("@");
    let d = date_text(date);
    s.append(d.as_str());
    s
}

pub fn part_not_found_msg(id: &str) -> (r: String)
    ensures
        r@ == part_not_found(id@),
{
    let mut s = "Part not found: ".to_owned();
    s.append(id);
    s
}

pub fn location_not_found_msg(id: &str) -> (r: String)
    ensures
        r@ == location_not_found(id@),
{
    let mut s = "Location not found: ".to_owned();
    s.append(id);
    s
}

pub fn no_stock_msg(part_id: &str, location_id: &str) -> (r: String)
    ensures
        r@ == no_stock(part_id@, location_id@),
{
    let mut s = "No stock of ".to_owned();
    s.append(part_id);
    s.append(" at ");
    s.append(location_id);
    s
}

pub fn out_of_range_msg() -> (r: String)
    ensures
        r@ == out_of_range(),
{
    "quantity out of range".to_owned()
}

pub fn kind_text(kind: MovementKind) -> (r: &'static str)
    ensures
        r@ == kind_name(kind),
{
    match kind {
        MovementKind::Receipt => "Receipt",
        MovementKind::Issue => "Issue",
        MovementKind::Transfer => "Transfer",
        MovementKind::Adjustment => "Adjustment",
    }
}

pub fn movement_detail_msg(kind: MovementKind, part_id: &str, qty: i64) -> (r: String)
    ensures
        r@ == movement_detail(kind, part_id@, qty as int),
{
    let mut s = kind_text(kind).to_owned();
    s.append(" ");
    s.append(part_id);
    s.append(" ");
    push_qty(&mut s, qty);
    s
}

} // verus!
