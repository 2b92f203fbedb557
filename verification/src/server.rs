//! The inputs of the platform's tools and their defaults.
//!
//! Quantities and costs are in thousandths (see `types::QTY_SCALE`), dates are
//! day numbers.

use vstd::prelude::*;
use crate::clock::{parse_date, parsed_iso_date, today_day, valid_day};
use crate::types::PartStatus;

verus! {

/// The default actor of a write.
pub fn dactor() -> (r: String)
    ensures
        r@ == "agent"@,
{
    "agent".to_owned()
}

/// The default unit of a part.
pub fn dea() -> (r: String)
    ensures
        r@ == "ea"@,
{
    "ea".to_owned()
}

/// The default lead time, in days.
pub fn dlt() -> (r: u32)
    ensures
        r == 14,
{
    14
}

/// The default number of rows of a listing.
pub fn dlimit() -> (r: usize)
    ensures
        r == 50,
{
    50
}

/// The default kind of a location.
pub fn dwh() -> (r: String)
    ensures
        r@ == "warehouse"@,
{
    "warehouse".to_owned()
}

/// The default reason of a receipt.
pub fn drecv() -> (r: String)
    ensures
        r@ == "receipt"@,
{
    "receipt".to_owned()
}

/// The default reason of an issue.
pub fn diss() -> (r: String)
    ensures
        r@ == "issue"@,
{
    "issue".to_owned()
}

/// The default reason of a transfer.
pub fn dxfer() -> (r: String)
    ensures
        r@ == "transfer"@,
{
    "transfer".to_owned()
}

/// Listings of reservations default to open ones only.
pub fn dtrue() -> (r: bool)
    ensures
        r,
{
    true
}

/// The default explosion multiplier: one unit, in thousandths.
pub fn done() -> (r: i64)
    ensures
        r == 1000,
{
    1000
}

/// The default forecast horizon, in days.
pub fn dhoriz() -> (r: u32)
    ensures
        r == 30,
{
    30
}

/// The date that an optional `YYYY-MM-DD` text names, if it parses.
pub fn date(s: &Option<String>) -> (r: Option<i32>)
    ensures
        match s {
            Some(x) => match r {
                Some(d) => parsed_iso_date(x@) == Some(d as int) && valid_day(d as int),
                None => parsed_iso_date(x@) is None,
            },
            None => r is None,
        },
{
    match s {
        Some(x) => parse_date(x.as_str()),
        None => None,
    }
}

/// Today's date in UTC.
pub fn today() -> (d: i32)
    ensures
        valid_day(d as int),
{
    today_day()
}

/// The date of a usage record: the given date when it parses, else `today`.
pub fn usage_date_on(s: &Option<String>, today: i32) -> (d: i32)
    requires
        valid_day(today as int),
    ensures
        valid_day(d as int),
        match s {
            Some(x) => match parsed_iso_date(x@) {
                Some(p) => d == p,
                None => d == today,
            },
            None => d == today,
        },
{
    match date(s) {
        Some(d) => d,
        None => today,
    }
}

/// The date of a usage record: the given date when it parses, else today's
/// date (from the clock).
pub fn usage_date(s: &Option<String>) -> (d: i32)
    ensures
        valid_day(d as int),
        match s {
            Some(x) => match parsed_iso_date(x@) {
                Some(p) => d == p,
                None => true,
            },
            None => true,
        },
{
    usage_date_on(s, today())
}

// ─── inputs ──────────────────────────────────────────────────────────────────

#[derive(Debug)]
pub struct CreatePartInput {
    pub part_number: String,
    pub name: String,
    pub category: String,
    pub unit: String,
    pub preferred_supplier_id: Option<String>,
    pub lead_time_days: u32,
    pub unit_cost: i64,
    pub actor: String,
}

#[derive(Debug)]
pub struct ResolvePartInput {
    pub part: String,
}

#[derive(Debug)]
pub struct PartIdInput {
    pub part_id: String,
}

#[derive(Debug)]
pub struct ListPartsInput {
    pub category: Option<String>,
    pub status: Option<PartStatus>,
}

#[derive(Debug)]
pub struct CreateLocationInput {
    pub name: String,
    pub kind: String,
    pub actor: String,
}

#[derive(Debug)]
pub struct CreateSupplierInput {
    pub name: String,
    pub lead_time_days: u32,
    pub actor: String,
}

#[derive(Debug)]
pub struct SetPolicyInput {
    pub part_id: String,
    pub location_id: String,
    pub reorder_point: i64,
    pub reorder_qty: i64,
    pub actor: String,
}

#[derive(Debug)]
pub struct StockAtInput {
    pub part_id: String,
    pub location_id: String,
}

#[derive(Debug)]
pub struct ReceiveInput {
    pub part_id: String,
    pub location_id: String,
    pub qty: i64,
    pub reason: String,
    pub actor: String,
}

#[derive(Debug)]
pub struct IssueInput {
    pub part_id: String,
    pub location_id: String,
    pub qty: i64,
    pub reason: String,
    pub actor: String,
}

#[derive(Debug)]
pub struct TransferInput {
    pub part_id: String,
    pub from_location_id: String,
    pub to_location_id: String,
    pub qty: i64,
    pub reason: String,
    pub actor: String,
}

#[derive(Debug)]
pub struct AdjustInput {
    pub part_id: String,
    pub location_id: String,
    pub delta: i64,
    pub reason: String,
    pub actor: String,
}

#[derive(Debug)]
pub struct MovementsInput {
    pub part_id: String,
    pub limit: usize,
}

#[derive(Debug)]
pub struct ReserveInput {
    pub part_id: String,
    pub location_id: String,
    pub qty: i64,
    pub reference: String,
    pub actor: String,
}

#[derive(Debug)]
pub struct ReservationIdInput {
    pub reservation_id: String,
    pub actor: String,
}

#[derive(Debug)]
pub struct ListReservationsInput {
    pub part_id: Option<String>,
    pub open_only: bool,
}

#[derive(Debug)]
pub struct BomLineInput {
    pub parent_id: String,
    pub child_id: String,
    pub qty: i64,
    pub actor: String,
}

#[derive(Debug)]
pub struct ExplodeInput {
    pub parent_id: String,
    pub multiplier: i64,
}

#[derive(Debug)]
pub struct SupersessionInput {
    pub from_id: String,
    pub to_id: String,
    pub note: String,
    pub actor: String,
}

#[derive(Debug)]
pub struct ReorderInput {
    pub location_id: Option<String>,
}

#[derive(Debug)]
pub struct RecordUsageInput {
    pub part_id: String,
    pub date: Option<String>,
    pub qty: i64,
    pub actor: String,
}

#[derive(Debug)]
pub struct ForecastInput {
    pub part_id: String,
    pub horizon_days: u32,
}

#[derive(Debug)]
pub struct AuditLogInput {
    pub limit: usize,
}

#[derive(Debug)]
pub struct EmptyInput {}

} // verus!
