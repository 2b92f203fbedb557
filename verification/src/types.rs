//! The domain model: catalog parts, locations, stock rows with reorder policy,
//! bill-of-materials lines, supersession links, suppliers, stock movements,
//! reservations, usage history and the audit trail.
//!
//! Quantities (`on_hand`, `qty`, reorder levels, `unit_cost`) are counted in
//! thousandths (`QTY_SCALE` of them make one unit); `created_at`, `updated_at`
//! and `at` are microseconds since the Unix epoch; a usage `date` is a day
//! number (0001-01-01 is day 1).

use vstd::prelude::*;
use crate::order::Duplicate;

verus! {

/// Thousandths per unit of quantity.
pub const QTY_SCALE: i64 = 1000;

/// A copy of an optional text.
pub fn copy_opt_text(o: &Option<String>) -> (r: Option<String>)
    ensures
        r == *o,
{
    match o {
        Some(s) => Some(s.clone()),
        None => None,
    }
}

// ─── parts ───────────────────────────────────────────────────────────────────

#[derive(Clone, Copy, Debug, PartialEq, Eq, Structural)]
pub enum PartStatus {
    Active,
    /// Superseded by a newer part (see `SupersessionLink`).
    Superseded,
    /// No longer supplied, no replacement.
    Obsolete,
}

#[derive(Debug)]
pub struct Part {
    pub id: String,
    /// Manufacturer/stock part number.
    pub part_number: String,
    pub name: String,
    pub category: String,
    pub unit: String,
    pub status: PartStatus,
    /// Default supplier and lead time for replenishment math.
    pub preferred_supplier_id: Option<String>,
    pub lead_time_days: u32,
    /// Cost of one unit, in thousandths of the currency unit.
    pub unit_cost: i64,
    pub created_at: i64,
}

impl Duplicate for Part {
    fn duplicate(&self) -> (r: Self) {
        self.clone()
    }
}

impl Clone for Part {
    fn clone(&self) -> (r: Self)
        ensures
            r == *self,
    {
        Part {
            id: self.id.clone(),
            part_number: self.part_number.clone(),
            name: self.name.clone(),
            category: self.category.clone(),
            unit: self.unit.clone(),
            status: self.status,
            preferred_supplier_id: copy_opt_text(&self.preferred_supplier_id),
            lead_time_days: self.lead_time_days,
            unit_cost: self.unit_cost,
            created_at: self.created_at,
        }
    }
}

// ─── locations & stock ───────────────────────────────────────────────────────

#[derive(Debug)]
pub struct Location {
    pub id: String,
    pub name: String,
    /// warehouse | depot | van | line-side | service-center
    pub kind: String,
    pub created_at: i64,
}

impl Duplicate for Location {
    fn duplicate(&self) -> (r: Self) {
        self.clone()
    }
}

impl Clone for Location {
    fn clone(&self) -> (r: Self)
        ensures
            r == *self,
    {
        Location {
            id: self.id.clone(),
            name: self.name.clone(),
            kind: self.kind.clone(),
            created_at: self.created_at,
        }
    }
}

/// Stock of a part at a location, with reorder policy.
#[derive(Debug)]
pub struct StockItem {
    pub part_id: String,
    pub location_id: String,
    pub on_hand: i64,
    /// Quantity reserved (committed but not yet issued).
    pub reserved: i64,
    pub reorder_point: i64,
    /// Target level to replenish up to.
    pub reorder_qty: i64,
    pub updated_at: i64,
}

impl Duplicate for StockItem {
    fn duplicate(&self) -> (r: Self) {
        self.clone()
    }
}

impl Clone for StockItem {
    fn clone(&self) -> (r: Self)
        ensures
            r == *self,
    {
        StockItem {
            part_id: self.part_id.clone(),
            location_id: self.location_id.clone(),
            on_hand: self.on_hand,
            reserved: self.reserved,
            reorder_point: self.reorder_point,
            reorder_qty: self.reorder_qty,
            updated_at: self.updated_at,
        }
    }
}

// ─── BOM / where-used ────────────────────────────────────────────────────────

/// A bill-of-materials edge: `parent` part is built from `qty` of `child` part.
#[derive(Debug)]
pub struct BomLine {
    pub parent_id: String,
    pub child_id: String,
    pub qty: i64,
}

impl Duplicate for BomLine {
    fn duplicate(&self) -> (r: Self) {
        self.clone()
    }
}

impl Clone for BomLine {
    fn clone(&self) -> (r: Self)
        ensures
            r == *self,
    {
        BomLine { parent_id: self.parent_id.clone(), child_id: self.child_id.clone(), qty: self.qty }
    }
}

// ─── supersession ────────────────────────────────────────────────────────────

#[derive(Debug)]
pub struct SupersessionLink {
    /// Old part.
    pub from_id: String,
    /// Replacement part.
    pub to_id: String,
    pub note: String,
}

impl Duplicate for SupersessionLink {
    fn duplicate(&self) -> (r: Self) {
        self.clone()
    }
}

impl Clone for SupersessionLink {
    fn clone(&self) -> (r: Self)
        ensures
            r == *self,
    {
        SupersessionLink { from_id: self.from_id.clone(), to_id: self.to_id.clone(), note: self.note.clone() }
    }
}

// ─── suppliers ───────────────────────────────────────────────────────────────

#[derive(Debug)]
pub struct Supplier {
    pub id: String,
    pub name: String,
    pub lead_time_days: u32,
    pub created_at: i64,
}

impl Duplicate for Supplier {
    fn duplicate(&self) -> (r: Self) {
        self.clone()
    }
}

impl Clone for Supplier {
    fn clone(&self) -> (r: Self)
        ensures
            r == *self,
    {
        Supplier {
            id: self.id.clone(),
            name: self.name.clone(),
            lead_time_days: self.lead_time_days,
            created_at: self.created_at,
        }
    }
}

// ─── stock movements ─────────────────────────────────────────────────────────

#[derive(Clone, Copy, Debug, PartialEq, Eq, Structural)]
pub enum MovementKind {
    /// Stock in (purchase/return).
    Receipt,
    /// Stock out (consumed/installed).
    Issue,
    /// Move between locations.
    Transfer,
    /// Cycle-count / correction (can be +/-).
    Adjustment,
}

#[derive(Debug)]
pub struct Movement {
    pub id: String,
    pub part_id: String,
    pub kind: MovementKind,
    pub from_location_id: Option<String>,
    pub to_location_id: Option<String>,
    /// Signed at the affected location(s); always recorded as the requested qty.
    pub qty: i64,
    pub reason: String,
    pub actor: String,
    pub at: i64,
}

impl Duplicate for Movement {
    fn duplicate(&self) -> (r: Self) {
        self.clone()
    }
}

impl Clone for Movement {
    fn clone(&self) -> (r: Self)
        ensures
            r == *self,
    {
        Movement {
            id: self.id.clone(),
            part_id: self.part_id.clone(),
            kind: self.kind,
            from_location_id: copy_opt_text(&self.from_location_id),
            to_location_id: copy_opt_text(&self.to_location_id),
            qty: self.qty,
            reason: self.reason.clone(),
            actor: self.actor.clone(),
            at: self.at,
        }
    }
}

// ─── reservations ────────────────────────────────────────────────────────────

#[derive(Clone, Copy, Debug, PartialEq, Eq, Structural)]
pub enum ReservationStatus {
    Open,
    Fulfilled,
    Cancelled,
}

#[derive(Debug)]
pub struct Reservation {
    pub id: String,
    pub part_id: String,
    pub location_id: String,
    pub qty: i64,
    pub status: ReservationStatus,
    /// e.g. a work order or asset id.
    pub reference: String,
    pub created_by: String,
    pub created_at: i64,
}

impl Duplicate for Reservation {
    fn duplicate(&self) -> (r: Self) {
        self.clone()
    }
}

impl Clone for Reservation {
    fn clone(&self) -> (r: Self)
        ensures
            r == *self,
    {
        Reservation {
            id: self.id.clone(),
            part_id: self.part_id.clone(),
            location_id: self.location_id.clone(),
            qty: self.qty,
            status: self.status,
            reference: self.reference.clone(),
            created_by: self.created_by.clone(),
            created_at: self.created_at,
        }
    }
}

// ─── usage history (for forecasting) ─────────────────────────────────────────

#[derive(Debug)]
pub struct UsageRecord {
    pub part_id: String,
    /// Day number of the date of use.
    pub date: i32,
    pub qty: i64,
}

impl Duplicate for UsageRecord {
    fn duplicate(&self) -> (r: Self) {
        self.clone()
    }
}

impl Clone for UsageRecord {
    fn clone(&self) -> (r: Self)
        ensures
            r == *self,
    {
        UsageRecord { part_id: self.part_id.clone(), date: self.date, qty: self.qty }
    }
}

// ─── audit trail ───────────────────────────────────────────────────────────

#[derive(Debug)]
pub struct AuditEntry {
    pub at: i64,
    pub actor: String,
    pub action: String,
    pub detail: String,
}

impl Duplicate for AuditEntry {
    fn duplicate(&self) -> (r: Self) {
        self.clone()
    }
}

impl Clone for AuditEntry {
    fn clone(&self) -> (r: Self)
        ensures
            r == *self,
    {
        AuditEntry {
            at: self.at,
            actor: self.actor.clone(),
            action: self.action.clone(),
            detail: self.detail.clone(),
        }
    }
}

} // verus!
