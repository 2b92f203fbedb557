//! Reorder suggestions, usage history, demand forecasting and the audit log.

use vstd::prelude::*;
use super::{audited, has_part, part_pos, PartsStore, StoreView};
use super::bom::{clamp_i64, pn_of, round_div};
use super::catalog::text_opt;
use super::laws::law_reorder_suggests_due_rows;
use super::messages::{part_not_found, part_not_found_msg, usage_detail, usage_detail_msg};
use super::stock::{available_sum, min_i64};
use crate::clock::valid_day;
use crate::demand::{reorder_point, reorder_point_units};
use crate::order::{arranged, lay_out, order_by_text, text_sorted_as, Duplicate};
use crate::text::{chars_of, text_le};
use crate::types::{AuditEntry, Part, StockItem, UsageRecord};

verus! {

// ─── reorder suggestions ─────────────────────────────────────────────────────

/// A stock row is due for reorder: it has a reorder point and its available
/// quantity (on hand less reserved) is at or below it.
pub open spec fn reorder_due(s: StockItem) -> bool {
    s.reorder_point > 0 && s.on_hand - s.reserved <= s.reorder_point
}

/// A row passes the location filter, when given, and is due for reorder.
pub open spec fn suggested(s: StockItem, location_id: Option<Seq<char>>) -> bool {
    &&& match location_id {
        Some(l) => s.location_id@ == l,
        None => true,
    }
    &&& reorder_due(s)
}

/// The quantity to order: what brings the available quantity (on hand less
/// reserved) up to the reorder quantity, the level to replenish up to; none
/// where it is there already (capped at `i64::MAX`).
pub open spec fn suggested_order_qty(s: StockItem) -> int {
    let want = s.reorder_qty - (s.on_hand - s.reserved);
    min_i64(if want > 0 { want } else { 0 })
}

/// The lead time of the part with identifier `id`, or 0.
pub open spec fn lead_of(parts: Seq<Part>, id: Seq<char>) -> u32 {
    if has_part(parts, id) {
        parts[part_pos(parts, id)].lead_time_days
    } else {
        0
    }
}

/// One reorder suggestion.
#[derive(Debug)]
pub struct ReorderRow {
    pub part_id: String,
    pub part_number: String,
    pub location_id: String,
    /// On hand less reserved, in thousandths.
    pub available: i64,
    pub reorder_point: i64,
    pub suggested_order_qty: i64,
    pub lead_time_days: u32,
}

impl Duplicate for ReorderRow {
    fn duplicate(&self) -> (r: Self) {
        ReorderRow {
            part_id: self.part_id.clone(),
            part_number: self.part_number.clone(),
            location_id: self.location_id.clone(),
            available: self.available,
            reorder_point: self.reorder_point,
            suggested_order_qty: self.suggested_order_qty,
            lead_time_days: self.lead_time_days,
        }
    }
}

/// Reorder suggestions, ordered by part number.
#[derive(Debug)]
pub struct ReorderSuggestions {
    pub count: usize,
    pub suggestions: Vec<ReorderRow>,
}

pub open spec fn reorder_key(parts: Seq<Part>, s: StockItem) -> Seq<char> {
    pn_of(parts, s.part_id@)
}

pub open spec fn reorder_row_matches(parts: Seq<Part>, r: ReorderRow, s: StockItem) -> bool {
    &&& r.part_id@ == s.part_id@
    &&& r.part_number@ == pn_of(parts, s.part_id@)
    &&& r.location_id@ == s.location_id@
    &&& r.available == s.on_hand - s.reserved
    &&& r.reorder_point == s.reorder_point
    &&& r.suggested_order_qty == suggested_order_qty(s)
    &&& r.lead_time_days == lead_of(parts, s.part_id@)
}

// ─── usage and forecast ──────────────────────────────────────────────────────

/// A usage record is of the part `part_id`.
pub open spec fn usage_pred(part_id: Seq<char>) -> spec_fn(UsageRecord) -> bool {
    |u: UsageRecord| u.part_id@ == part_id
}

/// The usage records of a part.
pub open spec fn usage_of(usage: Seq<UsageRecord>, part_id: Seq<char>) -> Seq<UsageRecord> {
    usage.filter(usage_pred(part_id))
}

/// The quantities used, summed in order and held within `i64` at each step.
pub open spec fn usage_total(us: Seq<UsageRecord>) -> int
    decreases us.len(),
{
    if us.len() == 0 {
        0
    } else {
        clamp_i64(usage_total(us.drop_last()) + us.last().qty)
    }
}

/// The earliest date among the records (of a non-empty history).
pub open spec fn first_date(us: Seq<UsageRecord>) -> int
    decreases us.len(),
{
    if us.len() <= 1 {
        us[0].date as int
    } else if (us.last().date as int) < first_date(us.drop_last()) {
        us.last().date as int
    } else {
        first_date(us.drop_last())
    }
}

/// The latest date among the records (of a non-empty history).
pub open spec fn last_date(us: Seq<UsageRecord>) -> int
    decreases us.len(),
{
    if us.len() <= 1 {
        us[0].date as int
    } else if (us.last().date as int) > last_date(us.drop_last()) {
        us.last().date as int
    } else {
        last_date(us.drop_last())
    }
}

/// The days between the earliest and the latest use, at least one.
pub open spec fn span_days(us: Seq<UsageRecord>) -> int {
    if last_date(us) - first_date(us) >= 1 {
        last_date(us) - first_date(us)
    } else {
        1
    }
}

/// A demand forecast from usage history. Quantities are in thousandths.
#[derive(Debug)]
pub struct DemandForecast {
    pub part_id: String,
    pub part_number: String,
    pub usage_records: usize,
    /// Total quantity used over the history.
    pub total_usage: i64,
    /// Days between the earliest and the latest use (at least one).
    pub span_days: i64,
    /// Total usage over the span, rounded to the nearest thousandth.
    pub avg_daily_usage: i64,
    pub lead_time_days: u32,
    /// Average daily usage times the horizon, rounded to the nearest
    /// thousandth.
    pub projected_demand_over_horizon: i64,
    pub horizon_days: u32,
    /// The least whole number of units that covers the demand over the lead
    /// time plus a safety stock of `sqrt(lead time)` days of usage, in
    /// thousandths.
    pub recommended_reorder_point: i64,
    pub available_now: i64,
    /// Days the available stock lasts at the average daily usage, in tenths
    /// of a day, rounded; `None` when usage is not positive.
    pub days_of_cover: Option<i64>,
    /// The available stock runs out within the lead time.
    pub stockout_risk: bool,
}

/// The outcome of a forecast for a catalogued part.
#[derive(Debug)]
pub enum Forecast {
    /// The part has no usage history.
    NoUsageHistory { part_id: String },
    Estimate(DemandForecast),
}

/// The forecast's figures, from the total `t`, the span `s`, the available
/// stock `a`, the lead time `l` and the horizon `h`.
pub open spec fn forecast_figures(f: DemandForecast, t: int, s: int, a: int, l: int, h: int) -> bool {
    &&& f.total_usage == t
    &&& f.span_days == s
    &&& f.avg_daily_usage == round_div(t, s)
    &&& f.projected_demand_over_horizon == clamp_i64(round_div(t * h, s))
    &&& f.recommended_reorder_point == clamp_i64(1000 * reorder_point(t, s, l))
    &&& f.available_now == a
    &&& f.days_of_cover == if t > 0 { Some(clamp_i64(round_div(10 * a * s, t)) as i64) } else { None::<i64> }
    &&& f.stockout_risk == (t > 0 && a * s < l * t)
}

/// What a forecast for `part_id` over `horizon` days gives on the store `v`:
/// `None` for an unknown part, no estimate without usage history, and else
/// the figures of the part's usage records.
pub open spec fn forecast_result(v: StoreView, part_id: Seq<char>, horizon: u32, r: Option<Forecast>) -> bool {
    match r {
        None => !has_part(v.parts, part_id),
        Some(Forecast::NoUsageHistory { part_id: p }) => {
            &&& has_part(v.parts, part_id)
            &&& p@ == part_id
            &&& usage_of(v.usage, part_id).len() == 0
        },
        Some(Forecast::Estimate(f)) => {
            let us = usage_of(v.usage, part_id);
            let part = v.parts[part_pos(v.parts, part_id)];
            &&& has_part(v.parts, part_id)
            &&& us.len() > 0
            &&& f.part_id@ == part_id
            &&& f.part_number@ == part.part_number@
            &&& f.usage_records == us.len()
            &&& f.lead_time_days == part.lead_time_days
            &&& f.horizon_days == horizon
            &&& forecast_figures(f, usage_total(us), span_days(us), min_i64(available_sum(v.stock, part_id)),
                part.lead_time_days as int, horizon as int)
        },
    }
}

/// Why a usage record is refused, if it is.
pub open spec fn usage_refusal(v: StoreView, part_id: Seq<char>) -> Option<Seq<char>> {
    if !has_part(v.parts, part_id) {
        Some(part_not_found(part_id))
    } else {
        None
    }
}

fn div_round(n: i128, d: i128) -> (r: i128)
    requires
        d > 0,
        -0x1000_0000_0000_0000_0000_0000_0000_0000 <= n <= 0x1000_0000_0000_0000_0000_0000_0000_0000,
        d <= 0x1000_0000_0000_0000_0000_0000_0000_0000,
    ensures
        r == round_div(n as int, d as int),
{
    if n >= 0 {
        (n + d / 2) / d
    } else {
        -((-n + d / 2) / d)
    }
}

fn clamp_to_i64(x: i128) -> (r: i64)
    ensures
        r == clamp_i64(x as int),
{
    if x > i64::MAX as i128 {
        i64::MAX
    } else if x < i64::MIN as i128 {
        i64::MIN
    } else {
        x as i64
    }
}

/// Dividing by at least one, with rounding, never grows a magnitude.
proof fn lemma_round_div_shrinks(n: int, d: int)
    requires
        d >= 1,
    ensures
        n >= 0 ==> 0 <= round_div(n, d) <= n,
        n < 0 ==> n <= round_div(n, d) <= 0,
{
    if n >= 0 {
        assert(0 <= (n + d / 2) / d <= n) by (nonlinear_arith)
            requires
                n >= 0,
                d >= 1,
        {
            assert(d / 2 < d);
            if n >= 1 {
                assert(n + d / 2 < (n + 1) * d);
            }
        }
    } else {
        let m = -n;
        assert(0 <= (m + d / 2) / d <= m) by (nonlinear_arith)
            requires
                m >= 1,
                d >= 1,
        {
            assert(d / 2 < d);
            assert(m + d / 2 < (m + 1) * d);
        }
    }
}

impl PartsStore {
    /// Reorder suggestions: every stock row (at the location, when given) at
    /// or below its reorder point, with the quantity to order, ordered by
    /// part number.
    pub fn reorder_suggestions(&self, location_id: Option<&str>) -> (r: ReorderSuggestions)
        requires
            self.inv(),
        ensures
            r.count == self@.stock.filter(|s: StockItem| suggested(s, text_opt(location_id))).len(),
            text_sorted_as(
                r.suggestions@,
                self@.stock.filter(|s: StockItem| suggested(s, text_opt(location_id))),
                |s: StockItem| reorder_key(self@.parts, s),
                |row: ReorderRow, s: StockItem| reorder_row_matches(self@.parts, row, s),
            ),
            forall|k: int| 0 <= k < r.suggestions.len() ==> {
                &&& (#[trigger] r.suggestions@[k]).reorder_point > 0
                &&& r.suggestions@[k].available <= r.suggestions@[k].reorder_point
                &&& match text_opt(location_id) {
                    Some(l) => r.suggestions@[k].location_id@ == l,
                    None => true,
                }
            },
            forall|i: int|
                0 <= i < self@.stock.len() && (#[trigger] self@.stock[i]).reorder_point > 0
                    && self@.stock[i].on_hand - self@.stock[i].reserved <= self@.stock[i].reorder_point
                    && match text_opt(location_id) {
                        Some(l) => self@.stock[i].location_id@ == l,
                        None => true,
                    } ==> exists|k: int|
                    0 <= k < r.suggestions.len() && (#[trigger] r.suggestions@[k]).part_id@ == self@.stock[i].part_id@
                        && r.suggestions@[k].location_id@ == self@.stock[i].location_id@
                        && r.suggestions@[k].available == self@.stock[i].on_hand - self@.stock[i].reserved,
            forall|a: int, b: int| 0 <= a < b < r.suggestions.len()
                ==> text_le((#[trigger] r.suggestions@[a]).part_number@, (#[trigger] r.suggestions@[b]).part_number@),
    {
        let ghost pred = |s: StockItem| suggested(s, text_opt(location_id));
        let key: Option<String> = match location_id {
            Some(l) => Some(l.to_owned()),
            None => None,
        };
        let mut picked: Vec<StockItem> = Vec::new();
        let mut rows: Vec<ReorderRow> = Vec::new();
        let mut sort_keys: Vec<Vec<char>> = Vec::new();
        let mut i: usize = 0;
        while i < self.stock.len()
            invariant
                self.inv(),
                match key {
                    Some(k) => location_id matches Some(l) && k@ == l@,
                    None => location_id is None,
                },
                pred == (|s: StockItem| suggested(s, text_opt(location_id))),
                i <= self.stock.len(),
                picked@ == self@.stock.take(i as int).filter(pred),
                rows.len() == picked.len(),
                sort_keys.len() == picked.len(),
                forall|m: int| 0 <= m < rows.len() ==> reorder_row_matches(self@.parts, #[trigger] rows@[m], picked@[m]),
                forall|m: int| 0 <= m < rows.len() ==> (#[trigger] sort_keys@[m])@ == reorder_key(self@.parts, picked@[m]),
            decreases self.stock.len() - i,
        {
            proof {
                reveal_with_fuel(Seq::<_>::filter, 1);
                assert(self@.stock.take(i + 1).drop_last() =~= self@.stock.take(i as int));
                assert(self@.stock_ok());
            }
            let s = &self.stock[i];
            let at_location = match &key {
                Some(k) => s.location_id == *k,
                None => true,
            };
            let available = s.on_hand - s.reserved;
            if at_location && s.reorder_point > 0 && available <= s.reorder_point {
                let to_target: i128 = s.reorder_qty as i128 - available as i128;
                let want: i128 = if to_target > 0 { to_target } else { 0 };
                let suggest: i64 = if want > i64::MAX as i128 { i64::MAX } else { want as i64 };
                let (pn, lead) = match self.find_part(s.part_id.as_str()) {
                    Some(j) => (self.parts[j].part_number.clone(), self.parts[j].lead_time_days),
                    None => (String::new(), 0u32),
                };
                sort_keys.push(chars_of(pn.as_str()));
                rows.push(ReorderRow {
                    part_id: s.part_id.clone(),
                    part_number: pn,
                    location_id: s.location_id.clone(),
                    available,
                    reorder_point: s.reorder_point,
                    suggested_order_qty: suggest,
                    lead_time_days: lead,
                });
                picked.push(s.clone());
            }
            i = i + 1;
        }
        assert(self@.stock.take(self.stock.len() as int) =~= self@.stock);
        assert(sort_keys@.map_values(|k: Vec<char>| k@) =~= picked@.map_values(|s: StockItem| reorder_key(self@.parts, s)));
        let idx = order_by_text(&sort_keys);
        let suggestions = lay_out(&rows, &idx);
        assert(arranged(suggestions@, picked@, idx@, |row: ReorderRow, s: StockItem| reorder_row_matches(self@.parts, row, s)));
        let r = ReorderSuggestions { count: rows.len(), suggestions };
        proof {
            law_reorder_suggests_due_rows(self@, text_opt(location_id), r.suggestions@);
        }
        r
    }

    /// Records a usage (consumption) of a part on a date; feeds forecasting.
    pub fn record_usage(&mut self, part_id: &str, date: i32, qty: i64, actor: &str) -> (r: Result<UsageRecord, String>)
        requires
            old(self).inv(),
            valid_day(date as int),
        ensures
            final(self).inv(),
            match r {
                Err(e) => usage_refusal(old(self)@, part_id@) == Some(e@) && final(self)@ == old(self)@,
                Ok(u) => {
                    &&& usage_refusal(old(self)@, part_id@) is None
                    &&& u.part_id@ == part_id@
                    &&& u.date == date
                    &&& u.qty == qty
                    &&& final(self)@ == (StoreView {
                        usage: old(self)@.usage.push(u),
                        audit: final(self)@.audit,
                        ..old(self)@
                    })
                    &&& audited(old(self)@.audit, final(self)@.audit, actor@, "record_usage"@,
                        usage_detail(part_id@, qty as int, date as int))
                },
            },
    {
        if !self.part_exists(part_id) {
            return Err(part_not_found_msg(part_id));
        }
        let u = UsageRecord { part_id: part_id.to_owned(), date, qty };
        self.usage.push(u.clone());
        proof {
            old(self)@.lemma_ids_ok_frame(self@);
            old(self)@.lemma_links_frame(self@);
        }
        let detail = usage_detail_msg(part_id, qty, date);
        self.audit(actor, "record_usage", detail);
        Ok(u)
    }

    /// The usage records of a part, in order.
    fn usage_records(&self, part_id: &str) -> (r: Vec<UsageRecord>)
        ensures
            r@ == usage_of(self@.usage, part_id@),
    {
        let ghost pred = usage_pred(part_id@);
        let key = part_id.to_owned();
        let mut out: Vec<UsageRecord> = Vec::new();
        let mut i: usize = 0;
        while i < self.usage.len()
            invariant
                key@ == part_id@,
                pred == usage_pred(part_id@),
                i <= self.usage.len(),
                out@ == self@.usage.take(i as int).filter(pred),
            decreases self.usage.len() - i,
        {
            proof {
                reveal_with_fuel(Seq::<_>::filter, 1);
                assert(self@.usage.take(i + 1).drop_last() =~= self@.usage.take(i as int));
            }
            if self.usage[i].part_id == key {
                out.push(self.usage[i].clone());
            }
            i = i + 1;
        }
        assert(self@.usage.take(self.usage.len() as int) =~= self@.usage);
        out
    }

    /// Demand forecast from usage history: total and average daily usage
    /// over the span of the history, demand projected over the horizon,
    /// days of cover at the current availability, and whether that cover
    /// falls short of the lead time. `None` for an unknown part.
    pub fn forecast_demand(&self, part_id: &str, horizon_days: u32) -> (r: Option<Forecast>)
        requires
            self.inv(),
        ensures
            forecast_result(self@, part_id@, horizon_days, r),
    {
        let j = match self.find_part(part_id) {
            Some(j) => j,
            None => {
                return None;
            },
        };
        let records = self.usage_records(part_id);
        if records.len() == 0 {
            return Some(Forecast::NoUsageHistory { part_id: part_id.to_owned() });
        }
        let mut total: i64 = 0;
        let mut first: i32 = records[0].date;
        let mut last: i32 = records[0].date;
        let mut k: usize = 0;
        assert(records@.take(0) =~= Seq::<UsageRecord>::empty());
        while k < records.len()
            invariant
                records.len() > 0,
                k <= records.len(),
                total == usage_total(records@.take(k as int)),
                k > 0 ==> first == first_date(records@.take(k as int)),
                k > 0 ==> last == last_date(records@.take(k as int)),
                k == 0 ==> first == records@[0].date && last == records@[0].date,
            decreases records.len() - k,
        {
            proof {
                assert(records@.take(k + 1).drop_last() =~= records@.take(k as int));
            }
            let d = records[k].date;
            total = clamp_to_i64(total as i128 + records[k].qty as i128);
            if k > 0 {
                if d < first {
                    first = d;
                }
                if d > last {
                    last = d;
                }
            }
            k = k + 1;
        }
        assert(records@.take(records.len() as int) =~= records@);
        let gap: i64 = last as i64 - first as i64;
        let span: i64 = if gap >= 1 { gap } else { 1 };
        let lead = self.parts[j].lead_time_days;
        let available = self.available_total(part_id);
        let t = total as i128;
        let s = span as i128;
        let a = available as i128;
        let avg = div_round(t, s) as i64;
        proof {
            lemma_round_div_shrinks(t as int, s as int);
            assert(-0x1_0000_0000 < s < 0x1_0000_0000);
            assert(-0x1000_0000_0000_0000_0000_0000_0000_0000 <= t * (horizon_days as i128) <= 0x1000_0000_0000_0000_0000_0000_0000_0000)
                by (nonlinear_arith)
                requires -0x8000_0000_0000_0000 <= t <= 0x8000_0000_0000_0000, 0 <= horizon_days <= 0xffff_ffff;
            assert(0 <= 10 * a * s <= 0x1000_0000_0000_0000_0000_0000_0000_0000) by (nonlinear_arith)
                requires 0 <= a <= 0x8000_0000_0000_0000, 1 <= s < 0x1_0000_0000;
            assert(0 <= a * s <= 0x1000_0000_0000_0000_0000_0000_0000_0000) by (nonlinear_arith)
                requires 0 <= a <= 0x8000_0000_0000_0000, 1 <= s < 0x1_0000_0000;
            assert(-0x1000_0000_0000_0000_0000_0000_0000_0000 <= (lead as i128) * t <= 0x1000_0000_0000_0000_0000_0000_0000_0000)
                by (nonlinear_arith)
                requires -0x8000_0000_0000_0000 <= t <= 0x8000_0000_0000_0000, 0 <= lead <= 0xffff_ffff;
        }
        let projected = clamp_to_i64(div_round(t * horizon_days as i128, s));
        let cover = if total > 0 { Some(clamp_to_i64(div_round(10 * a * s, t))) } else { None };
        let risk = total > 0 && a * s < (lead as i128) * t;
        let rop_units = reorder_point_units(total, span, lead);
        let rop = clamp_to_i64(1000 * rop_units);
        Some(Forecast::Estimate(DemandForecast {
            part_id: part_id.to_owned(),
            part_number: self.parts[j].part_number.clone(),
            usage_records: records.len(),
            total_usage: total,
            span_days: span,
            avg_daily_usage: avg,
            lead_time_days: lead,
            projected_demand_over_horizon: projected,
            horizon_days,
            recommended_reorder_point: rop,
            available_now: available,
            days_of_cover: cover,
            stockout_risk: risk,
        }))
    }

    /// The most recent audit entries, newest first, at most `limit` of them.
    pub fn audit_log(&self, limit: usize) -> (r: Vec<AuditEntry>)
        ensures
            r@.len() == if limit < self@.audit.len() { limit as int } else { self@.audit.len() as int },
            forall|k: int| 0 <= k < r@.len() ==> #[trigger] r@[k] == self@.audit[self@.audit.len() - 1 - k],
    {
        let n = self.audit_log.len();
        let mut out: Vec<AuditEntry> = Vec::new();
        let mut k: usize = 0;
        while k < n && k < limit
            invariant
                n == self@.audit.len(),
                k <= n,
                k <= limit,
                out.len() == k,
                forall|m: int| 0 <= m < k ==> #[trigger] out@[m] == self@.audit[n - 1 - m],
            decreases n - k,
        {
            out.push(self.audit_log[n - 1 - k].clone());
            k = k + 1;
        }
        out
    }
}

} // verus!
