//! Catalog, locations and suppliers.

use vstd::prelude::*;
use super::{
    has_location, has_part, has_supplier, location_prefix, part_pos, part_prefix, supplier_prefix,
    audited, PartsStore, StoreView,
};
use super::laws::law_listing_applies_both_filters;
use crate::clock::now_micros;
use crate::order::{lay_out, order_by_text, sorted_by_text};
use crate::text::{chars_of, eq_ignore_ascii_case, id_text, same_ignoring_ascii_case, text_le};
use crate::types::{copy_opt_text, Location, Part, PartStatus, Supplier};

verus! {

/// The part with identifier `id`, if the catalog holds one.
pub open spec fn part_with_id(parts: Seq<Part>, id: Seq<char>) -> Option<Part> {
    if has_part(parts, id) {
        Some(parts[part_pos(parts, id)])
    } else {
        None
    }
}

/// Position of the first part (in catalog order) whose part number equals
/// `pn` ignoring ASCII case, or -1.
pub open spec fn first_pn_pos(parts: Seq<Part>, pn: Seq<char>) -> int {
    if exists|i: int| 0 <= i < parts.len() && eq_ignore_ascii_case(parts[i].part_number@, pn) {
        choose|i: int|
            0 <= i < parts.len() && eq_ignore_ascii_case(parts[i].part_number@, pn) && forall|j: int|
                0 <= j < i ==> !eq_ignore_ascii_case(#[trigger] parts[j].part_number@, pn)
    } else {
        -1
    }
}

/// The part named by an identifier or, failing that, by a part number.
pub open spec fn resolved_part(parts: Seq<Part>, key: Seq<char>) -> Option<Part> {
    if has_part(parts, key) {
        Some(parts[part_pos(parts, key)])
    } else if first_pn_pos(parts, key) >= 0 {
        Some(parts[first_pn_pos(parts, key)])
    } else {
        None
    }
}

/// `v1` is `v0` after the part `p` was added to the catalog: `p` carries a
/// new identifier and the given particulars, is active, and the audit trail
/// records its creation.
pub open spec fn part_created(
    v0: StoreView,
    v1: StoreView,
    p: Part,
    part_number: Seq<char>,
    name: Seq<char>,
    category: Seq<char>,
    unit: Seq<char>,
    supplier_id: Option<String>,
    lead_time_days: u32,
    unit_cost: i64,
    actor: Seq<char>,
) -> bool {
    &&& p.id@ == id_text(part_prefix(), v0.seq + 1)
    &&& p.part_number@ == part_number
    &&& p.name@ == name
    &&& p.category@ == category
    &&& p.unit@ == unit
    &&& p.status == PartStatus::Active
    &&& p.preferred_supplier_id == supplier_id
    &&& p.lead_time_days == lead_time_days
    &&& p.unit_cost == unit_cost
    &&& v1 == (StoreView { parts: v0.parts.push(p), audit: v1.audit, seq: v0.seq + 1, ..v0 })
    &&& audited(v0.audit, v1.audit, actor, "create_part"@, part_number)
}

pub open spec fn text_opt(o: Option<&str>) -> Option<Seq<char>> {
    match o {
        Some(s) => Some(s@),
        None => None,
    }
}

/// A part passes the listing filters: category (ignoring ASCII case) and
/// status, each when given.
pub open spec fn part_listed(p: Part, category: Option<Seq<char>>, status: Option<PartStatus>) -> bool {
    &&& match category {
        Some(c) => eq_ignore_ascii_case(p.category@, c),
        None => true,
    }
    &&& match status {
        Some(s) => p.status == s,
        None => true,
    }
}

pub open spec fn part_number_key(p: Part) -> Seq<char> {
    p.part_number@
}

pub open spec fn location_name_key(l: Location) -> Seq<char> {
    l.name@
}

pub open spec fn supplier_name_key(s: Supplier) -> Seq<char> {
    s.name@
}

impl StoreView {
    pub proof fn lemma_ids_ok_bump(self)
        requires
            self.ids_ok(),
        ensures
            (StoreView { seq: self.seq + 1, ..self }).ids_ok(),
            forall|i: int|
                0 <= i < self.parts.len() ==> #[trigger] self.parts[i].id@ != id_text(
                    part_prefix(),
                    self.seq + 1,
                ),
            forall|i: int|
                0 <= i < self.locations.len() ==> #[trigger] self.locations[i].id@ != id_text(
                    location_prefix(),
                    self.seq + 1,
                ),
            forall|i: int|
                0 <= i < self.suppliers.len() ==> #[trigger] self.suppliers[i].id@ != id_text(
                    supplier_prefix(),
                    self.seq + 1,
                ),
            forall|i: int|
                0 <= i < self.reservations.len() ==> #[trigger] self.reservations[i].id@ != id_text(
                    super::reservation_prefix(),
                    self.seq + 1,
                ),
            forall|i: int|
                0 <= i < self.movements.len() ==> #[trigger] self.movements[i].id@ != id_text(
                    super::movement_prefix(),
                    self.seq + 1,
                ),
    {
        reveal(StoreView::ids_ok);
        let n = StoreView { seq: self.seq + 1, ..self };
        assert forall|i: int| 0 <= i < n.parts.len() implies super::fresh_id(#[trigger] n.parts[i].id@, part_prefix(), n.seq) by {
            super::lemma_fresh_after_issue(self.parts[i].id@, part_prefix(), self.seq);
        }
        assert forall|i: int| 0 <= i < n.locations.len() implies super::fresh_id(#[trigger] n.locations[i].id@, location_prefix(), n.seq) by {
            super::lemma_fresh_after_issue(self.locations[i].id@, location_prefix(), self.seq);
        }
        assert forall|i: int| 0 <= i < n.suppliers.len() implies super::fresh_id(#[trigger] n.suppliers[i].id@, supplier_prefix(), n.seq) by {
            super::lemma_fresh_after_issue(self.suppliers[i].id@, supplier_prefix(), self.seq);
        }
        assert forall|i: int| 0 <= i < n.reservations.len() implies super::fresh_id(#[trigger] n.reservations[i].id@, super::reservation_prefix(), n.seq) by {
            super::lemma_fresh_after_issue(self.reservations[i].id@, super::reservation_prefix(), self.seq);
        }
        assert forall|i: int| 0 <= i < self.parts.len() implies #[trigger] self.parts[i].id@ != id_text(part_prefix(), self.seq + 1) by {
            super::lemma_fresh_after_issue(self.parts[i].id@, part_prefix(), self.seq);
        }
        assert forall|i: int| 0 <= i < self.locations.len() implies #[trigger] self.locations[i].id@ != id_text(location_prefix(), self.seq + 1) by {
            super::lemma_fresh_after_issue(self.locations[i].id@, location_prefix(), self.seq);
        }
        assert forall|i: int| 0 <= i < self.suppliers.len() implies #[trigger] self.suppliers[i].id@ != id_text(supplier_prefix(), self.seq + 1) by {
            super::lemma_fresh_after_issue(self.suppliers[i].id@, supplier_prefix(), self.seq);
        }
        assert forall|i: int| 0 <= i < self.reservations.len() implies #[trigger] self.reservations[i].id@ != id_text(super::reservation_prefix(), self.seq + 1) by {
            super::lemma_fresh_after_issue(self.reservations[i].id@, super::reservation_prefix(), self.seq);
        }
        assert forall|i: int| 0 <= i < n.movements.len() implies super::fresh_id(#[trigger] n.movements[i].id@, super::movement_prefix(), n.seq) by {
            super::lemma_fresh_after_issue(self.movements[i].id@, super::movement_prefix(), self.seq);
        }
        assert forall|i: int| 0 <= i < self.movements.len() implies #[trigger] self.movements[i].id@ != id_text(super::movement_prefix(), self.seq + 1) by {
            super::lemma_fresh_after_issue(self.movements[i].id@, super::movement_prefix(), self.seq);
        }
    }
}

impl PartsStore {
    /// Position of the part with identifier `id`.
    pub(crate) fn find_part(&self, id: &str) -> (r: Option<usize>)
        requires
            self.inv(),
        ensures
            match r {
                Some(i) => i < self@.parts.len() && i == part_pos(self@.parts, id@),
                None => !has_part(self@.parts, id@),
            },
    {
        let key = id.to_owned();
        let mut i: usize = 0;
        while i < self.parts.len()
            invariant
                self.inv(),
                key@ == id@,
                i <= self.parts.len(),
                forall|j: int| 0 <= j < i ==> self.parts@[j].id@ != id@,
            decreases self.parts.len() - i,
        {
            if self.parts[i].id == key {
                proof {
                    reveal(StoreView::ids_ok);
                    let p = part_pos(self@.parts, id@);
                    assert(has_part(self@.parts, id@));
                    assert(self@.parts[p].id@ == self@.parts[i as int].id@);
                }
                return Some(i);
            }
            i = i + 1;
        }
        None
    }

    pub fn part_exists(&self, id: &str) -> (r: bool)
        requires
            self.inv(),
        ensures
            r == has_part(self@.parts, id@),
    {
        self.find_part(id).is_some()
    }

    pub fn location_exists(&self, id: &str) -> (r: bool)
        ensures
            r == has_location(self@.locations, id@),
    {
        let key = id.to_owned();
        let mut i: usize = 0;
        while i < self.locations.len()
            invariant
                key@ == id@,
                i <= self.locations.len(),
                forall|j: int| 0 <= j < i ==> self.locations@[j].id@ != id@,
            decreases self.locations.len() - i,
        {
            if self.locations[i].id == key {
                return true;
            }
            i = i + 1;
        }
        false
    }

    // ─── catalog ─────────────────────────────────────────────────────────

    /// Adds an active part to the catalog under a new identifier.
    pub fn create_part(
        &mut self,
        part_number: &str,
        name: &str,
        category: &str,
        unit: &str,
        supplier_id: Option<String>,
        lead_time_days: u32,
        unit_cost: i64,
        actor: &str,
    ) -> (p: Part)
        requires
            old(self).inv(),
            old(self)@.seq < u64::MAX,
        ensures
            final(self).inv(),
            part_created(old(self)@, final(self)@, p, part_number@, name@, category@, unit@, supplier_id,
                lead_time_days, unit_cost, actor@),
    {
        proof {
            self@.lemma_ids_ok_bump();
        }
        let id = self.next_id("PRT");
        let p = Part {
            id,
            part_number: part_number.to_owned(),
            name: name.to_owned(),
            category: category.to_owned(),
            unit: unit.to_owned(),
            status: PartStatus::Active,
            preferred_supplier_id: supplier_id,
            lead_time_days,
            unit_cost,
            created_at: now_micros(),
        };
        self.parts.push(p.clone());
        self.audit(actor, "create_part", part_number.to_owned());
        proof {
            super::lemma_issued_is_fresh(part_prefix(), self@.seq);
            reveal(StoreView::ids_ok);
            assert(self@.parts.drop_last() =~= old(self)@.parts);
            assert(self@.parts.last() == p);
            assert(forall|i: int| 0 <= i < old(self)@.parts.len() ==> (#[trigger] old(self)@.parts[i]).id@ != p.id@);
            old(self)@.lemma_stock_ok_kept(self@);
        }
        p
    }

    pub fn get_part(&self, id: &str) -> (r: Option<Part>)
        requires
            self.inv(),
        ensures
            r == part_with_id(self@.parts, id@),
    {
        match self.find_part(id) {
            Some(i) => Some(self.parts[i].clone()),
            None => None,
        }
    }

    /// Resolves a part by identifier or, failing that, by part number
    /// (ignoring ASCII case; the first such part in catalog order).
    pub fn resolve_part(&self, id_or_pn: &str) -> (r: Option<Part>)
        requires
            self.inv(),
        ensures
            r == resolved_part(self@.parts, id_or_pn@),
    {
        if let Some(i) = self.find_part(id_or_pn) {
            return Some(self.parts[i].clone());
        }
        let mut i: usize = 0;
        while i < self.parts.len()
            invariant
                !has_part(self@.parts, id_or_pn@),
                i <= self.parts.len(),
                forall|j: int| 0 <= j < i ==> !eq_ignore_ascii_case(#[trigger] self@.parts[j].part_number@, id_or_pn@),
            decreases self.parts.len() - i,
        {
            if same_ignoring_ascii_case(self.parts[i].part_number.as_str(), id_or_pn) {
                proof {
                    let ps = self@.parts;
                    let k = id_or_pn@;
                    assert(eq_ignore_ascii_case(ps[i as int].part_number@, k) && forall|j: int|
                        0 <= j < i ==> !eq_ignore_ascii_case(#[trigger] ps[j].part_number@, k));
                    let f = first_pn_pos(ps, k);
                    assert(0 <= f);
                    if f < i {
                        assert(!eq_ignore_ascii_case(ps[f].part_number@, k));
                    } else if f > i {
                        assert(!eq_ignore_ascii_case(ps[i as int].part_number@, k));
                    }
                }
                return Some(self.parts[i].clone());
            }
            i = i + 1;
        }
        None
    }

    /// The parts that pass the filters, ordered by part number.
    pub fn list_parts(&self, category: Option<&str>, status: Option<PartStatus>) -> (r: Vec<Part>)
        ensures
            sorted_by_text(
                r@,
                self@.parts.filter(|p: Part| part_listed(p, text_opt(category), status)),
                |p: Part| part_number_key(p),
            ),
            forall|k: int| 0 <= k < r.len() ==> {
                &&& match category {
                    Some(c) => eq_ignore_ascii_case((#[trigger] r@[k]).category@, c@),
                    None => true,
                }
                &&& match status {
                    Some(s) => r@[k].status == s,
                    None => true,
                }
            },
            forall|i: int|
                0 <= i < self@.parts.len() && match category {
                    Some(c) => eq_ignore_ascii_case((#[trigger] self@.parts[i]).category@, c@),
                    None => true,
                } && match status {
                    Some(s) => self@.parts[i].status == s,
                    None => true,
                } ==> exists|k: int| 0 <= k < r.len() && #[trigger] r@[k] == self@.parts[i],
            forall|a: int, b: int| 0 <= a < b < r.len() ==> text_le((#[trigger] r@[a]).part_number@, (#[trigger] r@[b]).part_number@),
    {
        let ghost pred = |p: Part| part_listed(p, text_opt(category), status);
        let mut rows: Vec<Part> = Vec::new();
        let mut keys: Vec<Vec<char>> = Vec::new();
        let mut i: usize = 0;
        while i < self.parts.len()
            invariant
                i <= self.parts.len(),
                pred == (|p: Part| part_listed(p, text_opt(category), status)),
                rows@ == self@.parts.take(i as int).filter(pred),
                keys.len() == rows.len(),
                forall|j: int| 0 <= j < keys.len() ==> (#[trigger] keys@[j])@ == rows@[j].part_number@,
            decreases self.parts.len() - i,
        {
            let p = &self.parts[i];
            let keep_category = match category {
                Some(c) => same_ignoring_ascii_case(p.category.as_str(), c),
                None => true,
            };
            let keep_status = match status {
                Some(s) => p.status == s,
                None => true,
            };
            proof {
                reveal_with_fuel(Seq::<_>::filter, 1);
                assert(self@.parts.take(i + 1).drop_last() =~= self@.parts.take(i as int));
            }
            if keep_category && keep_status {
                rows.push(p.clone());
                keys.push(chars_of(p.part_number.as_str()));
            }
            i = i + 1;
        }
        assert(self@.parts.take(self.parts.len() as int) =~= self@.parts);
        assert(keys@.map_values(|k: Vec<char>| k@) =~= rows@.map_values(|p: Part| part_number_key(p)));
        let idx = order_by_text(&keys);
        let out = lay_out(&rows, &idx);
        assert(sorted_by_text(out@, rows@, |p: Part| part_number_key(p)));
        proof {
            law_listing_applies_both_filters(self@.parts, text_opt(category), status, out@);
        }
        out
    }

    // ─── locations ───────────────────────────────────────────────────────

    /// Adds a stocking location under a new identifier.
    pub fn create_location(&mut self, name: &str, kind: &str, actor: &str) -> (l: Location)
        requires
            old(self).inv(),
            old(self)@.seq < u64::MAX,
        ensures
            final(self).inv(),
            l.id@ == id_text(location_prefix(), old(self)@.seq + 1),
            l.name@ == name@,
            l.kind@ == kind@,
            final(self)@ == (StoreView {
                locations: old(self)@.locations.push(l),
                audit: final(self)@.audit,
                seq: old(self)@.seq + 1,
                ..old(self)@
            }),
            audited(old(self)@.audit, final(self)@.audit, actor@, "create_location"@, l.id@),
    {
        proof {
            self@.lemma_ids_ok_bump();
        }
        let id = self.next_id("LOC");
        let l = Location { id, name: name.to_owned(), kind: kind.to_owned(), created_at: now_micros() };
        self.locations.push(l.clone());
        self.audit(actor, "create_location", l.id.clone());
        proof {
            super::lemma_issued_is_fresh(location_prefix(), self@.seq);
            reveal(StoreView::ids_ok);
            old(self)@.lemma_stock_ok_kept(self@);
        }
        l
    }

    /// All locations, ordered by name.
    pub fn list_locations(&self) -> (r: Vec<Location>)
        ensures
            sorted_by_text(r@, self@.locations, |l: Location| location_name_key(l)),
    {
        let mut keys: Vec<Vec<char>> = Vec::new();
        let mut i: usize = 0;
        while i < self.locations.len()
            invariant
                i <= self.locations.len(),
                keys.len() == i,
                forall|j: int| 0 <= j < i ==> (#[trigger] keys@[j])@ == self@.locations[j].name@,
            decreases self.locations.len() - i,
        {
            keys.push(chars_of(self.locations[i].name.as_str()));
            i = i + 1;
        }
        assert(keys@.map_values(|k: Vec<char>| k@) =~= self@.locations.map_values(|l: Location| location_name_key(l)));
        let idx = order_by_text(&keys);
        let out = lay_out(&self.locations, &idx);
        assert(sorted_by_text(out@, self@.locations, |l: Location| location_name_key(l)));
        out
    }

    // ─── suppliers ─────────────────────────────────────────────────────────

    /// Adds a supplier under a new identifier.
    pub fn create_supplier(&mut self, name: &str, lead_time_days: u32, actor: &str) -> (s: Supplier)
        requires
            old(self).inv(),
            old(self)@.seq < u64::MAX,
        ensures
            final(self).inv(),
            s.id@ == id_text(supplier_prefix(), old(self)@.seq + 1),
            s.name@ == name@,
            s.lead_time_days == lead_time_days,
            final(self)@ == (StoreView {
                suppliers: old(self)@.suppliers.push(s),
                audit: final(self)@.audit,
                seq: old(self)@.seq + 1,
                ..old(self)@
            }),
            audited(old(self)@.audit, final(self)@.audit, actor@, "create_supplier"@, s.id@),
    {
        proof {
            self@.lemma_ids_ok_bump();
        }
        let id = self.next_id("SUP");
        let s = Supplier { id, name: name.to_owned(), lead_time_days, created_at: now_micros() };
        self.suppliers.push(s.clone());
        self.audit(actor, "create_supplier", s.id.clone());
        proof {
            super::lemma_issued_is_fresh(supplier_prefix(), self@.seq);
            reveal(StoreView::ids_ok);
            old(self)@.lemma_stock_ok_kept(self@);
        }
        s
    }

    /// All suppliers, ordered by name.
    pub fn list_suppliers(&self) -> (r: Vec<Supplier>)
        ensures
            sorted_by_text(r@, self@.suppliers, |s: Supplier| supplier_name_key(s)),
    {
        let mut keys: Vec<Vec<char>> = Vec::new();
        let mut i: usize = 0;
        while i < self.suppliers.len()
            invariant
                i <= self.suppliers.len(),
                keys.len() == i,
                forall|j: int| 0 <= j < i ==> (#[trigger] keys@[j])@ == self@.suppliers[j].name@,
            decreases self.suppliers.len() - i,
        {
            keys.push(chars_of(self.suppliers[i].name.as_str()));
            i = i + 1;
        }
        assert(keys@.map_values(|k: Vec<char>| k@) =~= self@.suppliers.map_values(|s: Supplier| supplier_name_key(s)));
        let idx = order_by_text(&keys);
        let out = lay_out(&self.suppliers, &idx);
        assert(sorted_by_text(out@, self@.suppliers, |s: Supplier| supplier_name_key(s)));
        out
    }
}

} // verus!
