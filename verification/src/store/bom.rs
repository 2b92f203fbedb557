//! Bill of materials: lines, the reachability of components, the cycle
//! guard, explosion into total component quantities, and where-used.

use vstd::prelude::*;
use super::{audited, has_part, part_pos, PartsStore, StoreView};
use super::messages::{
    bom_cycle, bom_cycle_msg, bom_detail, bom_detail_msg, child_not_found, child_not_found_msg,
    out_of_range, out_of_range_msg, parent_not_found, parent_not_found_msg,
};
use vstd::arithmetic::div_mod::{
    lemma_div_denominator, lemma_fundamental_div_mod, lemma_fundamental_div_mod_converse,
    lemma_div_multiples_vanish_fancy, lemma_div_multiples_vanish_quotient, lemma_hoist_over_denominator,
    lemma_mod_pos_bound,
};
use vstd::set_lib::{lemma_int_range, lemma_len_subset, set_int_range};
use crate::order::{arranged, lay_out, order_by_text, text_order, text_sorted_as, Duplicate};
use crate::text::{chars_of, text_le};
use crate::types::{BomLine, Part};

verus! {

// ─── reachability ────────────────────────────────────────────────────────────

/// The line at `i` makes `c` a component of `root` or of a part in `s`.
pub open spec fn feeds(bom: Seq<BomLine>, root: Seq<char>, s: Set<Seq<char>>, i: int) -> bool {
    bom[i].parent_id@ == root || s.contains(bom[i].parent_id@)
}

/// The direct components of `root` and of the parts in `s`.
pub open spec fn step(bom: Seq<BomLine>, root: Seq<char>, s: Set<Seq<char>>) -> Set<Seq<char>> {
    Set::new(|c: Seq<char>| exists|i: int| 0 <= i < bom.len() && #[trigger] bom[i].child_id@ == c && feeds(bom, root, s, i))
}

/// The parts found beneath `root` along at most `k` lines.
pub open spec fn reach_within(bom: Seq<BomLine>, root: Seq<char>, k: nat) -> Set<Seq<char>>
    decreases k,
{
    if k == 0 {
        Set::empty()
    } else {
        step(bom, root, reach_within(bom, root, (k - 1) as nat))
    }
}

/// `target` appears somewhere beneath `root` in the bill of materials.
pub open spec fn reaches(bom: Seq<BomLine>, root: Seq<char>, target: Seq<char>) -> bool {
    exists|k: nat| #[trigger] reach_within(bom, root, k).contains(target)
}

/// No part is (transitively) a component of itself.
pub open spec fn acyclic(bom: Seq<BomLine>) -> bool {
    forall|n: Seq<char>| !reaches(bom, n, n)
}

/// An empty bill of materials reaches nothing.
pub proof fn lemma_reach_empty(bom: Seq<BomLine>, root: Seq<char>, k: nat)
    requires
        bom.len() == 0,
    ensures
        reach_within(bom, root, k) =~= Set::<Seq<char>>::empty(),
    decreases k,
{
    if k > 0 {
        lemma_reach_empty(bom, root, (k - 1) as nat);
    }
}

pub proof fn lemma_reach_line(bom: Seq<BomLine>, root: Seq<char>, k: nat, i: int)
    requires
        0 <= i < bom.len(),
        bom[i].parent_id@ == root || reach_within(bom, root, k).contains(bom[i].parent_id@),
    ensures
        reach_within(bom, root, k + 1).contains(bom[i].child_id@),
{
    assert(feeds(bom, root, reach_within(bom, root, k), i));
}

pub proof fn lemma_reach_monotone(bom: Seq<BomLine>, root: Seq<char>, k: nat, m: nat)
    requires
        k <= m,
    ensures
        reach_within(bom, root, k).subset_of(reach_within(bom, root, m)),
    decreases m,
{
    if k < m {
        lemma_reach_monotone(bom, root, k, (m - 1) as nat);
        if m >= 2 {
            lemma_reach_monotone(bom, root, (m - 2) as nat, (m - 1) as nat);
            let prev = reach_within(bom, root, (m - 2) as nat);
            let cur = reach_within(bom, root, (m - 1) as nat);
            assert forall|c: Seq<char>| reach_within(bom, root, (m - 1) as nat).contains(c) implies reach_within(bom, root, m).contains(c) by {
                let i = choose|i: int| 0 <= i < bom.len() && #[trigger] bom[i].child_id@ == c && feeds(bom, root, prev, i);
                assert(feeds(bom, root, cur, i));
            }
        }
    }
}

/// `reaches` is transitive.
pub proof fn lemma_reaches_transitive(bom: Seq<BomLine>, a: Seq<char>, b: Seq<char>, c: Seq<char>)
    requires
        reaches(bom, a, b),
        reaches(bom, b, c),
    ensures
        reaches(bom, a, c),
{
    let i = choose|k: nat| #[trigger] reach_within(bom, a, k).contains(b);
    let j = choose|k: nat| #[trigger] reach_within(bom, b, k).contains(c);
    lemma_reach_compose(bom, a, b, c, i, j);
}

proof fn lemma_reach_compose(bom: Seq<BomLine>, a: Seq<char>, b: Seq<char>, c: Seq<char>, i: nat, j: nat)
    requires
        reach_within(bom, a, i).contains(b),
        reach_within(bom, b, j).contains(c),
    ensures
        reach_within(bom, a, i + j).contains(c),
    decreases j,
{
    if j > 0 {
        let prev = reach_within(bom, b, (j - 1) as nat);
        let l = choose|l: int| 0 <= l < bom.len() && #[trigger] bom[l].child_id@ == c && feeds(bom, b, prev, l);
        if bom[l].parent_id@ == b {
            lemma_reach_line(bom, a, i, l);
            lemma_reach_monotone(bom, a, i + 1, i + j);
        } else {
            lemma_reach_compose(bom, a, b, bom[l].parent_id@, i, (j - 1) as nat);
            lemma_reach_line(bom, a, (i + j - 1) as nat, l);
        }
    }
}

/// Within a bill of materials extended by the line `p -> c`, where `c` does
/// not already reach `p`, every part reached from `r` was reached before, or
/// lies at or beneath `c` while `r` is `p` or reaches it.
pub(crate) proof fn lemma_reach_extended(bom: Seq<BomLine>, line: BomLine, r: Seq<char>, t: Seq<char>, k: nat)
    requires
        line.parent_id@ != line.child_id@,
        !reaches(bom, line.child_id@, line.parent_id@),
        reach_within(bom.push(line), r, k).contains(t),
    ensures
        reaches(bom, r, t) || ((r == line.parent_id@ || reaches(bom, r, line.parent_id@)) && (t == line.child_id@
            || reaches(bom, line.child_id@, t))),
    decreases k,
{
    let nb = bom.push(line);
    let p = line.parent_id@;
    let c = line.child_id@;
    let prev = reach_within(nb, r, (k - 1) as nat);
    let l = choose|l: int| 0 <= l < nb.len() && #[trigger] nb[l].child_id@ == t && feeds(nb, r, prev, l);
    let u = nb[l].parent_id@;
    if u != r {
        lemma_reach_extended(bom, line, r, u, (k - 1) as nat);
    }
    if l < bom.len() {
        assert(nb[l] == bom[l]);
        if u == r {
            lemma_reach_line(bom, r, 0, l);
        } else if reaches(bom, r, u) {
            let ku = choose|ku: nat| #[trigger] reach_within(bom, r, ku).contains(u);
            lemma_reach_line(bom, r, ku, l);
        } else if u == c {
            lemma_reach_line(bom, c, 0, l);
        } else {
            let ku = choose|ku: nat| #[trigger] reach_within(bom, c, ku).contains(u);
            lemma_reach_line(bom, c, ku, l);
        }
    } else {
        assert(nb[l] == line);
        if u != r && !reaches(bom, r, u) {
            if u == c {
            } else {
                assert(reaches(bom, c, p));
            }
        }
    }
}

/// Adding a line `p -> c` keeps the bill of materials acyclic when `p` and
/// `c` differ and `p` is not already beneath `c`.
pub proof fn lemma_acyclic_extended(bom: Seq<BomLine>, line: BomLine)
    requires
        acyclic(bom),
        line.parent_id@ != line.child_id@,
        !reaches(bom, line.child_id@, line.parent_id@),
    ensures
        acyclic(bom.push(line)),
{
    let p = line.parent_id@;
    let c = line.child_id@;
    assert forall|n: Seq<char>| !reaches(bom.push(line), n, n) by {
        if reaches(bom.push(line), n, n) {
            let k = choose|k: nat| #[trigger] reach_within(bom.push(line), n, k).contains(n);
            lemma_reach_extended(bom, line, n, n, k);
            if reaches(bom, n, n) {
            } else if n == p {
                if n == c {
                } else {
                    assert(reaches(bom, c, p));
                }
            } else {
                if n == c {
                    assert(reaches(bom, c, p));
                } else {
                    lemma_reaches_transitive(bom, c, n, p);
                }
            }
        }
    }
}


// ─── the cycle guard ─────────────────────────────────────────────────────────

/// The number of lines not yet used.
pub open spec fn count_unused(used: Seq<bool>) -> nat
    decreases used.len(),
{
    if used.len() == 0 {
        0
    } else {
        count_unused(used.drop_last()) + if used.last() {
            0nat
        } else {
            1nat
        }
    }
}

proof fn lemma_count_unused_update(used: Seq<bool>, i: int)
    requires
        0 <= i < used.len(),
        !used[i],
    ensures
        count_unused(used.update(i, true)) + 1 == count_unused(used),
    decreases used.len(),
{
    let u = used.update(i, true);
    if i < used.len() - 1 {
        assert(u.drop_last() =~= used.drop_last().update(i, true));
        lemma_count_unused_update(used.drop_last(), i);
    } else {
        assert(u.drop_last() =~= used.drop_last());
    }
}

pub(crate) proof fn lemma_count_unused_update_pub(used: Seq<bool>, i: int)
    requires
        0 <= i < used.len(),
        !used[i],
    ensures
        count_unused(used.update(i, true)) + 1 == count_unused(used),
{
    lemma_count_unused_update(used, i);
}

/// Some entry of `list` reads `x`.
pub open spec fn listed(list: Seq<String>, x: Seq<char>) -> bool {
    exists|j: int| 0 <= j < list.len() && #[trigger] list[j]@ == x
}

pub(crate) fn list_has(list: &Vec<String>, x: &String) -> (r: bool)
    ensures
        r == listed(list@, x@),
{
    let mut j: usize = 0;
    while j < list.len()
        invariant
            j <= list.len(),
            forall|m: int| 0 <= m < j ==> list@[m]@ != x@,
        decreases list.len() - j,
    {
        if list[j] == *x {
            assert(list@[j as int]@ == x@);
            return true;
        }
        j = j + 1;
    }
    false
}

/// A list closed under the lines holds everything beneath the root.
proof fn lemma_closed_covers(bom: Seq<BomLine>, root: Seq<char>, list: Seq<String>, k: nat)
    requires
        forall|m: int|
            0 <= m < bom.len() && (bom[m].parent_id@ == root || listed(list, bom[m].parent_id@)) ==> listed(
                list,
                #[trigger] bom[m].child_id@,
            ),
    ensures
        forall|c: Seq<char>| reach_within(bom, root, k).contains(c) ==> listed(list, c),
    decreases k,
{
    if k > 0 {
        lemma_closed_covers(bom, root, list, (k - 1) as nat);
        let prev = reach_within(bom, root, (k - 1) as nat);
        assert forall|c: Seq<char>| reach_within(bom, root, k).contains(c) implies listed(list, c) by {
            let i = choose|i: int| 0 <= i < bom.len() && #[trigger] bom[i].child_id@ == c && feeds(bom, root, prev, i);
        }
    }
}

/// Whether `target` appears anywhere beneath `root` in the bill of
/// materials: the closure of `root` under the lines, grown until no line adds
/// a part.
pub fn reaches_in(bom: &Vec<BomLine>, root: &str, target: &str) -> (r: bool)
    ensures
        r == reaches(bom@, root@, target@),
{
    let n = bom.len();
    let root_text = root.to_owned();
    let mut reached: Vec<String> = Vec::new();
    let mut used: Vec<bool> = Vec::new();
    let mut i: usize = 0;
    while i < n
        invariant
            n == bom.len(),
            i <= n,
            used.len() == i,
            forall|m: int| 0 <= m < i ==> !used@[m],
        decreases n - i,
    {
        used.push(false);
        i = i + 1;
    }
    let mut done = false;
    while !done
        invariant
            n == bom.len(),
            root_text@ == root@,
            used.len() == n,
            forall|j: int| 0 <= j < reached.len() ==> reaches(bom@, root@, #[trigger] reached@[j]@),
            forall|m: int| 0 <= m < n && used@[m] ==> listed(reached@, #[trigger] bom@[m].child_id@),
            done ==> forall|m: int|
                0 <= m < n && (bom@[m].parent_id@ == root@ || listed(reached@, bom@[m].parent_id@)) ==> listed(
                    reached@,
                    #[trigger] bom@[m].child_id@,
                ),
        decreases count_unused(used@) + if done { 0nat } else { 1nat },
    {
        let ghost count0 = count_unused(used@);
        let ghost reached0 = reached@;
        let mut changed = false;
        let mut i: usize = 0;
        while i < n
            invariant
                n == bom.len(),
                root_text@ == root@,
                used.len() == n,
                i <= n,
                forall|j: int| 0 <= j < reached.len() ==> reaches(bom@, root@, #[trigger] reached@[j]@),
                forall|m: int| 0 <= m < n && used@[m] ==> listed(reached@, #[trigger] bom@[m].child_id@),
                changed ==> count_unused(used@) < count0,
                !changed ==> count_unused(used@) == count0 && reached@ == reached0,
                !changed ==> forall|m: int|
                    0 <= m < i && (bom@[m].parent_id@ == root@ || listed(reached@, bom@[m].parent_id@)) ==> used@[m],
            decreases n - i,
        {
            if !used[i] {
                let feeds_now = bom[i].parent_id == root_text || list_has(&reached, &bom[i].parent_id);
                if feeds_now {
                    proof {
                        let l = bom@[i as int];
                        if l.parent_id@ == root@ {
                            lemma_reach_line(bom@, root@, 0, i as int);
                        } else {
                            let j = choose|j: int| 0 <= j < reached@.len() && #[trigger] reached@[j]@ == l.parent_id@;
                            assert(reaches(bom@, root@, reached@[j]@));
                            let k = choose|k: nat| #[trigger] reach_within(bom@, root@, k).contains(l.parent_id@);
                            lemma_reach_line(bom@, root@, k, i as int);
                        }
                        lemma_count_unused_update(used@, i as int);
                    }
                    let ghost before = reached@;
                    used.set(i, true);
                    reached.push(bom[i].child_id.clone());
                    proof {
                        assert(reached@[before.len() as int]@ == bom@[i as int].child_id@);
                        assert forall|m: int| 0 <= m < n && used@[m] implies listed(reached@, #[trigger] bom@[m].child_id@) by {
                            if m != i {
                                let j = choose|j: int| 0 <= j < before.len() && #[trigger] before[j]@ == bom@[m].child_id@;
                                assert(reached@[j]@ == bom@[m].child_id@);
                            }
                        }
                    }
                    changed = true;
                }
            }
            i = i + 1;
        }
        if !changed {
            done = true;
        }
    }
    let target_text = target.to_owned();
    let r = list_has(&reached, &target_text);
    proof {
        if reaches(bom@, root@, target@) {
            let k = choose|k: nat| #[trigger] reach_within(bom@, root@, k).contains(target@);
            lemma_closed_covers(bom@, root@, reached@, k);
        }
        if r {
            let j = choose|j: int| 0 <= j < reached@.len() && #[trigger] reached@[j]@ == target@;
        }
    }
    r
}


/// Why a bill-of-materials line is refused, if it is.
pub open spec fn bom_refusal(v: StoreView, parent_id: Seq<char>, child_id: Seq<char>) -> Option<Seq<char>> {
    if !has_part(v.parts, parent_id) {
        Some(parent_not_found(parent_id))
    } else if !has_part(v.parts, child_id) {
        Some(child_not_found(child_id))
    } else if parent_id == child_id {
        Some("a part cannot be its own component"@)
    } else if reaches(v.bom, child_id, parent_id) {
        Some(bom_cycle(parent_id, child_id))
    } else {
        None
    }
}

impl PartsStore {
    /// Adds a line: `parent_id` is built from `qty` of `child_id`. Refuses a
    /// part as its own component and a line that would close a cycle.
    pub fn add_bom_line(&mut self, parent_id: &str, child_id: &str, qty: i64, actor: &str) -> (r: Result<BomLine, String>)
        requires
            old(self).inv(),
        ensures
            final(self).inv(),
            match r {
                Err(e) => bom_refusal(old(self)@, parent_id@, child_id@) == Some(e@) && final(self)@ == old(self)@,
                Ok(line) => {
                    &&& bom_refusal(old(self)@, parent_id@, child_id@) is None
                    &&& line.parent_id@ == parent_id@
                    &&& line.child_id@ == child_id@
                    &&& line.qty == qty
                    &&& final(self)@ == (StoreView {
                        bom: old(self)@.bom.push(line),
                        audit: final(self)@.audit,
                        ..old(self)@
                    })
                    &&& audited(old(self)@.audit, final(self)@.audit, actor@, "add_bom_line"@,
                        bom_detail(parent_id@, child_id@, qty as int))
                },
            },
    {
        if !self.part_exists(parent_id) {
            return Err(parent_not_found_msg(parent_id));
        }
        if !self.part_exists(child_id) {
            return Err(child_not_found_msg(child_id));
        }
        let p = parent_id.to_owned();
        let c = child_id.to_owned();
        if p == c {
            return Err("a part cannot be its own component".to_owned());
        }
        if reaches_in(&self.bom, child_id, parent_id) {
            return Err(bom_cycle_msg(parent_id, child_id));
        }
        let line = BomLine { parent_id: p, child_id: c, qty };
        proof {
            reveal(StoreView::links_ok);
            lemma_acyclic_extended(self@.bom, line);
        }
        self.bom.push(line.clone());
        proof {
            old(self)@.lemma_ids_ok_frame(self@);
            reveal(StoreView::links_ok);
            let b = self@.bom;
            assert forall|i: int| 0 <= i < b.len() implies has_part(self@.parts, (#[trigger] b[i]).parent_id@)
                && has_part(self@.parts, b[i].child_id@) by {
                if i < old(self)@.bom.len() {
                    assert(b[i] == old(self)@.bom[i]);
                }
            }
        }
        let detail = bom_detail_msg(parent_id, child_id, qty);
        self.audit(actor, "add_bom_line", detail);
        Ok(line)
    }
}


// ─── explosion ───────────────────────────────────────────────────────────────

/// An integer held within the range of `i64`.
pub open spec fn clamp_i64(x: int) -> int {
    if x > i64::MAX {
        i64::MAX as int
    } else if x < i64::MIN {
        i64::MIN as int
    } else {
        x
    }
}

/// `n / d` rounded to the nearest integer, halves away from zero (`d > 0`).
pub open spec fn round_div(n: int, d: int) -> int {
    if n >= 0 {
        (n + d / 2) / d
    } else {
        -((-n + d / 2) / d)
    }
}

/// An integer held exactly in an `i128` (and its negation).
pub open spec fn held(x: int) -> bool {
    -0x7fff_ffff_ffff_ffff_ffff_ffff_ffff_ffff <= x <= 0x7fff_ffff_ffff_ffff_ffff_ffff_ffff_ffff
}

/// `1000` to the power `k`.
pub open spec fn pow1000(k: nat) -> int
    decreases k,
{
    if k == 0 {
        1
    } else {
        1000 * pow1000((k - 1) as nat)
    }
}

/// The exact quantity `p / 1000^d` thousandths, with every factor 1000 that
/// `p` holds taken out of it while `d` allows (the same value).
pub open spec fn reduced(p: int, d: nat) -> (int, nat)
    decreases d,
{
    if d > 0 && p % 1000 == 0 {
        reduced(p / 1000, (d - 1) as nat)
    } else {
        (p, d)
    }
}

/// `v * 1000^k`, where every step is held exactly.
pub open spec fn scale_up(v: int, k: nat) -> Option<int>
    decreases k,
{
    if k == 0 {
        Some(v)
    } else {
        match scale_up(v, (k - 1) as nat) {
            Some(w) => if held(w * 1000) {
                Some(w * 1000)
            } else {
                None
            },
            None => None,
        }
    }
}

/// Exact component totals: (part identifier, `v`, `s`) for the total
/// `v / 1000^s` thousandths, in order of first appearance.
pub type Totals = Seq<(Seq<char>, int, nat)>;

/// Position of the entry for `k` in the totals, or -1.
pub open spec fn total_pos(t: Totals, k: Seq<char>) -> int {
    if exists|j: int| 0 <= j < t.len() && t[j].0 == k {
        choose|j: int| 0 <= j < t.len() && t[j].0 == k && forall|m: int| 0 <= m < j ==> (#[trigger] t[m]).0 != k
    } else {
        -1
    }
}

/// The totals with `p / 1000^d` added exactly to the entry of `k` (appended
/// when missing): both brought to the finer of their scales; `None` where a
/// number outgrows an `i128`.
pub open spec fn add_total(t: Totals, k: Seq<char>, p: int, d: nat) -> Option<Totals> {
    let j = total_pos(t, k);
    if j < 0 {
        Some(t.push((k, p, d)))
    } else {
        let v = t[j].1;
        let s = t[j].2;
        let top: nat = if s >= d { s } else { d };
        match (scale_up(v, (top - s) as nat), scale_up(p, (top - d) as nat)) {
            (Some(a), Some(b)) => if held(a + b) {
                Some(t.update(j, (k, reduced(a + b, top).0, reduced(a + b, top).1)))
            } else {
                None
            },
            _ => None,
        }
    }
}

/// The totals after exploding `node`, reached with the exact multiplier
/// `p / 1000^d` thousandths, into `acc`, following lines at most `fuel`
/// deep: each line of `node`, in order, adds its quantity times the
/// multiplier to its child and explodes the child at that product. `None`
/// where a number outgrows an `i128`.
#[verifier::opaque]
pub open spec fn explode_from(bom: Seq<BomLine>, node: Seq<char>, p: int, d: nat, fuel: nat, acc: Option<Totals>) -> Option<Totals>
    decreases fuel, bom.len() + 1,
{
    if fuel == 0 {
        acc
    } else {
        explode_lines(bom, node, p, d, fuel, 0, acc)
    }
}

/// The lines of `node` from position `i` on, exploded into `acc`.
#[verifier::opaque]
pub open spec fn explode_lines(bom: Seq<BomLine>, node: Seq<char>, p: int, d: nat, fuel: nat, i: int, acc: Option<Totals>) -> Option<Totals>
    decreases fuel, bom.len() - i,
{
    if fuel == 0 || i < 0 || i >= bom.len() || acc is None {
        acc
    } else if bom[i].parent_id@ != node {
        explode_lines(bom, node, p, d, fuel, i + 1, acc)
    } else if !held(p * bom[i].qty) {
        None
    } else {
        let q = reduced(p * bom[i].qty, d + 1);
        let child = bom[i].child_id@;
        explode_lines(bom, node, p, d, fuel, i + 1,
            explode_from(bom, child, q.0, q.1, (fuel - 1) as nat, add_total(acc->0, child, q.0, q.1)))
    }
}

/// An explosion at no depth, or into no totals, leaves them as they are.
proof fn lemma_explode_from_unfold(bom: Seq<BomLine>, node: Seq<char>, p: int, d: nat, fuel: nat, acc: Option<Totals>)
    ensures
        fuel == 0 ==> explode_from(bom, node, p, d, fuel, acc) == acc,
        acc is None ==> explode_from(bom, node, p, d, fuel, acc) is None,
        fuel > 0 ==> explode_from(bom, node, p, d, fuel, acc) == explode_lines(bom, node, p, d, fuel, 0, acc),
{
    reveal(explode_from);
    reveal(explode_lines);
}

/// One line of the explosion of `node`.
proof fn lemma_explode_lines_step(bom: Seq<BomLine>, node: Seq<char>, p: int, d: nat, fuel: nat, i: int, acc: Option<Totals>)
    requires
        fuel > 0,
        0 <= i < bom.len(),
    ensures
        acc is None ==> explode_lines(bom, node, p, d, fuel, i, acc) is None,
        acc is None ==> explode_lines(bom, node, p, d, fuel, i + 1, acc) is None,
        acc is Some && bom[i].parent_id@ != node ==> explode_lines(bom, node, p, d, fuel, i, acc)
            == explode_lines(bom, node, p, d, fuel, i + 1, acc),
        acc is Some && bom[i].parent_id@ == node && !held(p * bom[i].qty) ==> explode_lines(bom, node, p, d, fuel, i, acc) is None,
        acc is Some && bom[i].parent_id@ == node && held(p * bom[i].qty) ==> explode_lines(bom, node, p, d, fuel, i, acc)
            == explode_lines(bom, node, p, d, fuel, i + 1, explode_from(bom, bom[i].child_id@,
                reduced(p * bom[i].qty, d + 1).0, reduced(p * bom[i].qty, d + 1).1, (fuel - 1) as nat,
                add_total(acc->0, bom[i].child_id@, reduced(p * bom[i].qty, d + 1).0, reduced(p * bom[i].qty, d + 1).1))),
{
    reveal(explode_lines);
    reveal(explode_from);
    if acc is Some && bom[i].parent_id@ == node && held(p * bom[i].qty) {
        let q = reduced(p * bom[i].qty, d + 1);
        let child = bom[i].child_id@;
        assert(explode_lines(bom, node, p, d, fuel, i, acc) == explode_lines(bom, node, p, d, fuel, i + 1,
            explode_from(bom, child, q.0, q.1, (fuel - 1) as nat, add_total(acc->0, child, q.0, q.1))));
    }
}

/// Past the last line, the totals are as they are.
proof fn lemma_explode_lines_end(bom: Seq<BomLine>, node: Seq<char>, p: int, d: nat, fuel: nat, acc: Option<Totals>)
    ensures
        explode_lines(bom, node, p, d, fuel, bom.len() as int, acc) == acc,
{
    reveal(explode_lines);
}

/// The exact totals of a whole explosion of `parent` at `multiplier`: lines
/// followed as deep as the bill of materials has lines, which reaches every
/// path of an acyclic bill. `None` where a number outgrows an `i128`.
pub open spec fn explosion(bom: Seq<BomLine>, parent: Seq<char>, multiplier: int) -> Option<Totals> {
    explode_from(bom, parent, multiplier, 0, bom.len(), Some(Seq::empty()))
}

/// `round_div(n, d)` is the integer nearest to `n / d`: it lies within half
/// of `d` of `n` once multiplied back by `d`.
pub proof fn lemma_round_div_nearest(n: int, d: int)
    requires
        d > 0,
    ensures
        -d <= 2 * (round_div(n, d) * d - n) <= d,
{
    let m = if n >= 0 { n } else { -n };
    lemma_fundamental_div_mod(m + d / 2, d);
    lemma_mod_pos_bound(m + d / 2, d);
    let q = (m + d / 2) / d;
    let r = (m + d / 2) % d;
    assert(q * d == d * q) by (nonlinear_arith);
    assert(-d <= 2 * (q * d - m) <= d);
    if n < 0 {
        assert((-q) * d == -(q * d)) by (nonlinear_arith);
    }
}

/// A component's exact total rounded once to the nearest thousandth (halves
/// away from zero) and held within `i64`.
pub open spec fn total_thousandths(e: (Seq<char>, int, nat)) -> int {
    clamp_i64(round_div(e.1, pow1000(e.2)))
}

/// The part number of the part with identifier `id`, or the empty text.
pub open spec fn pn_of(parts: Seq<Part>, id: Seq<char>) -> Seq<char> {
    if has_part(parts, id) {
        parts[part_pos(parts, id)].part_number@
    } else {
        Seq::empty()
    }
}

pub open spec fn totals_of(keys: Seq<String>, vals: Seq<i128>, scales: Seq<usize>) -> Totals {
    Seq::new(keys.len(), |j: int| (keys[j]@, vals[j] as int, scales[j] as nat))
}

/// One component of an explosion.
#[derive(Debug)]
pub struct BomComponent {
    pub part_id: String,
    pub part_number: String,
    /// Total quantity, in thousandths.
    pub total_qty: i64,
}

impl Duplicate for BomComponent {
    fn duplicate(&self) -> (r: Self) {
        BomComponent { part_id: self.part_id.clone(), part_number: self.part_number.clone(), total_qty: self.total_qty }
    }
}

/// A bill of materials exploded into total component quantities.
#[derive(Debug)]
pub struct BomExplosion {
    pub parent_id: String,
    pub multiplier: i64,
    pub component_count: usize,
    /// Ordered by part number.
    pub components: Vec<BomComponent>,
}

pub open spec fn component_key(parts: Seq<Part>, e: (Seq<char>, int, nat)) -> Seq<char> {
    pn_of(parts, e.0)
}

pub open spec fn component_matches(parts: Seq<Part>, c: BomComponent, e: (Seq<char>, int, nat)) -> bool {
    &&& c.part_id@ == e.0
    &&& c.part_number@ == pn_of(parts, e.0)
    &&& c.total_qty == total_thousandths(e)
}

/// One assembly that consumes a part.
#[derive(Debug)]
pub struct WhereUsedRow {
    pub parent_id: String,
    pub part_number: String,
    /// Quantity per assembly, in thousandths.
    pub qty_per: i64,
}

impl Duplicate for WhereUsedRow {
    fn duplicate(&self) -> (r: Self) {
        WhereUsedRow { parent_id: self.parent_id.clone(), part_number: self.part_number.clone(), qty_per: self.qty_per }
    }
}

/// The direct parents that consume a part.
#[derive(Debug)]
pub struct WhereUsed {
    pub child_id: String,
    pub used_in_count: usize,
    /// Ordered by the parent's part number.
    pub used_in: Vec<WhereUsedRow>,
}

pub open spec fn parent_key(parts: Seq<Part>, l: BomLine) -> Seq<char> {
    pn_of(parts, l.parent_id@)
}

pub open spec fn used_row_matches(parts: Seq<Part>, r: WhereUsedRow, l: BomLine) -> bool {
    &&& r.parent_id@ == l.parent_id@
    &&& r.part_number@ == pn_of(parts, l.parent_id@)
    &&& r.qty_per == l.qty
}

proof fn lemma_pow1000_pos(k: nat)
    ensures
        pow1000(k) >= 1,
    decreases k,
{
    if k > 0 {
        lemma_pow1000_pos((k - 1) as nat);
    }
}

/// Negating a number keeps whether 1000 divides it, and negates the quotient.
proof fn lemma_neg_thousands(a: int)
    requires
        a >= 0,
    ensures
        ((-a) % 1000 == 0) == (a % 1000 == 0),
        a % 1000 == 0 ==> (-a) / 1000 == -(a / 1000),
{
    lemma_fundamental_div_mod(a, 1000);
    lemma_mod_pos_bound(a, 1000);
    let q = a / 1000;
    let r = a % 1000;
    if r == 0 {
        lemma_fundamental_div_mod_converse(-a, 1000, -q, 0);
    } else {
        lemma_fundamental_div_mod_converse(-a, 1000, -q - 1, 1000 - r);
    }
}

/// Reducing keeps a number's magnitude from growing.
proof fn lemma_reduced_held(p: int, d: nat)
    requires
        held(p),
    ensures
        held(reduced(p, d).0),
        reduced(p, d).1 <= d,
    decreases d,
{
    if d > 0 && p % 1000 == 0 {
        if p >= 0 {
            lemma_fundamental_div_mod(p, 1000);
        } else {
            lemma_neg_thousands(-p);
            lemma_fundamental_div_mod(-p, 1000);
        }
        lemma_reduced_held(p / 1000, (d - 1) as nat);
    }
}

/// Once a step outgrows an `i128`, so do the later ones.
proof fn lemma_scale_up_none(v: int, a: nat, b: nat)
    requires
        a <= b,
        scale_up(v, a) is None,
    ensures
        scale_up(v, b) is None,
    decreases b,
{
    if a < b {
        lemma_scale_up_none(v, a, (b - 1) as nat);
    }
}

/// `round_div` by `1000^s` is a floor division by `1000^(s-1)` and then a
/// rounded division by 1000.
proof fn lemma_round_in_steps(x: int, s: nat)
    requires
        x >= 0,
        s >= 1,
    ensures
        (x + pow1000(s) / 2) / pow1000(s) == (x / pow1000((s - 1) as nat) + 500) / 1000,
{
    let e = pow1000((s - 1) as nat);
    lemma_pow1000_pos((s - 1) as nat);
    assert(pow1000(s) == 1000 * e);
    assert(pow1000(s) / 2 == 500 * e);
    lemma_hoist_over_denominator(x, 500, e as nat);
    lemma_div_denominator(x + 500 * e, e, 1000);
    assert(e * 1000 == 1000 * e);
}

/// `a * b`, where it is held.
fn held_mul(a: i128, b: i128) -> (r: Option<i128>)
    ensures
        match r {
            Some(x) => held(a * b) && x == a * b,
            None => !held(a * b),
        },
{
    match a.checked_mul(b) {
        Some(x) => if x == i128::MIN {
            None
        } else {
            Some(x)
        },
        None => None,
    }
}

/// `a + b`, where it is held.
fn held_add(a: i128, b: i128) -> (r: Option<i128>)
    ensures
        match r {
            Some(x) => held(a + b) && x == a + b,
            None => !held(a + b),
        },
{
    match a.checked_add(b) {
        Some(x) => if x == i128::MIN {
            None
        } else {
            Some(x)
        },
        None => None,
    }
}

/// Takes the factors 1000 out of `p / 1000^d`.
fn reduce(p: i128, d: usize) -> (r: (i128, usize))
    requires
        held(p as int),
    ensures
        r.0 as int == reduced(p as int, d as nat).0,
        r.1 as nat == reduced(p as int, d as nat).1,
        held(r.0 as int),
        r.1 <= d,
{
    let neg = p < 0;
    let mut a: i128 = if neg { -p } else { p };
    let mut k: usize = d;
    while k > 0 && a % 1000 == 0
        invariant
            0 <= a <= 0x7fff_ffff_ffff_ffff_ffff_ffff_ffff_ffff,
            k <= d,
            reduced(p as int, d as nat) == reduced(if neg { -a } else { a as int }, k as nat),
        decreases k,
    {
        proof {
            lemma_neg_thousands(a as int);
            lemma_fundamental_div_mod(a as int, 1000);
        }
        a = a / 1000;
        k = k - 1;
    }
    proof {
        lemma_neg_thousands(a as int);
    }
    let out = if neg { -a } else { a };
    (out, k)
}

/// `v * 1000^k`, where each step is held.
fn scale_up_exec(v: i128, k: usize) -> (r: Option<i128>)
    requires
        held(v as int),
    ensures
        match r {
            Some(x) => scale_up(v as int, k as nat) == Some(x as int) && held(x as int),
            None => scale_up(v as int, k as nat) is None,
        },
{
    let mut w = v;
    let mut j: usize = 0;
    while j < k
        invariant
            j <= k,
            scale_up(v as int, j as nat) == Some(w as int),
            held(w as int),
        decreases k - j,
    {
        match held_mul(w, 1000) {
            Some(x) => {
                w = x;
            },
            None => {
                proof {
                    lemma_scale_up_none(v as int, (j + 1) as nat, k as nat);
                }
                return None;
            },
        }
        j = j + 1;
    }
    Some(w)
}

/// Every total is held exactly.
pub open spec fn totals_held(t: Totals) -> bool {
    forall|j: int| 0 <= j < t.len() ==> held(#[trigger] t[j].1)
}

/// Adds `p / 1000^d` exactly to the total of `k`; `false` (with the totals
/// unchanged) where a number outgrows an `i128`.
fn add_to_totals(keys: &mut Vec<String>, vals: &mut Vec<i128>, scales: &mut Vec<usize>, k: &String, p: i128, d: usize) -> (ok: bool)
    requires
        old(keys).len() == old(vals).len(),
        old(keys).len() == old(scales).len(),
        totals_held(totals_of(old(keys)@, old(vals)@, old(scales)@)),
        held(p as int),
    ensures
        final(keys).len() == final(vals).len(),
        final(keys).len() == final(scales).len(),
        totals_held(totals_of(final(keys)@, final(vals)@, final(scales)@)),
        ok ==> add_total(totals_of(old(keys)@, old(vals)@, old(scales)@), k@, p as int, d as nat)
            == Some(totals_of(final(keys)@, final(vals)@, final(scales)@)),
        !ok ==> add_total(totals_of(old(keys)@, old(vals)@, old(scales)@), k@, p as int, d as nat) is None,
{
    let ghost t = totals_of(keys@, vals@, scales@);
    let mut j: usize = 0;
    while j < keys.len()
        invariant
            keys.len() == vals.len(),
            keys.len() == scales.len(),
            t == totals_of(keys@, vals@, scales@),
            t == totals_of(old(keys)@, old(vals)@, old(scales)@),
            totals_held(t),
            held(p as int),
            j <= keys.len(),
            forall|m: int| 0 <= m < j ==> (#[trigger] t[m]).0 != k@,
        decreases keys.len() - j,
    {
        if keys[j] == *k {
            proof {
                assert(t[j as int].0 == k@ && forall|m: int| 0 <= m < j ==> (#[trigger] t[m]).0 != k@);
                let q = total_pos(t, k@);
                if q < j {
                    assert(t[q].0 != k@);
                } else if q > j {
                    assert(t[j as int].0 != k@);
                }
                assert(held(t[j as int].1));
            }
            let v = vals[j];
            let s = scales[j];
            let top = if s >= d { s } else { d };
            let a = match scale_up_exec(v, top - s) {
                Some(x) => x,
                None => {
                    return false;
                },
            };
            let b = match scale_up_exec(p, top - d) {
                Some(x) => x,
                None => {
                    return false;
                },
            };
            let sum = match held_add(a, b) {
                Some(x) => x,
                None => {
                    return false;
                },
            };
            let (nv, ns) = reduce(sum, top);
            vals.set(j, nv);
            scales.set(j, ns);
            assert(totals_of(keys@, vals@, scales@) =~= t.update(j as int, (k@, nv as int, ns as nat)));
            return true;
        }
        j = j + 1;
    }
    keys.push(k.clone());
    vals.push(p);
    scales.push(d);
    assert(totals_of(keys@, vals@, scales@) =~= t.push((k@, p as int, d as nat)));
    true
}

/// A component's exact total, rounded once to the nearest thousandth.
fn total_thousandths_exec(v: i128, s: usize) -> (r: i64)
    requires
        held(v as int),
    ensures
        r == total_thousandths((Seq::<char>::empty(), v as int, s as nat)),
{
    let x: i128 = if s == 0 {
        assert(pow1000(0) == 1);
        assert(round_div(v as int, 1) == v as int);
        v
    } else {
        let neg = v < 0;
        let mut m: i128 = if neg { -v } else { v };
        let ghost x0: int = m as int;
        let mut j: usize = 1;
        while j < s
            invariant
                1 <= j <= s,
                x0 >= 0,
                m >= 0,
                m as int == x0 / pow1000((j - 1) as nat),
            decreases s - j,
        {
            proof {
                lemma_pow1000_pos((j - 1) as nat);
                lemma_div_denominator(x0, pow1000((j - 1) as nat), 1000);
                assert(pow1000(j as nat) == 1000 * pow1000((j - 1) as nat));
                assert(pow1000((j - 1) as nat) * 1000 == 1000 * pow1000((j - 1) as nat));
            }
            m = m / 1000;
            j = j + 1;
        }
        proof {
            lemma_round_in_steps(x0, s as nat);
            lemma_fundamental_div_mod(m as int, 1000);
            lemma_mod_pos_bound(m as int, 1000);
            lemma_fundamental_div_mod(m as int + 500, 1000);
            lemma_mod_pos_bound(m as int + 500, 1000);
        }
        let up: i128 = if m % 1000 >= 500 { 1 } else { 0 };
        let q = m / 1000 + up;
        assert(q == (m + 500) / 1000);
        assert(q == (x0 + pow1000(s as nat) / 2) / pow1000(s as nat));
        if neg {
            assert(round_div(v as int, pow1000(s as nat)) == -q);
        } else {
            assert(round_div(v as int, pow1000(s as nat)) == q);
        }
        if neg { -q } else { q }
    };
    proof {
        lemma_pow1000_pos(s as nat);
    }
    if x > i64::MAX as i128 {
        i64::MAX
    } else if x < i64::MIN as i128 {
        i64::MIN
    } else {
        x as i64
    }
}

impl PartsStore {
    /// Explodes `node`, reached with the exact multiplier `p / 1000^d`
    /// thousandths, into the totals, following lines at most `fuel` deep;
    /// `false` where a number outgrows an `i128`.
    fn explode_node(&self, node: &String, p: i128, d: usize, fuel: usize, keys: &mut Vec<String>, vals: &mut Vec<i128>, scales: &mut Vec<usize>) -> (ok: bool)
        requires
            old(keys).len() == old(vals).len(),
            old(keys).len() == old(scales).len(),
            totals_held(totals_of(old(keys)@, old(vals)@, old(scales)@)),
            held(p as int),
            d + fuel <= self.bom.len(),
        ensures
            final(keys).len() == final(vals).len(),
            final(keys).len() == final(scales).len(),
            totals_held(totals_of(final(keys)@, final(vals)@, final(scales)@)),
            ok ==> explode_from(self@.bom, node@, p as int, d as nat, fuel as nat, Some(totals_of(old(keys)@, old(vals)@, old(scales)@)))
                == Some(totals_of(final(keys)@, final(vals)@, final(scales)@)),
            !ok ==> explode_from(self@.bom, node@, p as int, d as nat, fuel as nat, Some(totals_of(old(keys)@, old(vals)@, old(scales)@))) is None,
        decreases fuel,
    {
        proof {
            lemma_explode_from_unfold(self@.bom, node@, p as int, d as nat, fuel as nat, Some(totals_of(keys@, vals@, scales@)));
        }
        if fuel == 0 {
            return true;
        }
        let ghost target = explode_from(self@.bom, node@, p as int, d as nat, fuel as nat, Some(totals_of(keys@, vals@, scales@)));
        let mut i: usize = 0;
        while i < self.bom.len()
            invariant
                0 < fuel,
                d + fuel <= self.bom.len(),
                held(p as int),
                keys.len() == vals.len(),
                keys.len() == scales.len(),
                totals_held(totals_of(keys@, vals@, scales@)),
                i <= self.bom.len(),
                target == explode_lines(self@.bom, node@, p as int, d as nat, fuel as nat, i as int, Some(totals_of(keys@, vals@, scales@))),
                target == explode_from(self@.bom, node@, p as int, d as nat, fuel as nat, Some(totals_of(old(keys)@, old(vals)@, old(scales)@))),
            decreases self.bom.len() - i,
        {
            let ghost before = totals_of(keys@, vals@, scales@);
            proof {
                lemma_explode_lines_step(self@.bom, node@, p as int, d as nat, fuel as nat, i as int, Some(before));
                lemma_explode_lines_step(self@.bom, node@, p as int, d as nat, fuel as nat, i as int, None);
            }
            if self.bom[i].parent_id == *node {
                let q = match held_mul(p, self.bom[i].qty as i128) {
                    Some(x) => x,
                    None => {
                        proof {
                            assert(!held(p as int * self@.bom[i as int].qty));
                        }
                        return false;
                    },
                };
                let (p2, d2) = reduce(q, d + 1);
                let child = self.bom[i].child_id.clone();
                let added = add_to_totals(keys, vals, scales, &child, p2, d2);
                proof {
                    let line = self@.bom[i as int];
                    assert(line.parent_id@ == node@);
                    assert(q as int == p as int * line.qty);
                    assert(held(p as int * line.qty));
                    assert(reduced(p as int * line.qty, (d + 1) as nat) == (p2 as int, d2 as nat));
                    assert(child@ == line.child_id@);
                    assert(target == explode_lines(self@.bom, node@, p as int, d as nat, fuel as nat, i + 1,
                        explode_from(self@.bom, child@, p2 as int, d2 as nat, (fuel - 1) as nat,
                            add_total(before, child@, p2 as int, d2 as nat))));
                }
                if !added {
                    proof {
                        lemma_explode_from_unfold(self@.bom, child@, p2 as int, d2 as nat, (fuel - 1) as nat, None);
                    }
                    return false;
                }
                let ghost mid = totals_of(keys@, vals@, scales@);
                let went = self.explode_node(&child, p2, d2, fuel - 1, keys, vals, scales);
                if !went {
                    proof {
                        assert(add_total(before, child@, p2 as int, d2 as nat) == Some(mid));
                        assert(explode_from(self@.bom, child@, p2 as int, d2 as nat, (fuel - 1) as nat, Some(mid)) is None);
                    }
                    return false;
                }
            }
            i = i + 1;
        }
        proof {
            lemma_explode_lines_end(self@.bom, node@, p as int, d as nat, fuel as nat, Some(totals_of(keys@, vals@, scales@)));
        }
        true
    }

    /// The part number of the part with identifier `id`, or the empty text.
    fn part_number_of(&self, id: &str) -> (r: String)
        requires
            self.inv(),
        ensures
            r@ == pn_of(self@.parts, id@),
    {
        match self.find_part(id) {
            Some(i) => self.parts[i].part_number.clone(),
            None => String::new(),
        }
    }

    /// Explodes a bill of materials into total component quantities: the
    /// quantities multiply down each path from `parent_id`, exactly, and
    /// paths to the same component add up; each total is rounded once, to
    /// the nearest thousandth. Components are ordered by part number. Refused
    /// where an exact product or sum outgrows an `i128`.
    pub fn explode_bom(&self, parent_id: &str, multiplier: i64) -> (r: Result<BomExplosion, String>)
        requires
            self.inv(),
        ensures
            match r {
                Err(e) => explosion(self@.bom, parent_id@, multiplier as int) is None && e@ == out_of_range(),
                Ok(x) => {
                    &&& explosion(self@.bom, parent_id@, multiplier as int) is Some
                    &&& x.parent_id@ == parent_id@
                    &&& x.multiplier == multiplier
                    &&& x.component_count == explosion(self@.bom, parent_id@, multiplier as int)->0.len()
                    &&& text_sorted_as(
                        x.components@,
                        explosion(self@.bom, parent_id@, multiplier as int)->0,
                        |e: (Seq<char>, int, nat)| component_key(self@.parts, e),
                        |c: BomComponent, e: (Seq<char>, int, nat)| component_matches(self@.parts, c, e),
                    )
                    &&& forall|k: int| 0 <= k < x.components.len() ==> (#[trigger] x.components@[k]).total_qty
                        == clamp_i64(round_div(
                            path_sum(self@.bom, parent_id@, x.components@[k].part_id@, multiplier as int, self@.bom.len()),
                            pow1000(self@.bom.len()),
                        ))
                    &&& forall|c: Seq<char>| #[trigger] path_sum(self@.bom, parent_id@, c, multiplier as int, self@.bom.len()) != 0
                        ==> exists|k: int| 0 <= k < x.components.len() && (#[trigger] x.components@[k]).part_id@ == c
                    &&& forall|a: int, b: int| 0 <= a < b < x.components.len()
                        ==> (#[trigger] x.components@[a]).part_id@ != (#[trigger] x.components@[b]).part_id@
                },
            },
    {
        let mut keys: Vec<String> = Vec::new();
        let mut vals: Vec<i128> = Vec::new();
        let mut scales: Vec<usize> = Vec::new();
        let root = parent_id.to_owned();
        assert(totals_of(keys@, vals@, scales@) =~= Seq::<(Seq<char>, int, nat)>::empty());
        let ok = self.explode_node(&root, multiplier as i128, 0, self.bom.len(), &mut keys, &mut vals, &mut scales);
        if !ok {
            return Err(out_of_range_msg());
        }
        let ghost t = totals_of(keys@, vals@, scales@);
        let mut rows: Vec<BomComponent> = Vec::new();
        let mut sort_keys: Vec<Vec<char>> = Vec::new();
        let mut j: usize = 0;
        while j < keys.len()
            invariant
                self.inv(),
                keys.len() == vals.len(),
                keys.len() == scales.len(),
                t == totals_of(keys@, vals@, scales@),
                totals_held(t),
                j <= keys.len(),
                rows.len() == j,
                sort_keys.len() == j,
                forall|m: int| 0 <= m < j ==> component_matches(self@.parts, #[trigger] rows@[m], t[m]),
                forall|m: int| 0 <= m < j ==> (#[trigger] sort_keys@[m])@ == component_key(self@.parts, t[m]),
            decreases keys.len() - j,
        {
            let pn = self.part_number_of(keys[j].as_str());
            sort_keys.push(chars_of(pn.as_str()));
            proof {
                assert(held(t[j as int].1));
            }
            let total = total_thousandths_exec(vals[j], scales[j]);
            rows.push(BomComponent { part_id: keys[j].clone(), part_number: pn, total_qty: total });
            j = j + 1;
        }
        assert(sort_keys@.map_values(|k: Vec<char>| k@) =~= t.map_values(|e: (Seq<char>, int, nat)| component_key(self@.parts, e)));
        let idx = order_by_text(&sort_keys);
        let components = lay_out(&rows, &idx);
        assert(arranged(components@, t, idx@, |c: BomComponent, e: (Seq<char>, int, nat)| component_matches(self@.parts, c, e)));
        let x = BomExplosion { parent_id: root, multiplier, component_count: keys.len(), components };
        proof {
            law_explode_bom_totals(self@.parts, self@.bom, parent_id@, multiplier as int, x.components@);
        }
        Ok(x)
    }

    /// Where-used: the lines that consume `child_id`, as (parent, part
    /// number, quantity per) rows ordered by the parent's part number.
    pub fn where_used(&self, child_id: &str) -> (r: WhereUsed)
        requires
            self.inv(),
        ensures
            r.child_id@ == child_id@,
            r.used_in_count == self@.bom.filter(|l: BomLine| l.child_id@ == child_id@).len(),
            text_sorted_as(
                r.used_in@,
                self@.bom.filter(|l: BomLine| l.child_id@ == child_id@),
                |l: BomLine| parent_key(self@.parts, l),
                |row: WhereUsedRow, l: BomLine| used_row_matches(self@.parts, row, l),
            ),
    {
        let ghost pred = |l: BomLine| l.child_id@ == child_id@;
        let key = child_id.to_owned();
        let mut lines: Vec<BomLine> = Vec::new();
        let mut rows: Vec<WhereUsedRow> = Vec::new();
        let mut sort_keys: Vec<Vec<char>> = Vec::new();
        let mut i: usize = 0;
        while i < self.bom.len()
            invariant
                self.inv(),
                key@ == child_id@,
                pred == (|l: BomLine| l.child_id@ == child_id@),
                i <= self.bom.len(),
                lines@ == self@.bom.take(i as int).filter(pred),
                rows.len() == lines.len(),
                sort_keys.len() == lines.len(),
                forall|m: int| 0 <= m < rows.len() ==> used_row_matches(self@.parts, #[trigger] rows@[m], lines@[m]),
                forall|m: int| 0 <= m < rows.len() ==> (#[trigger] sort_keys@[m])@ == parent_key(self@.parts, lines@[m]),
            decreases self.bom.len() - i,
        {
            proof {
                reveal_with_fuel(Seq::<_>::filter, 1);
                assert(self@.bom.take(i + 1).drop_last() =~= self@.bom.take(i as int));
            }
            if self.bom[i].child_id == key {
                let line = self.bom[i].clone();
                let pn = self.part_number_of(line.parent_id.as_str());
                sort_keys.push(chars_of(pn.as_str()));
                rows.push(WhereUsedRow { parent_id: line.parent_id.clone(), part_number: pn, qty_per: line.qty });
                lines.push(line);
            }
            i = i + 1;
        }
        assert(self@.bom.take(self.bom.len() as int) =~= self@.bom);
        assert(sort_keys@.map_values(|k: Vec<char>| k@) =~= lines@.map_values(|l: BomLine| parent_key(self@.parts, l)));
        let idx = order_by_text(&sort_keys);
        let used_in = lay_out(&rows, &idx);
        assert(arranged(used_in@, lines@, idx@, |row: WhereUsedRow, l: BomLine| used_row_matches(self@.parts, row, l)));
        WhereUsed { child_id: key, used_in_count: rows.len(), used_in }
    }
}


// ─── what an explosion adds up ───────────────────────────────────────────────

/// The sum, over every path of at most `fuel` lines from `node` down to the
/// part `c`, of `w` times the product of the line quantities along the
/// path, a path of `n` lines weighted by `1000^(fuel - n)`: with quantities
/// in thousandths, every path then stands at the one scale, `1000^fuel`
/// parts of a thousandth.
pub open spec fn path_sum(bom: Seq<BomLine>, node: Seq<char>, c: Seq<char>, w: int, fuel: nat) -> int
    decreases fuel, bom.len() + 1,
{
    if fuel == 0 {
        0
    } else {
        path_sum_from(bom, node, c, w, fuel, 0)
    }
}

/// The paths of `path_sum` that begin with a line of `node` at position `i`
/// or later.
pub open spec fn path_sum_from(bom: Seq<BomLine>, node: Seq<char>, c: Seq<char>, w: int, fuel: nat, i: int) -> int
    decreases fuel, bom.len() - i,
{
    if fuel == 0 || i < 0 || i >= bom.len() {
        0
    } else if bom[i].parent_id@ != node {
        path_sum_from(bom, node, c, w, fuel, i + 1)
    } else {
        (if bom[i].child_id@ == c {
            w * bom[i].qty * pow1000((fuel - 1) as nat)
        } else {
            0
        }) + path_sum(bom, bom[i].child_id@, c, w * bom[i].qty, (fuel - 1) as nat) + path_sum_from(
            bom,
            node,
            c,
            w,
            fuel,
            i + 1,
        )
    }
}

/// No part has two entries in the totals.
pub open spec fn keys_distinct(t: Totals) -> bool {
    forall|i: int, j: int| 0 <= i < j < t.len() ==> (#[trigger] t[i]).0 != (#[trigger] t[j]).0
}

/// Every total is kept at a scale of at most `1000^l`.
pub open spec fn scales_within(t: Totals, l: nat) -> bool {
    forall|j: int| 0 <= j < t.len() ==> (#[trigger] t[j]).2 <= l
}

/// The total of `c` at the scale `1000^l` (0 where `c` has no entry).
pub open spec fn total_value(t: Totals, c: Seq<char>, l: nat) -> int {
    let j = total_pos(t, c);
    if j >= 0 {
        t[j].1 * pow1000((l - t[j].2) as nat)
    } else {
        0
    }
}

proof fn lemma_pow1000_add(a: nat, b: nat)
    ensures
        pow1000(a + b) == pow1000(a) * pow1000(b),
    decreases a,
{
    if a > 0 {
        lemma_pow1000_add((a - 1) as nat, b);
        assert(pow1000(a + b) == 1000 * pow1000((a - 1 + b) as nat));
        let x = pow1000((a - 1) as nat);
        let y = pow1000(b);
        assert(1000 * (x * y) == (1000 * x) * y) by (nonlinear_arith);
    }
}

/// Reducing keeps the value: `reduced(p, d) = (r, s)` with `r * 1000^(d - s) = p`.
proof fn lemma_reduced_value(p: int, d: nat)
    ensures
        reduced(p, d).1 <= d,
        reduced(p, d).0 * pow1000((d - reduced(p, d).1) as nat) == p,
    decreases d,
{
    if d > 0 && p % 1000 == 0 {
        lemma_reduced_value(p / 1000, (d - 1) as nat);
        lemma_fundamental_div_mod(p, 1000);
        let r = reduced(p, d).0;
        let s = reduced(p, d).1;
        let e = pow1000((d - 1 - s) as nat);
        assert(pow1000((d - s) as nat) == 1000 * e);
        assert(r * e == p / 1000);
        assert(r * (1000 * e) == 1000 * (r * e)) by (nonlinear_arith);
    }
}

/// Scaling up multiplies by `1000^k`.
proof fn lemma_scale_up_value(v: int, k: nat)
    ensures
        scale_up(v, k) matches Some(w) ==> w == v * pow1000(k),
    decreases k,
{
    if k > 0 {
        lemma_scale_up_value(v, (k - 1) as nat);
        let e = pow1000((k - 1) as nat);
        assert((v * e) * 1000 == v * (1000 * e)) by (nonlinear_arith);
    }
}

/// With distinct keys, the position of a part is where its entry stands.
proof fn lemma_total_pos_distinct(t: Totals, k: Seq<char>)
    requires
        keys_distinct(t),
    ensures
        -1 <= total_pos(t, k) < t.len(),
        total_pos(t, k) >= 0 ==> t[total_pos(t, k)].0 == k,
        total_pos(t, k) < 0 ==> forall|j: int| 0 <= j < t.len() ==> (#[trigger] t[j]).0 != k,
        forall|j: int| 0 <= j < t.len() && (#[trigger] t[j]).0 == k ==> total_pos(t, k) == j,
{
    if exists|j: int| 0 <= j < t.len() && t[j].0 == k {
        let j0 = choose|j: int| 0 <= j < t.len() && t[j].0 == k;
        assert(forall|m: int| 0 <= m < j0 ==> (#[trigger] t[m]).0 != k);
        let q = total_pos(t, k);
        assert(0 <= q < t.len() && t[q].0 == k);
        assert forall|j: int| 0 <= j < t.len() && (#[trigger] t[j]).0 == k implies q == j by {
            if q < j {
                assert(t[q].0 != t[j].0);
            } else if j < q {
                assert(t[j].0 != t[q].0);
            }
        }
    }
}

/// Adding to the totals adds to the total of that part alone, at any scale
/// as fine as the finest entry.
proof fn lemma_add_total_value(t: Totals, k: Seq<char>, p: int, d: nat, l: nat, c: Seq<char>)
    requires
        keys_distinct(t),
        scales_within(t, l),
        d <= l,
        add_total(t, k, p, d) is Some,
    ensures
        keys_distinct(add_total(t, k, p, d)->0),
        scales_within(add_total(t, k, p, d)->0, l),
        total_value(add_total(t, k, p, d)->0, c, l) == total_value(t, c, l) + (if c == k {
            p * pow1000((l - d) as nat)
        } else {
            0
        }),
{
    let j = total_pos(t, k);
    let t2 = add_total(t, k, p, d)->0;
    lemma_total_pos_distinct(t, k);
    lemma_total_pos_distinct(t, c);
    if j < 0 {
        assert(t2 == t.push((k, p, d)));
        assert(keys_distinct(t2)) by {
            assert forall|a: int, b: int| 0 <= a < b < t2.len() implies (#[trigger] t2[a]).0 != (#[trigger] t2[b]).0 by {
                if b < t.len() {
                    assert(t2[a] == t[a] && t2[b] == t[b]);
                } else {
                    assert(t2[a] == t[a]);
                }
            }
        }
        lemma_total_pos_distinct(t2, c);
        if c == k {
            assert(t2[t.len() as int].0 == k);
        } else {
            let q = total_pos(t, c);
            if q >= 0 {
                assert(t2[q] == t[q]);
            } else {
                assert forall|m: int| 0 <= m < t2.len() implies (#[trigger] t2[m]).0 != c by {
                    if m < t.len() {
                        assert(t2[m] == t[m]);
                    }
                }
            }
        }
    } else {
        let v = t[j].1;
        let s = t[j].2;
        let top: nat = if s >= d { s } else { d };
        let a = scale_up(v, (top - s) as nat)->0;
        let b = scale_up(p, (top - d) as nat)->0;
        let r = reduced(a + b, top);
        assert(t2 == t.update(j, (k, r.0, r.1)));
        assert(keys_distinct(t2)) by {
            assert forall|x: int, y: int| 0 <= x < y < t2.len() implies (#[trigger] t2[x]).0 != (#[trigger] t2[y]).0 by {
                assert(t2[x].0 == t[x].0 && t2[y].0 == t[y].0);
            }
        }
        lemma_reduced_value(a + b, top);
        lemma_total_pos_distinct(t2, c);
        if c == k {
            assert(t2[j].0 == k);
            lemma_scale_up_value(v, (top - s) as nat);
            lemma_scale_up_value(p, (top - d) as nat);
            let up = pow1000((l - top) as nat);
            lemma_pow1000_add((top - r.1) as nat, (l - top) as nat);
            lemma_pow1000_add((top - s) as nat, (l - top) as nat);
            lemma_pow1000_add((top - d) as nat, (l - top) as nat);
            assert((top - r.1) as nat + (l - top) as nat == (l - r.1) as nat);
            assert((top - s) as nat + (l - top) as nat == (l - s) as nat);
            assert((top - d) as nat + (l - top) as nat == (l - d) as nat);
            let e1 = pow1000((top - r.1) as nat);
            let e2 = pow1000((top - s) as nat);
            let e3 = pow1000((top - d) as nat);
            assert(r.0 * e1 == v * e2 + p * e3);
            assert(r.0 * (e1 * up) == v * (e2 * up) + p * (e3 * up)) by (nonlinear_arith)
                requires
                    r.0 * e1 == v * e2 + p * e3,
            ;
        } else {
            let q = total_pos(t, c);
            if q >= 0 {
                assert(q != j);
                assert(t2[q] == t[q]);
            } else {
                assert forall|m: int| 0 <= m < t2.len() implies (#[trigger] t2[m]).0 != c by {
                    assert(t2[m].0 == t[m].0);
                }
            }
        }
    }
}

/// Exploding `node`, reached at `p / 1000^d` thousandths, adds to each
/// part's total the sum over the paths down to it.
proof fn lemma_explode_from_sums(
    bom: Seq<BomLine>,
    node: Seq<char>,
    p: int,
    d: nat,
    fuel: nat,
    acc: Totals,
    l: nat,
    c: Seq<char>,
)
    requires
        d + fuel <= l,
        keys_distinct(acc),
        scales_within(acc, l),
        explode_from(bom, node, p, d, fuel, Some(acc)) is Some,
    ensures
        keys_distinct(explode_from(bom, node, p, d, fuel, Some(acc))->0),
        scales_within(explode_from(bom, node, p, d, fuel, Some(acc))->0, l),
        total_value(explode_from(bom, node, p, d, fuel, Some(acc))->0, c, l) == total_value(acc, c, l)
            + path_sum(bom, node, c, p * pow1000((l - d - fuel) as nat), fuel),
    decreases fuel, bom.len() + 1,
{
    lemma_explode_from_unfold(bom, node, p, d, fuel, Some(acc));
    if fuel > 0 {
        lemma_explode_lines_sums(bom, node, p, d, fuel, 0, acc, l, c);
    }
}

/// The lines of `node` from position `i` on add the paths that begin with
/// them.
proof fn lemma_explode_lines_sums(
    bom: Seq<BomLine>,
    node: Seq<char>,
    p: int,
    d: nat,
    fuel: nat,
    i: int,
    acc: Totals,
    l: nat,
    c: Seq<char>,
)
    requires
        fuel > 0,
        0 <= i <= bom.len(),
        d + fuel <= l,
        keys_distinct(acc),
        scales_within(acc, l),
        explode_lines(bom, node, p, d, fuel, i, Some(acc)) is Some,
    ensures
        keys_distinct(explode_lines(bom, node, p, d, fuel, i, Some(acc))->0),
        scales_within(explode_lines(bom, node, p, d, fuel, i, Some(acc))->0, l),
        total_value(explode_lines(bom, node, p, d, fuel, i, Some(acc))->0, c, l) == total_value(acc, c, l)
            + path_sum_from(bom, node, c, p * pow1000((l - d - fuel) as nat), fuel, i),
    decreases fuel, bom.len() - i,
{
    let w = p * pow1000((l - d - fuel) as nat);
    if i == bom.len() {
        lemma_explode_lines_end(bom, node, p, d, fuel, Some(acc));
    } else {
        lemma_explode_lines_step(bom, node, p, d, fuel, i, Some(acc));
        let line = bom[i];
        if line.parent_id@ != node {
            lemma_explode_lines_sums(bom, node, p, d, fuel, i + 1, acc, l, c);
        } else {
            let q = reduced(p * line.qty, d + 1);
            let child = line.child_id@;
            let added = add_total(acc, child, q.0, q.1);
            let mid = explode_from(bom, child, q.0, q.1, (fuel - 1) as nat, added);
            if i + 1 < bom.len() {
                lemma_explode_lines_step(bom, node, p, d, fuel, i + 1, None);
            } else {
                lemma_explode_lines_end(bom, node, p, d, fuel, None);
            }
            assert(mid is Some);
            lemma_explode_from_unfold(bom, child, q.0, q.1, (fuel - 1) as nat, None);
            assert(added is Some);
            lemma_reduced_value(p * line.qty, d + 1);
            lemma_add_total_value(acc, child, q.0, q.1, l, c);
            lemma_explode_from_sums(bom, child, q.0, q.1, (fuel - 1) as nat, added->0, l, c);
            lemma_explode_lines_sums(bom, node, p, d, fuel, i + 1, mid->0, l, c);
            let k = (d + 1 - q.1) as nat;
            let e = pow1000(k);
            let up = pow1000((l - d - fuel) as nat);
            let f1 = pow1000((fuel - 1) as nat);
            assert(q.0 * e == p * line.qty);
            lemma_pow1000_add(k, (l - d - fuel) as nat);
            assert(k + (l - d - fuel) as nat == (l - q.1 - (fuel - 1)) as nat);
            lemma_pow1000_add((l - q.1 - (fuel - 1)) as nat, (fuel - 1) as nat);
            assert((l - q.1 - (fuel - 1)) as nat + (fuel - 1) as nat == (l - q.1) as nat);
            assert(q.0 * (e * up) == w * line.qty) by (nonlinear_arith)
                requires
                    q.0 * e == p * line.qty,
                    w == p * up,
            ;
            assert(q.0 * ((e * up) * f1) == w * line.qty * f1) by (nonlinear_arith)
                requires
                    q.0 * (e * up) == w * line.qty,
            ;
        }
    }
}

/// The exact totals of an explosion are the path sums: each part's total,
/// at the scale `1000^n` for a bill of `n` lines, is the sum over every path
/// of lines from the parent down to it of the multiplier times the product
/// of the quantities along the path (each path of `k` lines weighted by
/// `1000^(n - k)`); a part reached by no path has no entry, and no part has
/// two.
pub proof fn law_explosion_sums_every_path(bom: Seq<BomLine>, parent: Seq<char>, multiplier: int, c: Seq<char>)
    requires
        explosion(bom, parent, multiplier) is Some,
    ensures
        keys_distinct(explosion(bom, parent, multiplier)->0),
        scales_within(explosion(bom, parent, multiplier)->0, bom.len()),
        total_value(explosion(bom, parent, multiplier)->0, c, bom.len()) == path_sum(bom, parent, c, multiplier, bom.len()),
{
    let empty = Seq::<(Seq<char>, int, nat)>::empty();
    lemma_explode_from_sums(bom, parent, multiplier, 0, bom.len(), empty, bom.len(), c);
    lemma_total_pos_distinct(empty, c);
    assert(pow1000(0) == 1);
}

/// Rounding a non-negative `n / a` to the nearest integer gives the same at
/// a finer scale `n * k / (a * k)`, for `a` a power of 1000.
proof fn lemma_round_rescale_nonneg(n: int, s: nat, k: nat)
    requires
        n >= 0,
    ensures
        (n * pow1000(k) + pow1000(s) * pow1000(k) / 2) / (pow1000(s) * pow1000(k)) == (n + pow1000(s) / 2) / pow1000(s),
{
    let a = pow1000(s);
    let kk = pow1000(k);
    lemma_pow1000_pos(s);
    lemma_pow1000_pos(k);
    if s == 0 {
        assert(a == 1);
        assert(a * kk == kk);
        assert(n * kk == kk * n) by (nonlinear_arith);
        lemma_div_multiples_vanish_fancy(n, kk / 2, kk);
    } else {
        let h = 500 * pow1000((s - 1) as nat);
        assert(a == 2 * h);
        assert(a / 2 == h);
        assert(a * kk / 2 == h * kk) by (nonlinear_arith)
            requires
                a == 2 * h,
        ;
        assert(n * kk + h * kk == kk * (n + h)) by (nonlinear_arith);
        assert(a * kk == kk * a) by (nonlinear_arith);
        lemma_div_multiples_vanish_quotient(kk, n + h, a);
    }
}

/// Rounding to thousandths does not depend on the scale a total is kept at.
proof fn lemma_round_rescale(v: int, s: nat, k: nat)
    ensures
        round_div(v * pow1000(k), pow1000(s + k)) == round_div(v, pow1000(s)),
{
    lemma_pow1000_add(s, k);
    lemma_pow1000_pos(s);
    lemma_pow1000_pos(k);
    let kk = pow1000(k);
    if v >= 0 {
        assert(v * kk >= 0) by (nonlinear_arith)
            requires
                v >= 0,
                kk >= 1,
        ;
        lemma_round_rescale_nonneg(v, s, k);
    } else {
        assert(v * kk < 0 && -(v * kk) == (-v) * kk) by (nonlinear_arith)
            requires
                v < 0,
                kk >= 1,
        ;
        lemma_round_rescale_nonneg(-v, s, k);
    }
}

/// Each component of an explosion carries, in thousandths, the sum over
/// every path of lines from the parent down to it of the multiplier times
/// the product of the line quantities along the path, rounded once to the
/// nearest thousandth (halves away from zero) and held within `i64`; every
/// part that the paths reach with a sum other than zero is a component; no
/// part is listed twice; the components come in order of part number; and,
/// short of the bounds of `i64`, each total lies within half a thousandth
/// of the exact sum.
pub proof fn law_explode_bom_totals(
    parts: Seq<Part>,
    bom: Seq<BomLine>,
    parent: Seq<char>,
    multiplier: int,
    comps: Seq<BomComponent>,
)
    requires
        explosion(bom, parent, multiplier) is Some,
        explosion(bom, parent, multiplier)->0.len() <= usize::MAX,
        text_sorted_as(
            comps,
            explosion(bom, parent, multiplier)->0,
            |e: (Seq<char>, int, nat)| component_key(parts, e),
            |c: BomComponent, e: (Seq<char>, int, nat)| component_matches(parts, c, e),
        ),
    ensures
        forall|k: int| 0 <= k < comps.len() ==> (#[trigger] comps[k]).total_qty == clamp_i64(
            round_div(path_sum(bom, parent, comps[k].part_id@, multiplier, bom.len()), pow1000(bom.len())),
        ),
        forall|c: Seq<char>| #[trigger] path_sum(bom, parent, c, multiplier, bom.len()) != 0 ==> exists|k: int|
            0 <= k < comps.len() && (#[trigger] comps[k]).part_id@ == c,
        forall|a: int, b: int| 0 <= a < b < comps.len() ==> (#[trigger] comps[a]).part_id@ != (#[trigger] comps[b]).part_id@,
        forall|a: int, b: int| 0 <= a < b < comps.len() ==> text_le((#[trigger] comps[a]).part_number@, (#[trigger] comps[b]).part_number@),
        forall|k: int| 0 <= k < comps.len() && i64::MIN < (#[trigger] comps[k]).total_qty < i64::MAX ==> -pow1000(bom.len())
            <= 2 * (comps[k].total_qty * pow1000(bom.len()) - path_sum(bom, parent, comps[k].part_id@, multiplier, bom.len()))
            <= pow1000(bom.len()),
{
    let t = explosion(bom, parent, multiplier)->0;
    let l = bom.len();
    let key = |e: (Seq<char>, int, nat)| component_key(parts, e);
    let rel = |c: BomComponent, e: (Seq<char>, int, nat)| component_matches(parts, c, e);
    let idx = choose|idx: Seq<usize>| text_order(idx, t.map_values(key)) && arranged(comps, t, idx, rel);
    law_explosion_sums_every_path(bom, parent, multiplier, parent);
    assert forall|k: int| 0 <= k < comps.len() implies (#[trigger] comps[k]).total_qty == clamp_i64(
        round_div(path_sum(bom, parent, comps[k].part_id@, multiplier, bom.len()), pow1000(bom.len())),
    ) by {
        let j = idx[k] as int;
        assert(rel(comps[k], t[j]));
        let c = t[j].0;
        law_explosion_sums_every_path(bom, parent, multiplier, c);
        lemma_total_pos_distinct(t, c);
        assert(total_pos(t, c) == j);
        assert(t[j].2 <= l);
        lemma_round_rescale(t[j].1, t[j].2, (l - t[j].2) as nat);
        assert(t[j].2 + (l - t[j].2) as nat == l);
    }
    assert forall|c: Seq<char>| #[trigger] path_sum(bom, parent, c, multiplier, bom.len()) != 0 implies exists|k: int|
        0 <= k < comps.len() && (#[trigger] comps[k]).part_id@ == c by {
        law_explosion_sums_every_path(bom, parent, multiplier, c);
        lemma_total_pos_distinct(t, c);
        let j = total_pos(t, c);
        assert(j >= 0);
        assert(idx.contains(j as usize));
        let k = choose|k: int| 0 <= k < idx.len() && idx[k] == j as usize;
        assert(rel(comps[k], t[idx[k] as int]));
    }
    assert forall|a: int, b: int| 0 <= a < b < comps.len() implies (#[trigger] comps[a]).part_id@ != (#[trigger] comps[b]).part_id@ by {
        assert(rel(comps[a], t[idx[a] as int]));
        assert(rel(comps[b], t[idx[b] as int]));
        assert(idx[a] != idx[b]);
        if idx[a] < idx[b] {
            assert(t[idx[a] as int].0 != t[idx[b] as int].0);
        } else {
            assert(t[idx[b] as int].0 != t[idx[a] as int].0);
        }
    }
    assert forall|a: int, b: int| 0 <= a < b < comps.len() implies text_le((#[trigger] comps[a]).part_number@, (#[trigger] comps[b]).part_number@) by {
        assert(rel(comps[a], t[idx[a] as int]));
        assert(rel(comps[b], t[idx[b] as int]));
        assert(text_le(t.map_values(key)[idx[a] as int], t.map_values(key)[idx[b] as int]));
    }
    assert forall|k: int| 0 <= k < comps.len() && i64::MIN < (#[trigger] comps[k]).total_qty < i64::MAX implies -pow1000(bom.len())
        <= 2 * (comps[k].total_qty * pow1000(bom.len()) - path_sum(bom, parent, comps[k].part_id@, multiplier, bom.len()))
        <= pow1000(bom.len()) by {
        lemma_pow1000_pos(l);
        lemma_round_div_nearest(path_sum(bom, parent, comps[k].part_id@, multiplier, l), pow1000(l));
    }
}

/// There is a path of `n` lines down from `node`.
pub open spec fn deep(bom: Seq<BomLine>, node: Seq<char>, n: nat) -> bool
    decreases n,
{
    if n == 0 {
        true
    } else {
        exists|i: int| 0 <= i < bom.len() && #[trigger] bom[i].parent_id@ == node && deep(bom, bom[i].child_id@, (n - 1) as nat)
    }
}

/// The positions of the lines of a path of `n` lines down from `node`.
proof fn lemma_deep_path(bom: Seq<BomLine>, node: Seq<char>, n: nat) -> (path: Seq<int>)
    requires
        deep(bom, node, n),
    ensures
        path.len() == n,
        forall|k: int| 0 <= k < n ==> 0 <= #[trigger] path[k] < bom.len(),
        n > 0 ==> bom[path[0]].parent_id@ == node,
        forall|k: int| 0 <= k < n - 1 ==> bom[#[trigger] path[k + 1]].parent_id@ == bom[path[k]].child_id@,
    decreases n,
{
    if n == 0 {
        Seq::empty()
    } else {
        let i = choose|i: int| 0 <= i < bom.len() && #[trigger] bom[i].parent_id@ == node && deep(bom, bom[i].child_id@, (n - 1) as nat);
        let rest = lemma_deep_path(bom, bom[i].child_id@, (n - 1) as nat);
        let path = seq![i] + rest;
        assert forall|k: int| 0 <= k < n - 1 implies bom[#[trigger] path[k + 1]].parent_id@ == bom[path[k]].child_id@ by {
            assert(path[k + 1] == rest[k]);
            if k > 0 {
                assert(path[k] == rest[k - 1]);
                assert(rest[(k - 1) + 1] == rest[k]);
            }
        }
        assert forall|k: int| 0 <= k < n implies 0 <= #[trigger] path[k] < bom.len() by {
            if k > 0 {
                assert(path[k] == rest[k - 1]);
            }
        }
        path
    }
}

/// Along a path, each line's child lies beneath the children before it.
proof fn lemma_path_reaches(bom: Seq<BomLine>, path: Seq<int>, a: int, b: int)
    requires
        0 <= a < b < path.len(),
        forall|k: int| 0 <= k < path.len() ==> 0 <= #[trigger] path[k] < bom.len(),
        forall|k: int| 0 <= k < path.len() - 1 ==> bom[#[trigger] path[k + 1]].parent_id@ == bom[path[k]].child_id@,
    ensures
        reaches(bom, bom[path[a]].child_id@, bom[path[b]].child_id@),
    decreases b - a,
{
    let root = bom[path[a]].child_id@;
    assert(bom[path[(b - 1) + 1]].parent_id@ == bom[path[b - 1]].child_id@);
    assert(0 <= path[b] < bom.len());
    lemma_reach_line(bom, bom[path[b - 1]].child_id@, 0, path[b]);
    assert(reach_within(bom, bom[path[b - 1]].child_id@, 1).contains(bom[path[b]].child_id@));
    if b > a + 1 {
        lemma_path_reaches(bom, path, a, b - 1);
        lemma_reaches_transitive(bom, root, bom[path[b - 1]].child_id@, bom[path[b]].child_id@);
    }
}

/// An acyclic bill of materials has no path longer than its number of lines:
/// the lines of a path are all different.
proof fn lemma_acyclic_shallow(bom: Seq<BomLine>, node: Seq<char>)
    requires
        acyclic(bom),
    ensures
        !deep(bom, node, bom.len() + 1),
{
    if deep(bom, node, bom.len() + 1) {
        let path = lemma_deep_path(bom, node, bom.len() + 1);
        assert forall|a: int, b: int| 0 <= a < path.len() && 0 <= b < path.len() && a != b implies path[a] != path[b] by {
            if a < b {
                lemma_path_reaches(bom, path, a, b);
                if path[a] == path[b] {
                    assert(!reaches(bom, bom[path[a]].child_id@, bom[path[a]].child_id@));
                }
            } else {
                lemma_path_reaches(bom, path, b, a);
                if path[a] == path[b] {
                    assert(!reaches(bom, bom[path[b]].child_id@, bom[path[b]].child_id@));
                }
            }
        }
        assert(path.no_duplicates());
        path.unique_seq_to_set();
        lemma_int_range(0, bom.len() as int);
        assert(path.to_set().subset_of(set_int_range(0, bom.len() as int))) by {
            assert forall|x: int| path.to_set().contains(x) implies set_int_range(0, bom.len() as int).contains(x) by {
                assert(path.contains(x));
                let k = choose|k: int| 0 <= k < path.len() && path[k] == x;
                assert(0 <= path[k] < bom.len());
            }
        }
        lemma_len_subset(path.to_set(), set_int_range(0, bom.len() as int));
    }
}

/// Where no path goes deeper than `fuel` lines, one more line of fuel only
/// moves the path sum to the finer scale.
proof fn lemma_path_sum_rescale(bom: Seq<BomLine>, node: Seq<char>, c: Seq<char>, w: int, fuel: nat)
    requires
        !deep(bom, node, fuel + 1),
    ensures
        path_sum(bom, node, c, w, fuel + 1) == 1000 * path_sum(bom, node, c, w, fuel),
    decreases fuel, bom.len() + 1,
{
    lemma_path_sum_from_rescale(bom, node, c, w, fuel, 0);
}

proof fn lemma_path_sum_from_rescale(bom: Seq<BomLine>, node: Seq<char>, c: Seq<char>, w: int, fuel: nat, i: int)
    requires
        !deep(bom, node, fuel + 1),
        0 <= i <= bom.len(),
    ensures
        path_sum_from(bom, node, c, w, fuel + 1, i) == 1000 * path_sum_from(bom, node, c, w, fuel, i),
    decreases fuel, bom.len() - i,
{
    if i < bom.len() {
        lemma_path_sum_from_rescale(bom, node, c, w, fuel, i + 1);
        if bom[i].parent_id@ == node {
            let child = bom[i].child_id@;
            let wq = w * bom[i].qty;
            if fuel == 0 {
                assert(deep(bom, child, 0));
                assert(deep(bom, node, 1));
            } else {
                if deep(bom, child, fuel) {
                    assert(deep(bom, node, fuel + 1));
                }
                lemma_path_sum_rescale(bom, child, c, wq, (fuel - 1) as nat);
                assert(pow1000(fuel) == 1000 * pow1000((fuel - 1) as nat));
                let e = pow1000((fuel - 1) as nat);
                assert(wq * (1000 * e) == 1000 * (wq * e)) by (nonlinear_arith);
            }
        }
    }
}

/// A part that does not lie beneath `node` gets nothing from its paths.
proof fn lemma_path_sum_unreached(bom: Seq<BomLine>, node: Seq<char>, c: Seq<char>, w: int, fuel: nat)
    requires
        !reaches(bom, node, c),
    ensures
        path_sum(bom, node, c, w, fuel) == 0,
    decreases fuel, bom.len() + 1,
{
    if fuel > 0 {
        lemma_path_sum_from_unreached(bom, node, c, w, fuel, 0);
    }
}

proof fn lemma_path_sum_from_unreached(bom: Seq<BomLine>, node: Seq<char>, c: Seq<char>, w: int, fuel: nat, i: int)
    requires
        !reaches(bom, node, c),
        fuel > 0,
        0 <= i <= bom.len(),
    ensures
        path_sum_from(bom, node, c, w, fuel, i) == 0,
    decreases fuel, bom.len() - i,
{
    if i < bom.len() {
        lemma_path_sum_from_unreached(bom, node, c, w, fuel, i + 1);
        if bom[i].parent_id@ == node {
            let child = bom[i].child_id@;
            lemma_reach_line(bom, node, 0, i);
            assert(reach_within(bom, node, 1).contains(child));
            if reaches(bom, child, c) {
                lemma_reaches_transitive(bom, node, child, c);
            }
            lemma_path_sum_unreached(bom, child, c, w * bom[i].qty, (fuel - 1) as nat);
        }
    }
}

/// A line appended beneath a part that `node` does not reach leaves the
/// path sums from `node` as they were.
proof fn lemma_path_sum_push_unused(bom: Seq<BomLine>, line: BomLine, node: Seq<char>, c: Seq<char>, w: int, fuel: nat)
    requires
        node != line.parent_id@,
        !reaches(bom.push(line), node, line.parent_id@),
    ensures
        path_sum(bom.push(line), node, c, w, fuel) == path_sum(bom, node, c, w, fuel),
    decreases fuel, bom.len() + 2,
{
    if fuel > 0 {
        lemma_path_sum_from_push_unused(bom, line, node, c, w, fuel, 0);
    }
}

proof fn lemma_path_sum_from_push_unused(
    bom: Seq<BomLine>,
    line: BomLine,
    node: Seq<char>,
    c: Seq<char>,
    w: int,
    fuel: nat,
    i: int,
)
    requires
        node != line.parent_id@,
        !reaches(bom.push(line), node, line.parent_id@),
        fuel > 0,
        0 <= i <= bom.len(),
    ensures
        path_sum_from(bom.push(line), node, c, w, fuel, i) == path_sum_from(bom, node, c, w, fuel, i),
    decreases fuel, bom.len() + 1 - i,
{
    let nb = bom.push(line);
    if i == bom.len() {
        assert(nb[i] == line);
        assert(path_sum_from(nb, node, c, w, fuel, i + 1) == 0);
    } else {
        assert(nb[i] == bom[i]);
        lemma_path_sum_from_push_unused(bom, line, node, c, w, fuel, i + 1);
        if bom[i].parent_id@ == node {
            let child = bom[i].child_id@;
            lemma_reach_line(nb, node, 0, i);
            assert(reach_within(nb, node, 1).contains(child));
            if child == line.parent_id@ {
                assert(reaches(nb, node, line.parent_id@));
            }
            if reaches(nb, child, line.parent_id@) {
                lemma_reaches_transitive(nb, node, child, line.parent_id@);
            }
            lemma_path_sum_push_unused(bom, line, child, c, w * bom[i].qty, (fuel - 1) as nat);
        }
    }
}

/// In an acyclic bill, the lines of `p` gain, from a line `p -> c` appended
/// to them, the path of that one line into `c`.
proof fn lemma_path_sum_from_push_at_parent(bom: Seq<BomLine>, line: BomLine, w: int, fuel: nat, i: int)
    requires
        acyclic(bom.push(line)),
        fuel > 0,
        0 <= i <= bom.len(),
    ensures
        path_sum_from(bom.push(line), line.parent_id@, line.child_id@, w, fuel, i)
            == path_sum_from(bom, line.parent_id@, line.child_id@, w, fuel, i) + w * line.qty * pow1000((fuel - 1) as nat),
    decreases bom.len() - i,
{
    let nb = bom.push(line);
    let p = line.parent_id@;
    let c = line.child_id@;
    if i == bom.len() {
        assert(nb[i] == line);
        assert(!reaches(nb, c, c));
        lemma_path_sum_unreached(nb, c, c, w * line.qty, (fuel - 1) as nat);
        assert(path_sum_from(nb, p, c, w, fuel, i + 1) == 0);
    } else {
        assert(nb[i] == bom[i]);
        lemma_path_sum_from_push_at_parent(bom, line, w, fuel, i + 1);
        if bom[i].parent_id@ == p {
            let child = bom[i].child_id@;
            lemma_reach_line(nb, p, 0, i);
            assert(reach_within(nb, p, 1).contains(child));
            assert(!reaches(nb, p, p));
            if reaches(nb, child, p) {
                lemma_reaches_transitive(nb, p, child, p);
            }
            lemma_path_sum_push_unused(bom, line, child, c, w * bom[i].qty, (fuel - 1) as nat);
        }
    }
}

/// Adding a line `p -> c` of quantity `q` to an acyclic bill of `n` lines,
/// as a bill-of-materials line is accepted (no cycle comes of it), raises
/// the exact total of `c` in the explosion of `p` by the multiplier times
/// `q`: kept at the scale `1000^(n + 1)`, the new total is the old one
/// (kept at `1000^n`) times 1000, plus `multiplier * q * 1000^n`.
pub proof fn law_added_line_raises_total(bom: Seq<BomLine>, line: BomLine, multiplier: int)
    requires
        acyclic(bom),
        line.parent_id@ != line.child_id@,
        !reaches(bom, line.child_id@, line.parent_id@),
        explosion(bom, line.parent_id@, multiplier) is Some,
        explosion(bom.push(line), line.parent_id@, multiplier) is Some,
    ensures
        total_value(explosion(bom.push(line), line.parent_id@, multiplier)->0, line.child_id@, bom.len() + 1)
            == 1000 * total_value(explosion(bom, line.parent_id@, multiplier)->0, line.child_id@, bom.len())
                + multiplier * line.qty * pow1000(bom.len()),
{
    let nb = bom.push(line);
    let p = line.parent_id@;
    let c = line.child_id@;
    lemma_acyclic_extended(bom, line);
    law_explosion_sums_every_path(nb, p, multiplier, c);
    law_explosion_sums_every_path(bom, p, multiplier, c);
    assert(nb.len() == bom.len() + 1);
    lemma_path_sum_from_push_at_parent(bom, line, multiplier, (bom.len() + 1) as nat, 0);
    lemma_acyclic_shallow(bom, p);
    lemma_path_sum_rescale(bom, p, c, multiplier, bom.len());
}

} // verus!




