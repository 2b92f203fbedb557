//! Supersession: chains of replacement parts.

use vstd::prelude::*;
use super::{has_link_from, audited, has_part, part_pos, PartsStore, StoreView};
use super::bom::{count_unused, listed};
use super::messages::{link_detail, link_detail_msg, part_not_found, part_not_found_msg};
use crate::types::{Part, PartStatus, SupersessionLink};

verus! {

/// Why a supersession is refused, if it is.
pub open spec fn supersession_refusal(v: StoreView, from_id: Seq<char>, to_id: Seq<char>) -> Option<Seq<char>> {
    if !has_part(v.parts, from_id) {
        Some(part_not_found(from_id))
    } else if !has_part(v.parts, to_id) {
        Some(part_not_found(to_id))
    } else if from_id == to_id {
        Some("a part cannot supersede itself"@)
    } else {
        None
    }
}

/// `v1` is `v0` after `to` was recorded as superseding `from`: the link is
/// appended, `from` is marked superseded, and the audit trail records it.
pub open spec fn supersession_added(
    v0: StoreView,
    v1: StoreView,
    from: Seq<char>,
    to: Seq<char>,
    note: Seq<char>,
    actor: Seq<char>,
    link: SupersessionLink,
) -> bool {
    let ps = v0.parts;
    let i = part_pos(ps, from);
    &&& link.from_id@ == from
    &&& link.to_id@ == to
    &&& link.note@ == note
    &&& v1 == (StoreView {
        parts: ps.update(i, Part { status: PartStatus::Superseded, ..ps[i] }),
        supersessions: v0.supersessions.push(link),
        audit: v1.audit,
        ..v0
    })
    &&& audited(v0.audit, v1.audit, actor, "add_supersession"@, link_detail(from, to))
}

/// Position of the first link that replaces `x`, or -1.
pub open spec fn first_link_pos(links: Seq<SupersessionLink>, x: Seq<char>) -> int {
    if exists|j: int| 0 <= j < links.len() && links[j].from_id@ == x {
        choose|j: int|
            0 <= j < links.len() && links[j].from_id@ == x && forall|m: int|
                0 <= m < j ==> (#[trigger] links[m]).from_id@ != x
    } else {
        -1
    }
}

/// The replacements that follow `cur`, one link at a time (the first link
/// of each part), stopping at a part without a link or at a part already
/// passed, at most `fuel` of them.
pub open spec fn follow(links: Seq<SupersessionLink>, cur: Seq<char>, seen: Set<Seq<char>>, fuel: nat) -> Seq<Seq<char>>
    decreases fuel,
{
    if fuel == 0 || seen.contains(cur) {
        Seq::empty()
    } else {
        let i = first_link_pos(links, cur);
        if i < 0 {
            Seq::empty()
        } else {
            seq![links[i].to_id@] + follow(links, links[i].to_id@, seen.insert(cur), (fuel - 1) as nat)
        }
    }
}

/// The supersession chain of a part: the part, then its replacements in
/// turn. A chain passes each link at most once, so `links.len() + 1` steps
/// reach its end.
pub open spec fn supersession_chain(links: Seq<SupersessionLink>, start: Seq<char>) -> Seq<Seq<char>> {
    seq![start] + follow(links, start, Set::empty(), (links.len() + 1) as nat)
}

pub open spec fn seen_set(seen: Seq<String>) -> Set<Seq<char>> {
    Set::new(|x: Seq<char>| listed(seen, x))
}

proof fn lemma_seen_push(seen: Seq<String>, s: String)
    ensures
        seen_set(seen.push(s)) == seen_set(seen).insert(s@),
{
    let n = seen.push(s);
    assert forall|x: Seq<char>| listed(n, x) <==> (listed(seen, x) || x == s@) by {
        if listed(seen, x) {
            let j = choose|j: int| 0 <= j < seen.len() && #[trigger] seen[j]@ == x;
            assert(n[j]@ == x);
        }
        if x == s@ {
            assert(n[seen.len() as int]@ == x);
        }
        if listed(n, x) {
            let j = choose|j: int| 0 <= j < n.len() && #[trigger] n[j]@ == x;
            if j < seen.len() {
                assert(seen[j]@ == x);
            }
        }
    }
    assert(seen_set(n) =~= seen_set(seen).insert(s@));
}

proof fn lemma_follow_step(links: Seq<SupersessionLink>, cur: Seq<char>, seen: Set<Seq<char>>, fuel: nat, k: int)
    requires
        fuel > 0,
        !seen.contains(cur),
        k == first_link_pos(links, cur),
        0 <= k,
    ensures
        follow(links, cur, seen, fuel) == seq![links[k].to_id@] + follow(links, links[k].to_id@, seen.insert(cur), (fuel - 1) as nat),
{
    reveal(follow);
}

proof fn lemma_follow_stops(links: Seq<SupersessionLink>, cur: Seq<char>, seen: Set<Seq<char>>, fuel: nat)
    requires
        seen.contains(cur) || first_link_pos(links, cur) < 0,
    ensures
        follow(links, cur, seen, fuel) == Seq::<Seq<char>>::empty(),
{
    reveal(follow);
}

proof fn lemma_count_unused_le(used: Seq<bool>)
    ensures
        count_unused(used) <= used.len(),
        (forall|m: int| 0 <= m < used.len() ==> !used[m]) ==> count_unused(used) == used.len(),
    decreases used.len(),
{
    if used.len() > 0 {
        lemma_count_unused_le(used.drop_last());
        if forall|m: int| 0 <= m < used.len() ==> !used[m] {
            assert forall|m: int| 0 <= m < used.drop_last().len() implies !used.drop_last()[m] by {
                assert(used.drop_last()[m] == used[m]);
            }
        }
    }
}

pub open spec fn texts(v: Seq<String>) -> Seq<Seq<char>> {
    v.map_values(|s: String| s@)
}

/// A part's supersession chain resolved to its current replacement.
#[derive(Debug)]
pub struct SupersessionResolution {
    pub part_id: String,
    pub current_part_id: String,
    pub superseded: bool,
    /// The part, then each replacement in turn.
    pub chain: Vec<String>,
}

impl PartsStore {
    /// Records that `to_id` supersedes `from_id`, and marks `from_id`
    /// superseded.
    pub fn add_supersession(&mut self, from_id: &str, to_id: &str, note: &str, actor: &str) -> (r: Result<SupersessionLink, String>)
        requires
            old(self).inv(),
        ensures
            final(self).inv(),
            match r {
                Err(e) => supersession_refusal(old(self)@, from_id@, to_id@) == Some(e@) && final(self)@ == old(self)@,
                Ok(link) => supersession_refusal(old(self)@, from_id@, to_id@) is None
                    && supersession_added(old(self)@, final(self)@, from_id@, to_id@, note@, actor@, link),
            },
    {
        let i = match self.find_part(from_id) {
            Some(i) => i,
            None => {
                return Err(part_not_found_msg(from_id));
            },
        };
        if !self.part_exists(to_id) {
            return Err(part_not_found_msg(to_id));
        }
        let f = from_id.to_owned();
        let t = to_id.to_owned();
        if f == t {
            return Err("a part cannot supersede itself".to_owned());
        }
        let link = SupersessionLink { from_id: f, to_id: t, note: note.to_owned() };
        self.supersessions.push(link.clone());
        let mut part = self.parts[i].clone();
        part.status = PartStatus::Superseded;
        self.parts.set(i, part);
        proof {
            let o = old(self)@;
            let n = self@;
            assert(super::parts_kept(o.parts, n.parts));
            o.lemma_ids_ok_frame(n);
            reveal(StoreView::links_ok);
            assert forall|j: int| 0 <= j < n.stock.len() implies has_part(n.parts, (#[trigger] n.stock[j]).part_id@) by {
                super::lemma_parts_kept(o.parts, n.parts, n.stock[j].part_id@);
            }
            assert forall|j: int| 0 <= j < n.bom.len() implies has_part(n.parts, (#[trigger] n.bom[j]).parent_id@)
                && has_part(n.parts, n.bom[j].child_id@) by {
                super::lemma_parts_kept(o.parts, n.parts, n.bom[j].parent_id@);
                super::lemma_parts_kept(o.parts, n.parts, n.bom[j].child_id@);
            }
            assert forall|j: int| 0 <= j < n.supersessions.len() implies has_part(n.parts, (#[trigger] n.supersessions[j]).from_id@)
                && has_part(n.parts, n.supersessions[j].to_id@) by {
                if j < o.supersessions.len() {
                    assert(n.supersessions[j] == o.supersessions[j]);
                }
                super::lemma_parts_kept(o.parts, n.parts, n.supersessions[j].from_id@);
                super::lemma_parts_kept(o.parts, n.parts, n.supersessions[j].to_id@);
            }
            reveal(StoreView::ids_ok);
            let last = o.supersessions.len() as int;
            assert(n.supersessions[last].from_id@ == from_id@);
            assert forall|k: int| 0 <= k < n.parts.len() implies ((#[trigger] n.parts[k]).status == PartStatus::Superseded
                <==> has_link_from(n.supersessions, n.parts[k].id@)) by {
                if k != i {
                    assert(n.parts[k] == o.parts[k]);
                    assert(o.parts[k].id@ != o.parts[i as int].id@);
                    if has_link_from(n.supersessions, n.parts[k].id@) {
                        let j = choose|j: int| 0 <= j < n.supersessions.len() && n.supersessions[j].from_id@ == n.parts[k].id@;
                        assert(j != last);
                        assert(n.supersessions[j] == o.supersessions[j]);
                    }
                    if has_link_from(o.supersessions, o.parts[k].id@) {
                        let j = choose|j: int| 0 <= j < o.supersessions.len() && o.supersessions[j].from_id@ == o.parts[k].id@;
                        assert(n.supersessions[j] == o.supersessions[j]);
                    }
                }
            }
        }
        let detail = link_detail_msg(from_id, to_id);
        self.audit(actor, "add_supersession", detail);
        Ok(link)
    }

    /// Position of the first link that replaces `x`.
    fn find_link(&self, x: &String) -> (r: Option<usize>)
        ensures
            match r {
                Some(i) => i < self@.supersessions.len() && i == first_link_pos(self@.supersessions, x@)
                    && self@.supersessions[i as int].from_id@ == x@,
                None => first_link_pos(self@.supersessions, x@) == -1,
            },
    {
        let ls = &self.supersessions;
        let mut j: usize = 0;
        while j < ls.len()
            invariant
                ls@ == self@.supersessions,
                j <= ls.len(),
                forall|m: int| 0 <= m < j ==> (#[trigger] ls@[m]).from_id@ != x@,
            decreases ls.len() - j,
        {
            if ls[j].from_id == *x {
                proof {
                    assert(ls@[j as int].from_id@ == x@ && forall|m: int| 0 <= m < j ==> (#[trigger] ls@[m]).from_id@ != x@);
                    let p = first_link_pos(ls@, x@);
                    if p < j {
                        assert(ls@[p].from_id@ != x@);
                    } else if p > j {
                        assert(ls@[j as int].from_id@ != x@);
                    }
                }
                return Some(j);
            }
            j = j + 1;
        }
        None
    }

    /// Follows the supersession chain of a part to its current replacement,
    /// an active part wherever the chain does not loop back.
    #[verifier::rlimit(100)]
    pub fn resolve_supersession(&self, part_id: &str) -> (r: SupersessionResolution)
        ensures
            r.part_id@ == part_id@,
            texts(r.chain@) == supersession_chain(self@.supersessions, part_id@),
            r.current_part_id@ == supersession_chain(self@.supersessions, part_id@).last(),
            r.superseded == (r.current_part_id@ != part_id@),
            ({
                let c = supersession_chain(self@.supersessions, part_id@);
                self.inv() && !c.drop_last().contains(c.last()) && has_part(self@.parts, c.last())
                    ==> self@.parts[part_pos(self@.parts, c.last())].status == PartStatus::Active
            }),
    {
        proof {
            if self.inv() {
                super::laws::law_supersession_ends_active(self@, part_id@);
            }
        }
        let ghost links = self@.supersessions;
        let ghost whole = supersession_chain(links, part_id@);
        let n = self.supersessions.len();
        let start = part_id.to_owned();
        let mut chain: Vec<String> = Vec::new();
        chain.push(start.clone());
        let mut cur = start.clone();
        let mut seen: Vec<String> = Vec::new();
        let mut used: Vec<bool> = Vec::new();
        let mut i: usize = 0;
        while i < n
            invariant
                n == self@.supersessions.len(),
                i <= n,
                used.len() == i,
                forall|m: int| 0 <= m < i ==> !used@[m],
            decreases n - i,
        {
            used.push(false);
            i = i + 1;
        }
        let ghost mut fuel: nat = (n + 1) as nat;
        proof {
            lemma_count_unused_le(used@);
        }
        assert(seen_set(seen@) =~= Set::<Seq<char>>::empty());
        assert(texts(chain@) =~= seq![part_id@]);
        let mut done = false;
        while !done
            invariant
                links == self@.supersessions,
                n == links.len(),
                used.len() == n,
                whole == supersession_chain(links, part_id@),
                done ==> whole == texts(chain@),
                !done ==> whole == texts(chain@) + follow(links, cur@, seen_set(seen@), fuel),
                chain.len() > 0,
                texts(chain@).last() == cur@,
                fuel >= count_unused(used@) + 1,
                fuel > 0,
                forall|m: int| 0 <= m < n && used@[m] ==> listed(seen@, (#[trigger] links[m]).from_id@),
            decreases count_unused(used@) + if done { 0nat } else { 1nat },
        {
            let passed = super::bom::list_has(&seen, &cur);
            if passed {
                proof {
                    lemma_follow_stops(links, cur@, seen_set(seen@), fuel);
                    assert(texts(chain@) + Seq::<Seq<char>>::empty() =~= texts(chain@));
                }
                done = true;
            } else {
                let ghost before = seen@;
                seen.push(cur.clone());
                proof {
                    lemma_seen_push(before, cur);
                    assert forall|m: int| 0 <= m < n && used@[m] implies listed(seen@, (#[trigger] links[m]).from_id@) by {
                        let j = choose|j: int| 0 <= j < before.len() && #[trigger] before[j]@ == links[m].from_id@;
                        assert(seen@[j]@ == links[m].from_id@);
                    }
                    assert(seen@[before.len() as int]@ == cur@);
                }
                match self.find_link(&cur) {
                    None => {
                        proof {
                            lemma_follow_stops(links, cur@, seen_set(before), fuel);
                            assert(texts(chain@) + Seq::<Seq<char>>::empty() =~= texts(chain@));
                        }
                        done = true;
                    },
                    Some(k) => {
                        proof {
                            assert(links[k as int].from_id@ == cur@);
                            if used@[k as int] {
                                assert(listed(before, links[k as int].from_id@));
                            }
                            super::bom::lemma_count_unused_update_pub(used@, k as int);
                        }
                        let next = self.supersessions[k].to_id.clone();
                        let ghost old_chain = texts(chain@);
                        chain.push(next.clone());
                        used.set(k, true);
                        proof {
                            assert(texts(chain@) =~= old_chain.push(next@));
                            lemma_follow_step(links, cur@, seen_set(before), fuel, k as int);
                            assert(old_chain + follow(links, cur@, seen_set(before), fuel)
                                =~= texts(chain@) + follow(links, next@, seen_set(seen@), (fuel - 1) as nat));
                            assert forall|m: int| 0 <= m < n && used@[m] implies listed(seen@, (#[trigger] links[m]).from_id@) by {
                                if m == k {
                                    assert(seen@[before.len() as int]@ == cur@);
                                }
                            }
                        }
                        cur = next;
                        proof {
                            fuel = (fuel - 1) as nat;
                        }
                    },
                }
            }
        }
        let current = chain[chain.len() - 1].clone();
        let superseded = !(current == start);
        SupersessionResolution { part_id: start, current_part_id: current, superseded, chain }
    }
}

} // verus!
