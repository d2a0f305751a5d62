use vstd::prelude::*;
use vstd::string::*;
use crate::search::{contains_token, str_eq};
use crate::text::strings_view;

verus! {

/// A directed, typed link between two entities; strength and confidence are in hundredths,
/// the creation time in seconds since the epoch, the metadata as JSON text.
#[derive(Debug, Clone)]
pub struct EntityRelationship {
    pub id: String,
    pub source_entity_id: String,
    pub target_entity_id: String,
    pub relationship_type: String,
    pub strength: u32,
    pub confidence: u32,
    pub created_at: i64,
    pub metadata: String,
}

/// Two entities are linked, in either direction, by some relationship.
pub open spec fn adjacent(rels: Seq<EntityRelationship>, a: Seq<char>, b: Seq<char>) -> bool {
    exists|i: int|
        0 <= i < rels.len() && ((#[trigger] rels[i].source_entity_id@ == a && rels[i].target_entity_id@ == b)
            || (rels[i].target_entity_id@ == a && rels[i].source_entity_id@ == b))
}

/// `p` walks the links: each entity of it is linked to the next.
pub open spec fn is_walk(rels: Seq<EntityRelationship>, p: Seq<Seq<char>>) -> bool {
    forall|i: int| 0 <= i < p.len() - 1 ==> adjacent(rels, #[trigger] p[i], p[i + 1])
}

/// `p` is a walk from `s` to `x`.
pub open spec fn walk_between(rels: Seq<EntityRelationship>, p: Seq<Seq<char>>, s: Seq<char>, x: Seq<char>) -> bool {
    p.len() >= 1 && p[0] == s && p.last() == x && is_walk(rels, p)
}

/// `x` can be reached from `s` in at most `k` steps over the links, taken in either direction.
pub open spec fn within(rels: Seq<EntityRelationship>, s: Seq<char>, x: Seq<char>, k: nat) -> bool {
    exists|p: Seq<Seq<char>>| #[trigger] walk_between(rels, p, s, x) && p.len() <= k + 1
}

proof fn lemma_within_start(rels: Seq<EntityRelationship>, s: Seq<char>, k: nat)
    ensures
        within(rels, s, s, k),
{
    let p = seq![s];
    assert(walk_between(rels, p, s, s));
}

proof fn lemma_within_monotone(rels: Seq<EntityRelationship>, s: Seq<char>, x: Seq<char>, k: nat)
    requires
        within(rels, s, x, k),
    ensures
        within(rels, s, x, k + 1),
{
    let p = choose|p: Seq<Seq<char>>| #[trigger] walk_between(rels, p, s, x) && p.len() <= k + 1;
    assert(walk_between(rels, p, s, x));
}

proof fn lemma_within_step(rels: Seq<EntityRelationship>, s: Seq<char>, y: Seq<char>, x: Seq<char>, k: nat)
    requires
        within(rels, s, y, k),
        adjacent(rels, y, x),
    ensures
        within(rels, s, x, k + 1),
{
    let p = choose|p: Seq<Seq<char>>| #[trigger] walk_between(rels, p, s, y) && p.len() <= k + 1;
    let q = p.push(x);
    assert forall|i: int| 0 <= i < q.len() - 1 implies adjacent(rels, #[trigger] q[i], q[i + 1]) by {
        if i < p.len() - 1 {
            assert(q[i] == p[i] && q[i + 1] == p[i + 1]);
        } else {
            assert(q[i] == y);
        }
    }
    assert(walk_between(rels, q, s, x));
}

/// A walk of `k + 1` steps ends next to where a walk of `k` steps could end.
proof fn lemma_within_back(rels: Seq<EntityRelationship>, s: Seq<char>, x: Seq<char>, k: nat)
    requires
        within(rels, s, x, k + 1),
        x != s,
    ensures
        exists|y: Seq<char>| #[trigger] within(rels, s, y, k) && adjacent(rels, y, x),
{
    let p = choose|p: Seq<Seq<char>>| #[trigger] walk_between(rels, p, s, x) && p.len() <= k + 2;
    assert(p.len() >= 2);
    let q = p.drop_last();
    let y = q.last();
    assert forall|i: int| 0 <= i < q.len() - 1 implies adjacent(rels, #[trigger] q[i], q[i + 1]) by {
        assert(q[i] == p[i] && q[i + 1] == p[i + 1]);
    }
    assert(walk_between(rels, q, s, y));
    assert(within(rels, s, y, k));
    assert(adjacent(rels, p[p.len() - 2], p[p.len() - 1]));
}

/// Relationships between entities, looked up by identifier, by entity and by type; every
/// lookup reads the relationship records themselves, so the lookups always agree with them.
pub struct GraphDatabase {
    relationships: Vec<EntityRelationship>,
}

pub open spec fn rel_ids_unique(rs: Seq<EntityRelationship>) -> bool {
    forall|i: int, j: int| 0 <= i < j < rs.len() ==> #[trigger] rs[i].id@ != #[trigger] rs[j].id@
}

/// The identifiers of the relationships that satisfy `keep`, in order.
pub open spec fn ids_where(rs: Seq<EntityRelationship>, keep: spec_fn(EntityRelationship) -> bool) -> Seq<Seq<char>>
    decreases rs.len(),
{
    if rs.len() == 0 {
        seq![]
    } else if keep(rs.last()) {
        ids_where(rs.drop_last(), keep).push(rs.last().id@)
    } else {
        ids_where(rs.drop_last(), keep)
    }
}

/// The entities named by the relationships, each once, in order of first mention.
pub open spec fn entities_of(rs: Seq<EntityRelationship>) -> Seq<Seq<char>>
    decreases rs.len(),
{
    if rs.len() == 0 {
        seq![]
    } else {
        let e = entities_of(rs.drop_last());
        let e1 = if e.contains(rs.last().source_entity_id@) {
            e
        } else {
            e.push(rs.last().source_entity_id@)
        };
        if e1.contains(rs.last().target_entity_id@) {
            e1
        } else {
            e1.push(rs.last().target_entity_id@)
        }
    }
}

/// How many relationship ends name the entity: its degree.
pub open spec fn degree(rs: Seq<EntityRelationship>, e: Seq<char>) -> nat
    decreases rs.len(),
{
    if rs.len() == 0 {
        0
    } else {
        degree(rs.drop_last(), e) + (if rs.last().source_entity_id@ == e { 1nat } else { 0nat }) + (
        if rs.last().target_entity_id@ == e {
            1nat
        } else {
            0nat
        })
    }
}

/// Counts over the whole graph; the average degree is twice the relationships over the
/// entities.
#[derive(Debug, Clone)]
pub struct GraphStatistics {
    pub total_entities: usize,
    pub total_relationships: usize,
    pub relationship_types: Vec<(String, usize)>,
    pub max_degree: usize,
}

impl GraphDatabase {
    pub closed spec fn rels(&self) -> Seq<EntityRelationship> {
        self.relationships@
    }

    pub closed spec fn wf(&self) -> bool {
        rel_ids_unique(self.relationships@)
    }

    pub fn new() -> (r: GraphDatabase)
        ensures
            r.wf(),
            r.rels().len() == 0,
    {
        GraphDatabase { relationships: Vec::new() }
    }

    fn find(&self, id: &str) -> (r: Option<usize>)
        ensures
            r matches Some(k) ==> k < self.rels().len() && self.rels()[k as int].id@ == id@,
            r is None ==> forall|k: int| 0 <= k < self.rels().len() ==> #[trigger] self.rels()[k].id@ != id@,
    {
        let mut k: usize = 0;
        while k < self.relationships.len()
            invariant
                k <= self.relationships.len(),
                forall|j: int| 0 <= j < k ==> #[trigger] self.relationships@[j].id@ != id@,
            decreases self.relationships.len() - k,
        {
            if str_eq(self.relationships[k].id.as_str(), id) {
                return Some(k);
            }
            k = k + 1;
        }
        None
    }

    /// Stores a relationship; one with the same identifier is replaced in place.
    pub fn store_relationship(&mut self, relationship: EntityRelationship)
        requires
            old(self).wf(),
        ensures
            final(self).wf(),
            (exists|k: int| 0 <= k < old(self).rels().len() && old(self).rels()[k].id@ == relationship.id@)
                ==> exists|k: int|
                0 <= k < old(self).rels().len() && old(self).rels()[k].id@ == relationship.id@
                    && final(self).rels() == old(self).rels().update(k, relationship),
            !(exists|k: int| 0 <= k < old(self).rels().len() && old(self).rels()[k].id@ == relationship.id@)
                ==> final(self).rels() == old(self).rels().push(relationship),
    {
        match self.find(relationship.id.as_str()) {
            Some(k) => {
                let ghost before = self.relationships@;
                self.relationships.set(k, relationship);
                proof {
                    assert forall|i: int, j: int| 0 <= i < j < self.relationships@.len() implies
                        #[trigger] self.relationships@[i].id@ != #[trigger] self.relationships@[j].id@ by {
                        assert(before[i].id@ != before[j].id@);
                    }
                }
            },
            None => {
                let ghost before = self.relationships@;
                self.relationships.push(relationship);
                proof {
                    assert forall|i: int, j: int| 0 <= i < j < self.relationships@.len() implies
                        #[trigger] self.relationships@[i].id@ != #[trigger] self.relationships@[j].id@ by {
                        if j < before.len() {
                            assert(before[i].id@ != before[j].id@);
                        } else {
                            assert(before[i].id@ != relationship.id@);
                        }
                    }
                }
            },
        }
    }

    /// The relationship with this identifier.
    pub fn get_relationship(&self, relationship_id: &str) -> (r: Option<&EntityRelationship>)
        ensures
            r is None <==> forall|k: int| 0 <= k < self.rels().len() ==> #[trigger] self.rels()[k].id@ != relationship_id@,
            r matches Some(x) ==> exists|k: int| 0 <= k < self.rels().len() && self.rels()[k] == *x && x.id@ == relationship_id@,
    {
        match self.find(relationship_id) {
            Some(k) => Some(&self.relationships[k]),
            None => None,
        }
    }

    /// Deletes the relationship with this identifier; an unknown one is no error.
    pub fn delete_relationship(&mut self, relationship_id: &str)
        requires
            old(self).wf(),
        ensures
            final(self).wf(),
            forall|k: int| 0 <= k < final(self).rels().len() ==> #[trigger] final(self).rels()[k].id@ != relationship_id@,
            forall|k: int|
                0 <= k < old(self).rels().len() && old(self).rels()[k].id@ != relationship_id@ ==> final(self).rels().contains(
                    #[trigger] old(self).rels()[k],
                ),
            final(self).rels().len() <= old(self).rels().len(),
    {
        match self.find(relationship_id) {
            Some(k) => {
                let ghost before = self.relationships@;
                self.relationships.remove(k);
                proof {
                    assert forall|i: int, j: int| 0 <= i < j < self.relationships@.len() implies
                        #[trigger] self.relationships@[i].id@ != #[trigger] self.relationships@[j].id@ by {
                        let oi = if i < k { i } else { i + 1 };
                        let oj = if j < k { j } else { j + 1 };
                        assert(before[oi].id@ != before[oj].id@);
                    }
                    assert forall|j: int| 0 <= j < self.relationships@.len() implies #[trigger] self.relationships@[j].id@
                        != relationship_id@ by {
                        let oj = if j < k { j } else { j + 1 };
                        assert(self.relationships@[j] == before[oj]);
                        if oj < k {
                            assert(before[oj].id@ != before[k as int].id@);
                        } else {
                            assert(before[k as int].id@ != before[oj].id@);
                        }
                    }
                    assert forall|j: int| 0 <= j < before.len() && before[j].id@ != relationship_id@ implies
                        self.relationships@.contains(#[trigger] before[j]) by {
                        if j < k {
                            assert(self.relationships@[j] == before[j]);
                        } else {
                            assert(self.relationships@[j - 1] == before[j]);
                        }
                    }
                }
            },
            None => {},
        }
    }

    /// The identifiers of the relationships that start or end at the entity, in order.
    pub fn get_entity_relationships(&self, entity_id: &str) -> (r: Vec<String>)
        ensures
            strings_view(r@) == ids_where(
                self.rels(),
                |x: EntityRelationship| x.source_entity_id@ == entity_id@ || x.target_entity_id@ == entity_id@,
            ),
    {
        let ghost keep = |x: EntityRelationship| x.source_entity_id@ == entity_id@ || x.target_entity_id@ == entity_id@;
        let mut out: Vec<String> = Vec::new();
        let mut k: usize = 0;
        while k < self.relationships.len()
            invariant
                k <= self.relationships.len(),
                keep == (|x: EntityRelationship| x.source_entity_id@ == entity_id@ || x.target_entity_id@ == entity_id@),
                strings_view(out@) == ids_where(self.relationships@.subrange(0, k as int), keep),
            decreases self.relationships.len() - k,
        {
            let ghost next = self.relationships@.subrange(0, k + 1);
            assert(next.drop_last() =~= self.relationships@.subrange(0, k as int));
            let r = &self.relationships[k];
            if str_eq(r.source_entity_id.as_str(), entity_id) || str_eq(r.target_entity_id.as_str(), entity_id) {
                let ghost before = strings_view(out@);
                out.push(r.id.clone());
                assert(strings_view(out@) =~= before.push(r.id@));
            }
            k = k + 1;
        }
        assert(self.relationships@.subrange(0, k as int) =~= self.relationships@);
        out
    }

    /// The identifiers of the relationships of this type, in order.
    pub fn get_relationships_by_type(&self, relationship_type: &str) -> (r: Vec<String>)
        ensures
            strings_view(r@) == ids_where(self.rels(), |x: EntityRelationship| x.relationship_type@ == relationship_type@),
    {
        let ghost keep = |x: EntityRelationship| x.relationship_type@ == relationship_type@;
        let mut out: Vec<String> = Vec::new();
        let mut k: usize = 0;
        while k < self.relationships.len()
            invariant
                k <= self.relationships.len(),
                keep == (|x: EntityRelationship| x.relationship_type@ == relationship_type@),
                strings_view(out@) == ids_where(self.relationships@.subrange(0, k as int), keep),
            decreases self.relationships.len() - k,
        {
            let ghost next = self.relationships@.subrange(0, k + 1);
            assert(next.drop_last() =~= self.relationships@.subrange(0, k as int));
            let r = &self.relationships[k];
            if str_eq(r.relationship_type.as_str(), relationship_type) {
                let ghost before = strings_view(out@);
                out.push(r.id.clone());
                assert(strings_view(out@) =~= before.push(r.id@));
            }
            k = k + 1;
        }
        assert(self.relationships@.subrange(0, k as int) =~= self.relationships@);
        out
    }

    /// The entities linked to `x` in either direction.
    fn neighbors_of(&self, x: &str) -> (r: Vec<String>)
        ensures
            forall|y: Seq<char>| strings_view(r@).contains(y) <==> adjacent(self.rels(), x@, y),
    {
        let mut out: Vec<String> = Vec::new();
        let mut k: usize = 0;
        while k < self.relationships.len()
            invariant
                k <= self.relationships.len(),
                forall|y: Seq<char>|
                    strings_view(out@).contains(y) <==> adjacent(self.relationships@.subrange(0, k as int), x@, y),
            decreases self.relationships.len() - k,
        {
            let r = &self.relationships[k];
            let ghost pre = self.relationships@.subrange(0, k as int);
            let ghost next = self.relationships@.subrange(0, k + 1);
            let ghost before = strings_view(out@);
            if str_eq(r.source_entity_id.as_str(), x) {
                out.push(r.target_entity_id.clone());
            }
            let ghost mid = strings_view(out@);
            if str_eq(r.target_entity_id.as_str(), x) {
                out.push(r.source_entity_id.clone());
            }
            proof {
                assert forall|y: Seq<char>| strings_view(out@).contains(y) <==> adjacent(next, x@, y) by {
                    if strings_view(out@).contains(y) {
                        let w = choose|w: int| 0 <= w < strings_view(out@).len() && strings_view(out@)[w] == y;
                        if w < before.len() {
                            assert(before[w] == y);
                            assert(before.contains(y));
                            assert(adjacent(pre, x@, y));
                            let i = choose|i: int|
                                0 <= i < pre.len() && ((#[trigger] pre[i].source_entity_id@ == x@ && pre[i].target_entity_id@ == y)
                                    || (pre[i].target_entity_id@ == x@ && pre[i].source_entity_id@ == y));
                            assert(next[i] == pre[i]);
                        } else {
                            assert(next[k as int] == *r);
                        }
                    }
                    if adjacent(next, x@, y) {
                        let i = choose|i: int|
                            0 <= i < next.len() && ((#[trigger] next[i].source_entity_id@ == x@ && next[i].target_entity_id@ == y)
                                || (next[i].target_entity_id@ == x@ && next[i].source_entity_id@ == y));
                        if i < k {
                            assert(pre[i] == next[i]);
                            assert(adjacent(pre, x@, y));
                            assert(before.contains(y));
                            let w = choose|w: int| 0 <= w < before.len() && before[w] == y;
                            assert(strings_view(out@)[w] == y);
                        } else {
                            assert(next[i] == *r);
                            if r.source_entity_id@ == x@ && r.target_entity_id@ == y {
                                assert(mid[before.len() as int] == y);
                                assert(strings_view(out@)[before.len() as int] == y);
                            } else {
                                assert(strings_view(out@)[strings_view(out@).len() - 1] == y);
                            }
                        }
                    }
                }
            }
            k = k + 1;
        }
        assert(self.relationships@.subrange(0, k as int) =~= self.relationships@);
        out
    }
}

/// Some entity among the first `n` of `f` is linked to `y`.
pub open spec fn touches(rels: Seq<EntityRelationship>, f: Seq<Seq<char>>, n: int, y: Seq<char>) -> bool {
    exists|i: int| 0 <= i < n && adjacent(rels, #[trigger] f[i], y)
}

/// The visited entities are those within `d` steps, those linked to one of the first `i`
/// entities of the frontier `fv`, and those of `seen`.
pub open spec fn visited_is(
    rels: Seq<EntityRelationship>,
    s: Seq<char>,
    d: nat,
    fv: Seq<Seq<char>>,
    i: int,
    seen: Seq<Seq<char>>,
    vis: Seq<Seq<char>>,
) -> bool {
    forall|y: Seq<char>|
        #![trigger vis.contains(y)]
        #![trigger within(rels, s, y, d)]
        #![trigger touches(rels, fv, i, y)]
        #![trigger seen.contains(y)]
        vis.contains(y) <==> (within(rels, s, y, d) || touches(rels, fv, i, y) || seen.contains(y))
}

/// `a` is no farther from `s` than `b`: any number of steps that reaches `b` reaches `a`.
pub open spec fn no_farther(rels: Seq<EntityRelationship>, s: Seq<char>, a: Seq<char>, b: Seq<char>) -> bool {
    forall|k: nat| #[trigger] within(rels, s, b, k) ==> within(rels, s, a, k)
}

proof fn lemma_within_up(rels: Seq<EntityRelationship>, s: Seq<char>, x: Seq<char>, k: nat, k2: nat)
    requires
        within(rels, s, x, k),
        k <= k2,
    ensures
        within(rels, s, x, k2),
{
    let p = choose|p: Seq<Seq<char>>| #[trigger] walk_between(rels, p, s, x) && p.len() <= k + 1;
    assert(walk_between(rels, p, s, x));
}

/// A breadth-first layer keeps the discovery order: appending entities one step farther than
/// all those already listed keeps the list in order of distance.
proof fn lemma_layer_order(rels: Seq<EntityRelationship>, s: Seq<char>, old_v: Seq<Seq<char>>, next: Seq<Seq<char>>, d: nat)
    requires
        forall|i: int, j: int| 0 <= i < j < old_v.len() ==> no_farther(rels, s, #[trigger] old_v[i], #[trigger] old_v[j]),
        forall|i: int| 0 <= i < old_v.len() ==> within(rels, s, #[trigger] old_v[i], d),
        forall|i: int| 0 <= i < next.len() ==> within(rels, s, #[trigger] next[i], d + 1) && !within(rels, s, next[i], d),
    ensures
        forall|i: int, j: int|
            0 <= i < j < (old_v + next).len() ==> no_farther(rels, s, #[trigger] (old_v + next)[i], #[trigger] (old_v + next)[j]),
{
    let all = old_v + next;
    assert forall|i: int, j: int| 0 <= i < j < all.len() implies no_farther(rels, s, #[trigger] all[i], #[trigger] all[j]) by {
        if j < old_v.len() {
            assert(all[i] == old_v[i] && all[j] == old_v[j]);
        } else {
            let nj = next[j - old_v.len()];
            assert(all[j] == nj);
            assert forall|k: nat| #[trigger] within(rels, s, nj, k) implies within(rels, s, all[i], k) by {
                if k <= d {
                    lemma_within_up(rels, s, nj, k, d);
                }
                if i < old_v.len() {
                    assert(all[i] == old_v[i]);
                    lemma_within_up(rels, s, old_v[i], d, k);
                } else {
                    assert(all[i] == next[i - old_v.len()]);
                    lemma_within_up(rels, s, all[i], d + 1, k);
                }
            }
        }
    }
}

/// Once a layer adds nothing, no walk of any length reaches further.
proof fn lemma_fixpoint(rels: Seq<EntityRelationship>, s: Seq<char>, d: nat, j: nat, y: Seq<char>)
    requires
        forall|x: Seq<char>| #[trigger] within(rels, s, x, d + 1) ==> within(rels, s, x, d),
        j >= d,
        within(rels, s, y, j),
    ensures
        within(rels, s, y, d),
    decreases j,
{
    if j > d && y != s {
        lemma_within_back(rels, s, y, (j - 1) as nat);
        let x = choose|x: Seq<char>| #[trigger] within(rels, s, x, (j - 1) as nat) && adjacent(rels, x, y);
        lemma_fixpoint(rels, s, d, (j - 1) as nat, x);
        lemma_within_step(rels, s, x, y, d);
    } else if y == s {
        lemma_within_start(rels, s, d);
    }
}

impl GraphDatabase {
    /// One breadth-first layer: adds to `visited` every entity linked to the frontier and not
    /// yet visited, and returns those, in order of discovery.
    fn expand_layer(&self, visited: &mut Vec<String>, frontier: &Vec<String>, Ghost(s): Ghost<Seq<char>>, Ghost(d): Ghost<nat>) -> (next: Vec<String>)
        requires
            old(visited).len() >= 1,
            old(visited)@[0]@ == s,
            forall|a: int, b: int|
                0 <= a < b < old(visited)@.len() ==> strings_view(old(visited)@)[a] != strings_view(old(visited)@)[b],
            forall|y: Seq<char>| strings_view(old(visited)@).contains(y) <==> within(self.rels(), s, y, d),
            forall|y: Seq<char>| strings_view(frontier@).contains(y) ==> within(self.rels(), s, y, d),
            forall|y: Seq<char>|
                #[trigger] within(self.rels(), s, y, d) ==> strings_view(frontier@).contains(y) || (d > 0
                    && within(self.rels(), s, y, (d - 1) as nat)),
        ensures
            final(visited).len() >= 1,
            final(visited)@[0]@ == s,
            final(visited)@ == old(visited)@ + next@,
            forall|a: int, b: int|
                0 <= a < b < final(visited)@.len() ==> strings_view(final(visited)@)[a] != strings_view(final(visited)@)[b],
            forall|y: Seq<char>| strings_view(final(visited)@).contains(y) <==> within(self.rels(), s, y, d + 1),
            forall|y: Seq<char>|
                strings_view(next@).contains(y) <==> (strings_view(final(visited)@).contains(y) && !within(self.rels(), s, y, d)),
            forall|y: Seq<char>|
                #[trigger] within(self.rels(), s, y, d + 1) ==> strings_view(next@).contains(y) || within(self.rels(), s, y, d),
    {
        let ghost rels = self.rels();
        let ghost fv = strings_view(frontier@);
        let mut next: Vec<String> = Vec::new();
        let mut i: usize = 0;
        while i < frontier.len()
            invariant
                rels == self.rels(),
                                fv == strings_view(frontier@),
                i <= frontier.len(),
                visited@ == old(visited)@ + next@,
                visited.len() >= 1,
                visited@[0]@ == s,
                forall|a: int, b: int|
                    0 <= a < b < visited@.len() ==> strings_view(visited@)[a] != strings_view(visited@)[b],
                forall|y: Seq<char>|
                    strings_view(visited@).contains(y) <==> (within(rels, s, y, d) || touches(rels, fv, i as int, y)),
                forall|y: Seq<char>|
                    strings_view(next@).contains(y) <==> (strings_view(visited@).contains(y) && !within(rels, s, y, d)),
            decreases frontier.len() - i,
        {
            let nbrs = self.neighbors_of(frontier[i].as_str());
            let mut j: usize = 0;
            while j < nbrs.len()
                invariant
                    rels == self.rels(),
                    fv == strings_view(frontier@),
                    i < frontier.len(),
                    visited@ == old(visited)@ + next@,
                    j <= nbrs.len(),
                    forall|y: Seq<char>| strings_view(nbrs@).contains(y) <==> adjacent(rels, fv[i as int], y),
                    visited.len() >= 1,
                    visited@[0]@ == s,
                    forall|a: int, b: int|
                        0 <= a < b < visited@.len() ==> strings_view(visited@)[a] != strings_view(visited@)[b],
                    visited_is(rels, s, d, fv, i as int, strings_view(nbrs@).subrange(0, j as int), strings_view(visited@)),
                    forall|y: Seq<char>|
                        strings_view(next@).contains(y) <==> (strings_view(visited@).contains(y) && !within(rels, s, y, d)),
                decreases nbrs.len() - j,
            {
                let ghost y0 = nbrs@[j as int]@;
                let ghost sub0 = strings_view(nbrs@).subrange(0, j as int);
                let ghost sub1 = strings_view(nbrs@).subrange(0, j + 1);
                let ghost vb = strings_view(visited@);
                let ghost nb = strings_view(next@);
                proof {
                    assert(sub1 =~= sub0.push(y0));
                }
                if !contains_token(visited, nbrs[j].as_str()) {
                    visited.push(nbrs[j].clone());
                    next.push(nbrs[j].clone());
                    proof {
                        assert(strings_view(visited@) =~= vb.push(y0));
                        assert(strings_view(next@) =~= nb.push(y0));
                        assert(!within(rels, s, y0, d));
                        assert forall|a: int, b: int|
                            0 <= a < b < visited@.len() implies strings_view(visited@)[a] != strings_view(visited@)[b] by {
                            if b == visited@.len() - 1 {
                                assert(strings_view(visited@)[a] == vb[a]);
                                assert(vb.contains(vb[a]));
                            } else {
                                assert(strings_view(visited@)[a] == vb[a]);
                                assert(strings_view(visited@)[b] == vb[b]);
                            }
                        }
                        assert forall|y: Seq<char>|
                            #![trigger strings_view(visited@).contains(y)]
                            #![trigger within(rels, s, y, d)]
                            #![trigger touches(rels, fv, i as int, y)]
                            #![trigger sub1.contains(y)]
                            strings_view(visited@).contains(y) <==> (within(rels, s, y, d)
                            || touches(rels, fv, i as int, y) || sub1.contains(y)) by {
                            if strings_view(visited@).contains(y) && y != y0 {
                                let w = choose|w: int| 0 <= w < strings_view(visited@).len() && strings_view(visited@)[w] == y;
                                assert(vb[w] == y);
                            }
                            if sub1.contains(y) && y != y0 {
                                let w = choose|w: int| 0 <= w < j + 1 && sub1[w] == y;
                                assert(sub0[w] == y);
                            }
                            if vb.contains(y) {
                                let w = choose|w: int| 0 <= w < vb.len() && vb[w] == y;
                                assert(strings_view(visited@)[w] == y);
                            }
                            if sub0.contains(y) {
                                let w = choose|w: int| 0 <= w < j && sub0[w] == y;
                                assert(sub1[w] == y);
                            }
                            assert(strings_view(visited@)[vb.len() as int] == y0);
                            assert(sub1[j as int] == y0);
                        }
                        assert(visited_is(rels, s, d, fv, i as int, sub1, strings_view(visited@)));
                        assert forall|y: Seq<char>| strings_view(next@).contains(y) <==> (strings_view(visited@).contains(y)
                            && !within(rels, s, y, d)) by {
                            if strings_view(next@).contains(y) && y != y0 {
                                let w = choose|w: int| 0 <= w < strings_view(next@).len() && strings_view(next@)[w] == y;
                                assert(nb[w] == y);
                            }
                            if strings_view(visited@).contains(y) && y != y0 {
                                let w = choose|w: int| 0 <= w < strings_view(visited@).len() && strings_view(visited@)[w] == y;
                                assert(vb[w] == y);
                            }
                            if nb.contains(y) {
                                let w = choose|w: int| 0 <= w < nb.len() && nb[w] == y;
                                assert(strings_view(next@)[w] == y);
                            }
                            if vb.contains(y) {
                                let w = choose|w: int| 0 <= w < vb.len() && vb[w] == y;
                                assert(strings_view(visited@)[w] == y);
                            }
                            assert(strings_view(next@)[nb.len() as int] == y0);
                            assert(strings_view(visited@)[vb.len() as int] == y0);
                        }
                    }
                } else {
                    proof {
                        assert(strings_view(visited@).contains(y0));
                        assert forall|y: Seq<char>|
                            #![trigger strings_view(visited@).contains(y)]
                            #![trigger within(rels, s, y, d)]
                            #![trigger touches(rels, fv, i as int, y)]
                            #![trigger sub1.contains(y)]
                            strings_view(visited@).contains(y) <==> (within(rels, s, y, d)
                            || touches(rels, fv, i as int, y) || sub1.contains(y)) by {
                            if sub1.contains(y) && y != y0 {
                                let w = choose|w: int| 0 <= w < j + 1 && sub1[w] == y;
                                assert(sub0[w] == y);
                            }
                            if sub0.contains(y) {
                                let w = choose|w: int| 0 <= w < j && sub0[w] == y;
                                assert(sub1[w] == y);
                            }
                        }
                        assert(visited_is(rels, s, d, fv, i as int, sub1, strings_view(visited@)));
                    }
                }
                j = j + 1;
                assert(sub1 == strings_view(nbrs@).subrange(0, j as int));
            }
            proof {
                assert(strings_view(nbrs@).subrange(0, j as int) =~= strings_view(nbrs@));
                assert forall|y: Seq<char>| strings_view(visited@).contains(y) <==> (within(rels, s, y, d) || touches(
                    rels,
                    fv,
                    i + 1,
                    y,
                )) by {
                    if touches(rels, fv, i + 1, y) && !touches(rels, fv, i as int, y) {
                        let a = choose|a: int| 0 <= a < i + 1 && adjacent(rels, #[trigger] fv[a], y);
                        assert(a == i);
                        assert(strings_view(nbrs@).contains(y));
                    }
                    if strings_view(nbrs@).contains(y) {
                        assert(adjacent(rels, fv[i as int], y));
                        assert(touches(rels, fv, i + 1, y));
                    }
                    if touches(rels, fv, i as int, y) {
                        let a = choose|a: int| 0 <= a < i && adjacent(rels, #[trigger] fv[a], y);
                        assert(touches(rels, fv, i + 1, y));
                    }
                }
            }
            i = i + 1;
        }
        proof {
            let nf = fv.len() as int;
            // The new visited set is everything within one more step.
            assert forall|y: Seq<char>| strings_view(visited@).contains(y) <==> within(rels, s, y, d + 1) by {
                if within(rels, s, y, d) {
                    lemma_within_monotone(rels, s, y, d);
                }
                if touches(rels, fv, nf, y) {
                    let a = choose|a: int| 0 <= a < nf && adjacent(rels, #[trigger] fv[a], y);
                    assert(fv.contains(fv[a]));
                    lemma_within_step(rels, s, fv[a], y, d);
                }
                if within(rels, s, y, d + 1) && !within(rels, s, y, d) {
                    if y == s {
                        lemma_within_start(rels, s, d);
                    }
                    lemma_within_back(rels, s, y, d);
                    let x = choose|x: Seq<char>| #[trigger] within(rels, s, x, d) && adjacent(rels, x, y);
                    if fv.contains(x) {
                        let a = choose|a: int| 0 <= a < fv.len() && fv[a] == x;
                        assert(touches(rels, fv, nf, y));
                    } else {
                        assert(d > 0 && within(rels, s, x, (d - 1) as nat));
                        lemma_within_step(rels, s, x, y, (d - 1) as nat);
                    }
                }
            }
            assert forall|y: Seq<char>| #[trigger] within(rels, s, y, d + 1) implies strings_view(next@).contains(y)
                || within(rels, s, y, d) by {}
        }
        assert(visited@ =~= old(visited)@ + next@);
        next
    }

    /// The entities within `max_depth` links of `entity_id`, the links taken in either
    /// direction, each once, in the order a breadth-first walk discovers them; the entity
    /// itself is not among them.
    pub fn get_connected_entities(&self, entity_id: &str, max_depth: usize) -> (r: Vec<String>)
        ensures
            forall|i: int, j: int|
                0 <= i < j < r@.len() ==> strings_view(r@)[i] != strings_view(r@)[j],
            forall|y: Seq<char>|
                strings_view(r@).contains(y) <==> (y != entity_id@ && within(self.rels(), entity_id@, y, max_depth as nat)),
            forall|i: int, j: int|
                0 <= i < j < r@.len() ==> no_farther(self.rels(), entity_id@, #[trigger] strings_view(r@)[i], #[trigger] strings_view(r@)[j]),
    {
        let ghost rels = self.rels();
        let ghost s = entity_id@;
        let start = String::from_str(entity_id);
        let mut visited: Vec<String> = Vec::new();
        visited.push(start.clone());
        let mut frontier: Vec<String> = Vec::new();
        frontier.push(start);
        let mut depth: usize = 0;
        proof {
            assert forall|y: Seq<char>| strings_view(visited@).contains(y) <==> within(rels, s, y, 0) by {
                if strings_view(visited@).contains(y) {
                    let w = choose|w: int| 0 <= w < strings_view(visited@).len() && strings_view(visited@)[w] == y;
                    assert(w == 0);
                    lemma_within_start(rels, s, 0);
                }
                if within(rels, s, y, 0) {
                    let p = choose|p: Seq<Seq<char>>| #[trigger] walk_between(rels, p, s, y) && p.len() <= 1;
                    assert(strings_view(visited@)[0] == y);
                }
            }
            assert forall|y: Seq<char>| within(rels, s, y, 0) implies strings_view(frontier@).contains(y) by {
                let p = choose|p: Seq<Seq<char>>| #[trigger] walk_between(rels, p, s, y) && p.len() <= 1;
                assert(strings_view(frontier@)[0] == y);
            }
        }
        while depth < max_depth && frontier.len() > 0
            invariant
                rels == self.rels(),
                s == entity_id@,
                depth <= max_depth,
                visited.len() >= 1,
                visited@[0]@ == s,
                forall|i: int, j: int|
                    0 <= i < j < visited@.len() ==> strings_view(visited@)[i] != strings_view(visited@)[j],
                forall|y: Seq<char>| strings_view(visited@).contains(y) <==> within(rels, s, y, depth as nat),
                forall|y: Seq<char>| strings_view(frontier@).contains(y) ==> strings_view(visited@).contains(y),
                forall|y: Seq<char>|
                    #[trigger] within(rels, s, y, depth as nat) ==> strings_view(frontier@).contains(y) || (depth > 0
                        && within(rels, s, y, (depth - 1) as nat)),
                forall|i: int, j: int|
                    0 <= i < j < visited@.len() ==> no_farther(rels, s, #[trigger] strings_view(visited@)[i], #[trigger] strings_view(visited@)[j]),
            decreases max_depth - depth,
        {
            let ghost before = strings_view(visited@);
            let next = self.expand_layer(&mut visited, &frontier, Ghost(s), Ghost(depth as nat));
            proof {
                let d = depth as nat;
                let nv = strings_view(next@);
                assert(strings_view(visited@) =~= before + nv);
                assert forall|i: int| 0 <= i < before.len() implies within(rels, s, #[trigger] before[i], d) by {
                    assert(before.contains(before[i]));
                }
                assert forall|i: int| 0 <= i < nv.len() implies within(rels, s, #[trigger] nv[i], d + 1) && !within(rels, s, nv[i], d) by {
                    assert(nv.contains(nv[i]));
                }
                lemma_layer_order(rels, s, before, nv, d);
            }
            frontier = next;
            depth = depth + 1;
        }
        proof {
            let d = depth as nat;
            if depth < max_depth {
                // The walk stopped early: the last layer added nothing.
                assert(frontier.len() == 0);
                assert forall|x: Seq<char>| #[trigger] within(rels, s, x, d + 1) implies within(rels, s, x, d) by {
                    if x != s {
                        lemma_within_back(rels, s, x, d);
                        let y = choose|y: Seq<char>| #[trigger] within(rels, s, y, d) && adjacent(rels, y, x);
                        assert(!strings_view(frontier@).contains(y));
                        lemma_within_step(rels, s, y, x, (d - 1) as nat);
                    } else {
                        lemma_within_start(rels, s, d);
                    }
                }
                assert forall|y: Seq<char>| within(rels, s, y, max_depth as nat) implies within(rels, s, y, d) by {
                    lemma_fixpoint(rels, s, d, max_depth as nat, y);
                }
                assert forall|y: Seq<char>| within(rels, s, y, d) implies within(rels, s, y, max_depth as nat) by {
                    let p = choose|p: Seq<Seq<char>>| #[trigger] walk_between(rels, p, s, y) && p.len() <= d + 1;
                    assert(walk_between(rels, p, s, y));
                }
            }
        }
        let mut out: Vec<String> = Vec::new();
        let mut k: usize = 1;
        while k < visited.len()
            invariant
                1 <= k <= visited.len(),
                strings_view(out@) == strings_view(visited@).subrange(1, k as int),
            decreases visited.len() - k,
        {
            let ghost before = strings_view(out@);
            out.push(visited[k].clone());
            assert(strings_view(out@) =~= before.push(visited@[k as int]@));
            assert(strings_view(out@) =~= strings_view(visited@).subrange(1, k + 1));
            k = k + 1;
        }
        proof {
            let vv = strings_view(visited@);
            assert(strings_view(out@) =~= vv.subrange(1, vv.len() as int));
            assert forall|i: int, j: int| 0 <= i < j < out@.len() implies no_farther(rels, s, #[trigger] strings_view(out@)[i], #[trigger] strings_view(out@)[j]) by {
                assert(strings_view(out@)[i] == vv[i + 1]);
                assert(strings_view(out@)[j] == vv[j + 1]);
            }
            assert forall|y: Seq<char>| strings_view(out@).contains(y) <==> (y != s && within(rels, s, y, max_depth as nat)) by {
                if strings_view(out@).contains(y) {
                    let w = choose|w: int| 0 <= w < strings_view(out@).len() && strings_view(out@)[w] == y;
                    assert(vv[w + 1] == y);
                    assert(vv.contains(y));
                    assert(vv[0] == s);
                }
                if y != s && within(rels, s, y, max_depth as nat) {
                    assert(vv.contains(y));
                    let w = choose|w: int| 0 <= w < vv.len() && vv[w] == y;
                    assert(w != 0);
                    assert(strings_view(out@)[w - 1] == y);
                }
            }
        }
        out
    }
}

/// Each relationship type with the number of relationships of that type, in order of first
/// appearance.
pub open spec fn type_counts(rs: Seq<EntityRelationship>) -> Seq<(Seq<char>, nat)>
    decreases rs.len(),
{
    if rs.len() == 0 {
        seq![]
    } else {
        let c = type_counts(rs.drop_last());
        let t = rs.last().relationship_type@;
        match type_slot(c, t) {
            Some(k) => c.update(k, (t, c[k].1 + 1)),
            None => c.push((t, 1nat)),
        }
    }
}

/// Where type `t` stands among the counted types.
pub open spec fn type_slot(c: Seq<(Seq<char>, nat)>, t: Seq<char>) -> Option<int>
    decreases c.len(),
{
    if c.len() == 0 {
        None
    } else if c.last().0 == t {
        Some(c.len() - 1)
    } else {
        type_slot(c.drop_last(), t)
    }
}

/// The largest degree among the entities `es`.
pub open spec fn max_degree_of(rs: Seq<EntityRelationship>, es: Seq<Seq<char>>) -> nat
    decreases es.len(),
{
    if es.len() == 0 {
        0
    } else {
        let m = max_degree_of(rs, es.drop_last());
        let d = degree(rs, es.last());
        if d > m {
            d
        } else {
            m
        }
    }
}

pub open spec fn counts_view(v: Seq<(String, usize)>) -> Seq<(Seq<char>, nat)> {
    v.map_values(|p: (String, usize)| (p.0@, p.1 as nat))
}

proof fn lemma_degree_bound(rs: Seq<EntityRelationship>, e: Seq<char>)
    ensures
        degree(rs, e) <= 2 * rs.len(),
    decreases rs.len(),
{
    if rs.len() > 0 {
        lemma_degree_bound(rs.drop_last(), e);
    }
}

proof fn lemma_slot_bound(c: Seq<(Seq<char>, nat)>, t: Seq<char>)
    ensures
        type_slot(c, t) matches Some(k) ==> 0 <= k < c.len() && c[k].0 == t,
        type_slot(c, t) is None ==> forall|k: int| 0 <= k < c.len() ==> #[trigger] c[k].0 != t,
    decreases c.len(),
{
    if c.len() > 0 {
        lemma_slot_bound(c.drop_last(), t);
        if c.last().0 != t {
            assert forall|k: int| 0 <= k < c.len() - 1 implies #[trigger] c[k].0 == c.drop_last()[k].0 by {}
        }
    }
}

proof fn lemma_type_counts_bound(rs: Seq<EntityRelationship>)
    ensures
        forall|k: int| 0 <= k < type_counts(rs).len() ==> (#[trigger] type_counts(rs)[k]).1 <= rs.len(),
        type_counts(rs).len() <= rs.len(),
    decreases rs.len(),
{
    if rs.len() > 0 {
        lemma_type_counts_bound(rs.drop_last());
        lemma_slot_bound(type_counts(rs.drop_last()), rs.last().relationship_type@);
    }
}

impl GraphDatabase {
    /// The entities that the relationships name, each once, in order of first mention.
    fn entity_list(&self) -> (r: Vec<String>)
        ensures
            strings_view(r@) == entities_of(self.rels()),
    {
        let mut out: Vec<String> = Vec::new();
        let mut k: usize = 0;
        while k < self.relationships.len()
            invariant
                k <= self.relationships.len(),
                strings_view(out@) == entities_of(self.relationships@.subrange(0, k as int)),
            decreases self.relationships.len() - k,
        {
            let ghost next = self.relationships@.subrange(0, k + 1);
            assert(next.drop_last() =~= self.relationships@.subrange(0, k as int));
            let r = &self.relationships[k];
            let ghost b0 = strings_view(out@);
            if !contains_token(&out, r.source_entity_id.as_str()) {
                out.push(r.source_entity_id.clone());
                assert(strings_view(out@) =~= b0.push(r.source_entity_id@));
            }
            let ghost b1 = strings_view(out@);
            if !contains_token(&out, r.target_entity_id.as_str()) {
                out.push(r.target_entity_id.clone());
                assert(strings_view(out@) =~= b1.push(r.target_entity_id@));
            }
            k = k + 1;
        }
        assert(self.relationships@.subrange(0, k as int) =~= self.relationships@);
        out
    }

    /// How many relationship ends name the entity.
    fn degree_of(&self, e: &str) -> (r: usize)
        requires
            self.rels().len() <= usize::MAX / 2,
        ensures
            r == degree(self.rels(), e@),
    {
        let mut n: usize = 0;
        let mut k: usize = 0;
        while k < self.relationships.len()
            invariant
                k <= self.relationships.len(),
                self.relationships@.len() <= usize::MAX / 2,
                n == degree(self.relationships@.subrange(0, k as int), e@),
                n <= 2 * k,
            decreases self.relationships.len() - k,
        {
            let ghost next = self.relationships@.subrange(0, k + 1);
            assert(next.drop_last() =~= self.relationships@.subrange(0, k as int));
            let r = &self.relationships[k];
            if str_eq(r.source_entity_id.as_str(), e) {
                n = n + 1;
            }
            if str_eq(r.target_entity_id.as_str(), e) {
                n = n + 1;
            }
            k = k + 1;
        }
        assert(self.relationships@.subrange(0, k as int) =~= self.relationships@);
        n
    }

    /// Counts over the relationship records: entities, relationships, relationships per type
    /// and the largest degree.
    pub fn calculate_graph_statistics(&self) -> (r: GraphStatistics)
        requires
            self.rels().len() <= usize::MAX / 2,
        ensures
            r.total_entities == entities_of(self.rels()).len(),
            r.total_relationships == self.rels().len(),
            counts_view(r.relationship_types@) == type_counts(self.rels()),
            r.max_degree == max_degree_of(self.rels(), entities_of(self.rels())),
    {
        let entities = self.entity_list();
        let ghost es = strings_view(entities@);
        let mut max_degree: usize = 0;
        let mut i: usize = 0;
        while i < entities.len()
            invariant
                i <= entities.len(),
                es == strings_view(entities@),
                self.rels().len() <= usize::MAX / 2,
                max_degree == max_degree_of(self.rels(), es.subrange(0, i as int)),
            decreases entities.len() - i,
        {
            let ghost next = es.subrange(0, i + 1);
            assert(next.drop_last() =~= es.subrange(0, i as int));
            assert(next.last() == entities@[i as int]@);
            let d = self.degree_of(entities[i].as_str());
            if d > max_degree {
                max_degree = d;
            }
            i = i + 1;
        }
        assert(es.subrange(0, i as int) =~= es);
        let mut types: Vec<(String, usize)> = Vec::new();
        let mut k: usize = 0;
        while k < self.relationships.len()
            invariant
                k <= self.relationships.len(),
                self.relationships@.len() <= usize::MAX / 2,
                counts_view(types@) == type_counts(self.relationships@.subrange(0, k as int)),
            decreases self.relationships.len() - k,
        {
            let ghost pre = self.relationships@.subrange(0, k as int);
            let ghost next = self.relationships@.subrange(0, k + 1);
            assert(next.drop_last() =~= pre);
            proof {
                lemma_type_counts_bound(pre);
            }
            let t = &self.relationships[k].relationship_type;
            let ghost c = counts_view(types@);
            let mut j: usize = types.len();
            assert(c.subrange(0, c.len() as int) =~= c);
            while j > 0 && !str_eq(types[j - 1].0.as_str(), t.as_str())
                invariant
                    j <= types.len(),
                    c == counts_view(types@),
                    type_slot(c, t@) == type_slot(c.subrange(0, j as int), t@),
                decreases j,
            {
                let ghost sub = c.subrange(0, j as int);
                assert(sub.drop_last() =~= c.subrange(0, j - 1));
                j = j - 1;
            }
            if j > 0 {
                let ghost sub = c.subrange(0, j as int);
                assert(sub.last() == c[j - 1]);
                assert(type_slot(c, t@) == Some(j - 1));
                let cnt = types[j - 1].1;
                assert(cnt <= pre.len());
                types.set(j - 1, (t.clone(), cnt + 1));
                assert(counts_view(types@) =~= c.update(j - 1, (t@, c[j - 1].1 + 1)));
            } else {
                assert(c.subrange(0, 0) =~= Seq::<(Seq<char>, nat)>::empty());
                types.push((t.clone(), 1));
                assert(counts_view(types@) =~= c.push((t@, 1nat)));
            }
            k = k + 1;
        }
        assert(self.relationships@.subrange(0, k as int) =~= self.relationships@);
        GraphStatistics {
            total_entities: entities.len(),
            total_relationships: self.relationships.len(),
            relationship_types: types,
            max_degree,
        }
    }
}

/// An entity linked to another is named by some relationship.
proof fn lemma_adjacent_mentioned(rels: Seq<EntityRelationship>, x: Seq<char>, y: Seq<char>)
    requires
        adjacent(rels, x, y),
    ensures
        entities_of(rels).contains(y),
    decreases rels.len(),
{
    let pre = rels.drop_last();
    let last = rels.last();
    lemma_entities_grow(rels);
    if adjacent(pre, x, y) {
        lemma_adjacent_mentioned(pre, x, y);
    } else {
        let i = choose|i: int|
            0 <= i < rels.len() && ((#[trigger] rels[i].source_entity_id@ == x && rels[i].target_entity_id@ == y)
                || (rels[i].target_entity_id@ == x && rels[i].source_entity_id@ == y));
        if i < rels.len() - 1 {
            assert(pre[i] == rels[i]);
            assert(adjacent(pre, x, y));
        }
    }
}

/// The entities of a prefix stay among the entities, and the last relationship's ends join them.
proof fn lemma_entities_grow(rels: Seq<EntityRelationship>)
    requires
        rels.len() > 0,
    ensures
        forall|y: Seq<char>| entities_of(rels.drop_last()).contains(y) ==> entities_of(rels).contains(y),
        entities_of(rels).contains(rels.last().source_entity_id@),
        entities_of(rels).contains(rels.last().target_entity_id@),
{
    let e = entities_of(rels.drop_last());
    let src = rels.last().source_entity_id@;
    let tgt = rels.last().target_entity_id@;
    let e1 = if e.contains(src) { e } else { e.push(src) };
    assert forall|y: Seq<char>| e.contains(y) implies e1.contains(y) by {
        if !e.contains(src) {
            let w = choose|w: int| 0 <= w < e.len() && e[w] == y;
            assert(e1[w] == y);
        }
    }
    if !e.contains(src) {
        assert(e1[e.len() as int] == src);
    }
    let e2 = entities_of(rels);
    assert forall|y: Seq<char>| e1.contains(y) implies e2.contains(y) by {
        if !e1.contains(tgt) {
            let w = choose|w: int| 0 <= w < e1.len() && e1[w] == y;
            assert(e2[w] == y);
        }
    }
    if !e1.contains(tgt) {
        assert(e2[e1.len() as int] == tgt);
    }
}

/// A list without repeats, drawn from `es` and one more entity, is no longer than `es` plus one.
proof fn lemma_visited_bound(v: Seq<Seq<char>>, es: Seq<Seq<char>>, s: Seq<char>)
    requires
        forall|a: int, b: int| 0 <= a < b < v.len() ==> v[a] != v[b],
        forall|y: Seq<char>| v.contains(y) ==> y == s || es.contains(y),
    ensures
        v.len() <= es.len() + 1,
{
    broadcast use vstd::seq_lib::seq_to_set_is_finite;
    assert(v.no_duplicates()) by {
        assert forall|a: int, b: int| 0 <= a < v.len() && 0 <= b < v.len() && a != b implies v[a] != v[b] by {
            if a < b {
                assert(v[a] != v[b]);
            } else {
                assert(v[b] != v[a]);
            }
        }
    }
    v.unique_seq_to_set();
    let all = es.push(s);
    assert forall|y: Seq<char>| v.to_set().contains(y) implies all.to_set().contains(y) by {
        assert(v.contains(y));
        if y == s {
            assert(all[es.len() as int] == s);
        } else {
            let w = choose|w: int| 0 <= w < es.len() && es[w] == y;
            assert(all[w] == y);
        }
    }
    vstd::set_lib::lemma_len_subset(v.to_set(), all.to_set());
    all.lemma_cardinality_of_set();
}

/// A copy of a list of strings.
fn copy_strings(v: &Vec<String>) -> (r: Vec<String>)
    ensures
        strings_view(r@) == strings_view(v@),
        r.len() == v.len(),
{
    let mut out: Vec<String> = Vec::new();
    let mut i: usize = 0;
    while i < v.len()
        invariant
            i <= v.len(),
            out.len() == i,
            strings_view(out@) == strings_view(v@).subrange(0, i as int),
        decreases v.len() - i,
    {
        let ghost before = strings_view(out@);
        out.push(v[i].clone());
        assert(strings_view(out@) =~= before.push(v@[i as int]@));
        assert(strings_view(v@).subrange(0, i + 1) =~= strings_view(v@).subrange(0, i as int).push(v@[i as int]@));
        i = i + 1;
    }
    assert(strings_view(v@).subrange(0, i as int) =~= strings_view(v@));
    out
}

impl GraphDatabase {
    /// A shortest walk from `source` to `target` over the links, taken in either direction, as
    /// the entities along it; none when no walk connects them.
    pub fn find_shortest_path(&self, source: &str, target: &str) -> (r: Option<Vec<String>>)
        ensures
            r matches Some(p) ==> walk_between(self.rels(), strings_view(p@), source@, target@),
            r matches Some(p) ==> forall|k: nat|
                #[trigger] within(self.rels(), source@, target@, k) ==> p@.len() <= k + 1,
            r is None ==> forall|k: nat| !#[trigger] within(self.rels(), source@, target@, k),
    {
        let ghost rels = self.rels();
        let ghost s = source@;
        let ghost t = target@;
        let ghost es = entities_of(rels);
        let start = String::from_str(source);
        let mut visited: Vec<String> = Vec::new();
        visited.push(start.clone());
        let mut frontier: Vec<String> = Vec::new();
        frontier.push(start);
        let mut layers: Vec<Vec<String>> = Vec::new();
        layers.push(copy_strings(&visited));
        let mut depth: usize = 0;
        proof {
            assert forall|y: Seq<char>| strings_view(visited@).contains(y) <==> within(rels, s, y, 0) by {
                if strings_view(visited@).contains(y) {
                    let w = choose|w: int| 0 <= w < strings_view(visited@).len() && strings_view(visited@)[w] == y;
                    assert(w == 0);
                    lemma_within_start(rels, s, 0);
                }
                if within(rels, s, y, 0) {
                    let p = choose|p: Seq<Seq<char>>| #[trigger] walk_between(rels, p, s, y) && p.len() <= 1;
                    assert(strings_view(visited@)[0] == y);
                }
            }
            assert forall|y: Seq<char>| within(rels, s, y, 0) implies strings_view(frontier@).contains(y) by {
                let p = choose|p: Seq<Seq<char>>| #[trigger] walk_between(rels, p, s, y) && p.len() <= 1;
                assert(strings_view(frontier@)[0] == y);
            }
            assert forall|y: Seq<char>| strings_view(frontier@).contains(y) implies within(rels, s, y, 0) by {
                assert(strings_view(frontier@)[0] == s);
                lemma_within_start(rels, s, 0);
            }
            assert forall|y: Seq<char>| strings_view(visited@).contains(y) implies y == s || es.contains(y) by {
                assert(strings_view(visited@)[0] == s);
            }
        }
        while !contains_token(&visited, target) && frontier.len() > 0
            invariant
                rels == self.rels(),
                s == source@,
                t == target@,
                es == entities_of(rels),
                visited.len() >= 1,
                visited@[0]@ == s,
                visited.len() <= es.len() + 1,
                forall|i: int, j: int|
                    0 <= i < j < visited@.len() ==> strings_view(visited@)[i] != strings_view(visited@)[j],
                forall|y: Seq<char>| strings_view(visited@).contains(y) <==> within(rels, s, y, depth as nat),
                forall|y: Seq<char>| strings_view(visited@).contains(y) ==> y == s || es.contains(y),
                forall|y: Seq<char>| strings_view(frontier@).contains(y) ==> within(rels, s, y, depth as nat),
                forall|y: Seq<char>|
                    #[trigger] within(rels, s, y, depth as nat) ==> strings_view(frontier@).contains(y) || (depth > 0
                        && within(rels, s, y, (depth - 1) as nat)),
                layers.len() == depth + 1,
                forall|k: int, y: Seq<char>|
                    0 <= k <= depth ==> (#[trigger] strings_view(layers@[k]@).contains(y) <==> within(rels, s, y, k as nat)),
                forall|k: nat| k < depth ==> !#[trigger] within(rels, s, t, k),
            decreases 2 * (es.len() + 1 - visited.len()) + (if frontier.len() > 0 { 1int } else { 0int }),
        {
            let ghost d = depth as nat;
            let ghost old_len = visited.len();
            let ghost vis_before = strings_view(visited@);
            assert(!vis_before.contains(t));
            let next = self.expand_layer(&mut visited, &frontier, Ghost(s), Ghost(d));
            let snapshot = copy_strings(&visited);
            layers.push(snapshot);
            proof {
                assert forall|y: Seq<char>| strings_view(visited@).contains(y) implies y == s || es.contains(y) by {
                    if y != s {
                        lemma_within_back(rels, s, y, d);
                        let x = choose|x: Seq<char>| #[trigger] within(rels, s, x, d) && adjacent(rels, x, y);
                        lemma_adjacent_mentioned(rels, x, y);
                    }
                }
                lemma_visited_bound(strings_view(visited@), es, s);
                assert(visited@.len() == old_len + next@.len());
                assert forall|k: nat| k < d + 1 implies !#[trigger] within(rels, s, t, k) by {
                    if k == d {
                        assert(!vis_before.contains(t));
                    }
                }
                assert forall|y: Seq<char>| strings_view(next@).contains(y) implies within(rels, s, y, d + 1) by {}
                assert forall|k: int, y: Seq<char>|
                    0 <= k <= d + 1 implies (#[trigger] strings_view(layers@[k]@).contains(y) <==> within(rels, s, y, k as nat)) by {
                    if k == d + 1 {
                        assert(layers@[k] == snapshot);
                    }
                }
            }
            frontier = next;
            depth = depth + 1;
        }
        if !contains_token(&visited, target) {
            proof {
                let d = depth as nat;
                assert(frontier.len() == 0);
                assert forall|x: Seq<char>| #[trigger] within(rels, s, x, d + 1) implies within(rels, s, x, d) by {
                    if x != s {
                        lemma_within_back(rels, s, x, d);
                        let y = choose|y: Seq<char>| #[trigger] within(rels, s, y, d) && adjacent(rels, y, x);
                        assert(!strings_view(frontier@).contains(y));
                        lemma_within_step(rels, s, y, x, (d - 1) as nat);
                    } else {
                        lemma_within_start(rels, s, d);
                    }
                }
                assert forall|k: nat| !#[trigger] within(rels, s, t, k) by {
                    if within(rels, s, t, k) {
                        if k >= d {
                            lemma_fixpoint(rels, s, d, k, t);
                        } else {
                            let p = choose|p: Seq<Seq<char>>| #[trigger] walk_between(rels, p, s, t) && p.len() <= k + 1;
                            assert(walk_between(rels, p, s, t) && p.len() <= d + 1);
                        }
                    }
                }
            }
            return None;
        }
        // Walk back from the target, one layer at a time.
        let mut rev: Vec<String> = Vec::new();
        rev.push(String::from_str(target));
        let mut k: usize = depth;
        while k > 0
            invariant
                rels == self.rels(),
                s == source@,
                t == target@,
                k <= depth,
                layers.len() == depth + 1,
                forall|m: int, y: Seq<char>|
                    0 <= m <= depth ==> (#[trigger] strings_view(layers@[m]@).contains(y) <==> within(rels, s, y, m as nat)),
                rev.len() == depth - k + 1,
                rev@[0]@ == t,
                within(rels, s, rev@[rev.len() - 1]@, k as nat),
                k > 0 ==> !within(rels, s, rev@[rev.len() - 1]@, (k - 1) as nat),
                is_walk(rels, strings_view(rev@).reverse()),
            decreases k,
        {
            let cur = rev[rev.len() - 1].clone();
            let ghost c = cur@;
            proof {
                lemma_within_start(rels, s, (k - 1) as nat);
                assert(c != s);
                lemma_within_back(rels, s, c, (k - 1) as nat);
            }
            let nbrs = self.neighbors_of(cur.as_str());
            let below = &layers[k - 1];
            let mut j: usize = 0;
            let mut pick: Option<usize> = None;
            while j < nbrs.len() && pick.is_none()
                invariant
                    j <= nbrs.len(),
                    pick matches Some(q) ==> q < nbrs.len() && strings_view(below@).contains(nbrs@[q as int]@),
                    pick is None ==> forall|q: int| 0 <= q < j ==> !strings_view(below@).contains(#[trigger] nbrs@[q]@),
                decreases nbrs.len() - j,
            {
                if contains_token(below, nbrs[j].as_str()) {
                    pick = Some(j);
                }
                j = j + 1;
            }
            match pick {
                Some(q) => {
                    let ghost y = nbrs@[q as int]@;
                    let ghost before = strings_view(rev@);
                    proof {
                        assert(strings_view(nbrs@).contains(y)) by {
                            assert(strings_view(nbrs@)[q as int] == y);
                        }
                        assert(within(rels, s, y, (k - 1) as nat));
                        if k > 1 && within(rels, s, y, (k - 2) as nat) {
                            lemma_within_step(rels, s, y, c, (k - 2) as nat);
                        }
                    }
                    rev.push(nbrs[q].clone());
                    proof {
                        assert(strings_view(rev@) =~= before.push(y));
                        let rr = strings_view(rev@).reverse();
                        let br = before.reverse();
                        assert forall|i: int| 0 <= i < rr.len() - 1 implies adjacent(rels, #[trigger] rr[i], rr[i + 1]) by {
                            if i == 0 {
                                assert(rr[0] == y);
                                assert(rr[1] == c);
                                assert(adjacent(rels, c, y));
                                lemma_adjacent_symmetric(rels, c, y);
                            } else {
                                assert(rr[i] == br[i - 1]);
                                assert(rr[i + 1] == br[i]);
                            }
                        }
                    }
                },
                None => {
                    proof {
                        let y = choose|y: Seq<char>| #[trigger] within(rels, s, y, (k - 1) as nat) && adjacent(rels, y, c);
                        lemma_adjacent_symmetric(rels, y, c);
                        assert(strings_view(nbrs@).contains(y));
                        let q = choose|q: int| 0 <= q < strings_view(nbrs@).len() && strings_view(nbrs@)[q] == y;
                        assert(strings_view(below@).contains(nbrs@[q]@));
                    }
                    return None;
                },
            }
            k = k - 1;
        }
        let mut path: Vec<String> = Vec::new();
        let mut i: usize = rev.len();
        while i > 0
            invariant
                i <= rev.len(),
                strings_view(path@) == strings_view(rev@).reverse().subrange(0, (rev.len() - i) as int),
            decreases i,
        {
            let ghost before = strings_view(path@);
            path.push(rev[i - 1].clone());
            assert(strings_view(path@) =~= before.push(rev@[i - 1]@));
            assert(strings_view(rev@).reverse()[(rev.len() - i) as int] == rev@[i - 1]@);
            assert(strings_view(path@) =~= strings_view(rev@).reverse().subrange(0, (rev.len() - i + 1) as int));
            i = i - 1;
        }
        proof {
            let pv = strings_view(path@);
            assert(pv =~= strings_view(rev@).reverse());
            assert(within(rels, s, rev@[rev.len() - 1]@, 0));
            // A walk of one entity ends where it starts: the walk back reached the source.
            let single = choose|p: Seq<Seq<char>>| #[trigger] walk_between(rels, p, s, rev@[rev.len() - 1]@) && p.len() <= 1;
            assert(single[0] == s);
            assert(pv[0] == rev@[rev.len() - 1]@);
            assert(pv.last() == t);
            assert forall|m: nat| #[trigger] within(rels, s, t, m) implies pv.len() <= m + 1 by {
                if m < depth {
                    assert(!within(rels, s, t, m));
                }
            }
        }
        Some(path)
    }
}

/// A relationship names the entity at one of its ends.
pub open spec fn names(r: EntityRelationship, e: Seq<char>) -> bool {
    r.source_entity_id@ == e || r.target_entity_id@ == e
}

impl GraphDatabase {
    /// Deletes every relationship that names the entity, as deleting the entity requires; the
    /// others stay, in order. Returns how many were deleted.
    pub fn delete_entity_relationships(&mut self, entity_id: &str) -> (r: usize)
        requires
            old(self).wf(),
        ensures
            final(self).wf(),
            forall|k: int| 0 <= k < final(self).rels().len() ==> !names(#[trigger] final(self).rels()[k], entity_id@),
            final(self).rels() == old(self).rels().filter(|x: EntityRelationship| !names(x, entity_id@)),
            r + final(self).rels().len() == old(self).rels().len(),
    {
        let ghost keep = |x: EntityRelationship| !names(x, entity_id@);
        let ghost olds = self.relationships@;
        let mut kept: Vec<EntityRelationship> = Vec::new();
        let mut removed: usize = 0;
        let mut k: usize = 0;
        while k < self.relationships.len()
            invariant
                k <= self.relationships.len(),
                olds == self.relationships@,
                keep == (|x: EntityRelationship| !names(x, entity_id@)),
                kept@ == olds.subrange(0, k as int).filter(keep),
                removed + kept.len() == k,
            decreases self.relationships.len() - k,
        {
            let ghost next = olds.subrange(0, k + 1);
            proof {
                reveal(Seq::filter);
                assert(next.drop_last() =~= olds.subrange(0, k as int));
                assert(next.last() == olds[k as int]);
            }
            let r = &self.relationships[k];
            if str_eq(r.source_entity_id.as_str(), entity_id) || str_eq(r.target_entity_id.as_str(), entity_id) {
                removed = removed + 1;
            } else {
                kept.push(r.clone_relationship());
            }
            k = k + 1;
        }
        assert(olds.subrange(0, k as int) =~= olds);
        proof {
            olds.filter_lemma(keep);
            assert forall|a: int, b: int| 0 <= a < b < kept@.len() implies #[trigger] kept@[a].id@ != #[trigger] kept@[b].id@ by {
                lemma_filter_keeps_unique(olds, keep, a, b);
            }
        }
        self.relationships = kept;
        removed
    }
}

/// What a filter keeps comes from the sequence filtered.
proof fn lemma_filter_from(rs: Seq<EntityRelationship>, keep: spec_fn(EntityRelationship) -> bool, a: int)
    requires
        0 <= a < rs.filter(keep).len(),
    ensures
        rs.contains(rs.filter(keep)[a]),
    decreases rs.len(),
{
    reveal(Seq::filter);
    let pre = rs.drop_last();
    let fp = pre.filter(keep);
    if keep(rs.last()) && a == fp.len() {
        assert(rs[rs.len() - 1] == rs.filter(keep)[a]);
    } else {
        assert(rs.filter(keep)[a] == fp[a]);
        lemma_filter_from(pre, keep, a);
        let w = choose|w: int| 0 <= w < pre.len() && pre[w] == fp[a];
        assert(rs[w] == pre[w]);
    }
}

/// Filtering keeps identifiers apart.
proof fn lemma_filter_keeps_unique(rs: Seq<EntityRelationship>, keep: spec_fn(EntityRelationship) -> bool, a: int, b: int)
    requires
        rel_ids_unique(rs),
        0 <= a < b < rs.filter(keep).len(),
    ensures
        rs.filter(keep)[a].id@ != rs.filter(keep)[b].id@,
    decreases rs.len(),
{
    reveal(Seq::filter);
    let pre = rs.drop_last();
    let f = rs.filter(keep);
    let fp = pre.filter(keep);
    assert forall|i: int, j: int| 0 <= i < j < pre.len() implies #[trigger] pre[i].id@ != #[trigger] pre[j].id@ by {
        assert(rs[i].id@ != rs[j].id@);
    }
    if keep(rs.last()) {
        assert(f == fp.push(rs.last()));
        if b < fp.len() {
            lemma_filter_keeps_unique(pre, keep, a, b);
        } else {
            lemma_filter_from(pre, keep, a);
            assert(pre.contains(fp[a]));
            let w = choose|w: int| 0 <= w < pre.len() && pre[w] == fp[a];
            assert(rs[w] == pre[w]);
            assert(rs[w].id@ != rs[rs.len() - 1].id@);
        }
    } else {
        assert(f == fp);
        lemma_filter_keeps_unique(pre, keep, a, b);
    }
}

impl EntityRelationship {
    /// A copy of the relationship.
    pub fn clone_relationship(&self) -> (r: EntityRelationship)
        ensures
            r == *self,
    {
        EntityRelationship {
            id: self.id.clone(),
            source_entity_id: self.source_entity_id.clone(),
            target_entity_id: self.target_entity_id.clone(),
            relationship_type: self.relationship_type.clone(),
            strength: self.strength,
            confidence: self.confidence,
            created_at: self.created_at,
            metadata: self.metadata.clone(),
        }
    }
}

proof fn lemma_adjacent_symmetric(rels: Seq<EntityRelationship>, a: Seq<char>, b: Seq<char>)
    requires
        adjacent(rels, a, b),
    ensures
        adjacent(rels, b, a),
{
    let i = choose|i: int|
        0 <= i < rels.len() && ((#[trigger] rels[i].source_entity_id@ == a && rels[i].target_entity_id@ == b)
            || (rels[i].target_entity_id@ == a && rels[i].source_entity_id@ == b));
    assert(rels[i].source_entity_id@ == rels[i].source_entity_id@);
}

} // verus!
