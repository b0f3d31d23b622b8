//! The registry of points and constraints: a bijection between point ids and
//! names, the constraints in order of insertion, and for each point the
//! constraints that reference it.

use vstd::prelude::*;
use bimap::BiHashMap;
use crate::constraint::{Constraint, PointID, Relation, CID};

verus! {

#[verifier::external_type_specification]
#[verifier::external_body]
#[verifier::reject_recursive_types(L)]
#[verifier::reject_recursive_types(R)]
#[verifier::reject_recursive_types(LS)]
#[verifier::reject_recursive_types(RS)]
pub struct ExBiHashMap<L, R, LS, RS>(BiHashMap<L, R, LS, RS>);

/// The id-name pairs that a bimap holds.
pub uninterp spec fn bimap_pairs(m: BiHashMap<PointID, String>) -> Map<PointID, Seq<char>>;

/// Relies on `BiHashMap::new`: the new map holds no pair.
#[verifier::external_body]
fn names_new() -> (r: BiHashMap<PointID, String>)
    ensures
        bimap_pairs(r).dom().is_empty(),
{
    BiHashMap::new()
}

/// Relies on `BiHashMap::get_by_right`: the id paired with `name`, if any.
#[verifier::external_body]
fn names_find(m: &BiHashMap<PointID, String>, name: &str) -> (r: Option<PointID>)
    ensures
        r matches Some(id) ==> bimap_pairs(*m).contains_key(id) && bimap_pairs(*m)[id] == name@,
        r is None ==> forall|id: PointID|
            bimap_pairs(*m).contains_key(id) ==> bimap_pairs(*m)[id] != name@,
{
    m.get_by_right(name).copied()
}

/// Relies on `BiHashMap::get_by_left`: the name paired with `id`, if any.
#[verifier::external_body]
fn names_get(m: &BiHashMap<PointID, String>, id: PointID) -> (r: Option<&String>)
    ensures
        r matches Some(s) ==> bimap_pairs(*m).contains_key(id) && bimap_pairs(*m)[id] == s@,
        r is None ==> !bimap_pairs(*m).contains_key(id),
{
    m.get_by_left(&id)
}

/// Relies on `BiHashMap::insert`: with neither value present, the pair is
/// added and nothing else changes.
#[verifier::external_body]
fn names_insert(m: &mut BiHashMap<PointID, String>, id: PointID, name: String)
    requires
        !bimap_pairs(*old(m)).contains_key(id),
        forall|i: PointID|
            bimap_pairs(*old(m)).contains_key(i) ==> bimap_pairs(*old(m))[i] != name@,
    ensures
        bimap_pairs(*final(m)) == bimap_pairs(*old(m)).insert(id, name@),
{
    m.insert(id, name);
}

/// `m` maps `0..n` one to one onto `0..n`.
pub open spec fn is_bijection(m: Seq<usize>, n: nat) -> bool {
    &&& m.len() == n
    &&& forall|i: int| 0 <= i < n ==> m[i] < n
    &&& forall|i: int, j: int| 0 <= i < n && 0 <= j < n && m[i] == m[j] ==> i == j
    &&& forall|x: usize| x < n ==> hits(m, n as int, x)
}

/// Some `m[j]` with `j < k` equals `x`.
pub open spec fn hits(m: Seq<usize>, k: int, x: usize) -> bool {
    exists|j: int| 0 <= j < k && #[trigger] m[j] == x
}

/// A drawing command of a path, kept as written.
pub struct PathCmd {
    pub text: String,
}

/// Drawing annotations carried by the index; the scheduler never reads them.
pub struct DrawOptions {
    pub paths: Vec<Vec<PathCmd>>,
}

/// Points and constraints of one document.
pub struct PointIndex {
    id2p: BiHashMap<PointID, String>,
    id2c: Vec<Vec<CID>>,
    constraints: Vec<Constraint>,
    pub draw: DrawOptions,
}

impl PointIndex {
    /// Number of points; ids are `0..num_points()`.
    pub closed spec fn num_points(&self) -> nat {
        self.id2c@.len()
    }

    /// The name of each point id.
    pub closed spec fn names(&self) -> Map<PointID, Seq<char>> {
        bimap_pairs(self.id2p)
    }

    /// The drawing paths.
    pub closed spec fn paths_view(&self) -> Seq<Vec<PathCmd>> {
        self.draw.paths@
    }

    /// The constraints; a constraint's id is its position.
    pub closed spec fn cons(&self) -> Seq<Constraint> {
        self.constraints@
    }

    /// The ids of the constraints that reference point `p`, ascending.
    pub closed spec fn adj(&self, p: int) -> Seq<CID> {
        self.id2c@[p]@
    }

    /// The index is consistent: names form a bijection with ids `0..n`, every
    /// constraint references existing points, and each point's adjacency list
    /// holds, ascending, exactly the constraints that reference it.
    pub open spec fn wf(&self) -> bool {
        &&& forall|i: PointID| self.names().contains_key(i) <==> i < self.num_points()
        &&& forall|i: PointID, j: PointID|
            #![trigger self.names()[i], self.names()[j]]
            self.names().contains_key(i) && self.names().contains_key(j) && self.names()[i]
                == self.names()[j] ==> i == j
        &&& forall|c: int| 0 <= c < self.cons().len() ==> self.cons()[c].within(self.num_points())
        &&& forall|p: int, k: int, l: int|
            0 <= p < self.num_points() && 0 <= k < l < self.adj(p).len() ==> self.adj(p)[k]
                < self.adj(p)[l]
        &&& forall|p: int, k: int|
            0 <= p < self.num_points() && 0 <= k < self.adj(p).len() ==> self.adj(p)[k]
                < self.cons().len()
        &&& forall|p: int, c: int|
            #![trigger self.adj(p).contains(c as CID), self.cons()[c]]
            0 <= p < self.num_points() && 0 <= c < self.cons().len() ==> (self.adj(p).contains(
                c as CID) <==> self.cons()[c].references(p as PointID))
    }

    /// An empty index.
    pub fn new() -> (r: PointIndex)
        ensures
            r.wf(),
            r.num_points() == 0,
            r.cons().len() == 0,
            r.names() == Map::<PointID, Seq<char>>::empty(),
    {
        PointIndex {
            id2p: names_new(),
            id2c: Vec::new(),
            constraints: Vec::new(),
            draw: DrawOptions { paths: Vec::new() },
        }
    }

    /// The id of the point named `p`, registering it under the next free id
    /// when no point has that name yet.
    pub fn get_or_insert(&mut self, p: &str) -> (id: PointID)
        requires
            old(self).wf(),
            old(self).num_points() < usize::MAX,
        ensures
            final(self).wf(),
            final(self).names().contains_key(id),
            final(self).names()[id] == p@,
            final(self).cons() == old(self).cons(),
            final(self).paths_view() == old(self).paths_view(),
            (exists|i: PointID| old(self).names().contains_key(i) && old(self).names()[i] == p@)
                <==> old(self).names().contains_key(id),
            old(self).names().contains_key(id) ==> final(self).names() == old(self).names()
                && final(self).num_points() == old(self).num_points(),
            !old(self).names().contains_key(id) ==> id == old(self).num_points()
                && final(self).names() == old(self).names().insert(id, p@)
                && final(self).num_points() == old(self).num_points() + 1
                && final(self).adj(id as int).len() == 0,
            forall|q: int| 0 <= q < old(self).num_points() ==> final(self).adj(q) == old(self).adj(q),
    {
        match names_find(&self.id2p, p) {
            Some(id) => id,
            None => {
                let id = self.id2c.len();
                let empty: Vec<CID> = Vec::new();
                assert(!self.names().contains_key(id));
                self.id2c.push(empty);
                assert(self.id2c@[id as int] == empty);
                names_insert(&mut self.id2p, id, p.to_owned());
                proof {
                    assert(self.cons() == old(self).cons());
                    assert forall|i: PointID| self.names().contains_key(i) <==> i < self.num_points() by {
                        if i < id {
                            assert(old(self).names().contains_key(i));
                        }
                    }
                    assert forall|q: int| 0 <= q < id implies self.adj(q) == old(self).adj(q) by {
                        assert(self.id2c@[q] == old(self).id2c@[q]);
                    }
                    assert forall|c: int| 0 <= c < self.cons().len() implies self.cons()[c].within(
                        self.num_points(),
                    ) by {
                        assert(old(self).cons()[c].within(old(self).num_points()));
                    }
                    assert forall|i: PointID, j: PointID|
                        #![trigger self.names()[i], self.names()[j]]
                        self.names().contains_key(i) && self.names().contains_key(j)
                            && self.names()[i] == self.names()[j] implies i == j by {
                        if i != id {
                            assert(old(self).names().contains_key(i));
                        }
                        if j != id {
                            assert(old(self).names().contains_key(j));
                        }
                    }
                    assert forall|q: int, c: int|
                        0 <= q < self.num_points() && 0 <= c < self.cons().len() implies (
                        self.adj(q).contains(c as CID) <==> self.cons()[c].references(q as PointID))
                        by {
                        if q == id as int {
                            assert(old(self).cons()[c].within(old(self).num_points()));
                            assert(self.adj(q).len() == 0);
                            assert(!self.adj(q).contains(c as CID));
                        } else {
                            assert(self.adj(q) == old(self).adj(q));
                            assert(old(self).adj(q).contains(c as CID) <==> old(self).cons()[c].references(
                                q as PointID,
                            ));
                        }
                    }
                }
                id
            },
        }
    }

    /// Appends `cid` to the adjacency list of point `q`.
    fn push_adj(&mut self, q: PointID, cid: CID)
        requires
            q < old(self).num_points(),
        ensures
            final(self).id2p == old(self).id2p,
            final(self).constraints == old(self).constraints,
            final(self).draw == old(self).draw,
            final(self).num_points() == old(self).num_points(),
            final(self).adj(q as int) == old(self).adj(q as int).push(cid),
            forall|p: int| 0 <= p < old(self).num_points() && p != q ==> final(self).adj(p) == old(self).adj(p),
    {
        self.id2c[q].push(cid);
    }

    /// Appends `c`, whose id is the number of constraints before it, and
    /// records it in the adjacency list of every point it references.
    pub fn add_constraint(&mut self, c: Constraint)
        requires
            old(self).wf(),
            c.within(old(self).num_points()),
            old(self).cons().len() < usize::MAX,
        ensures
            final(self).wf(),
            final(self).cons() == old(self).cons().push(c),
            final(self).paths_view() == old(self).paths_view(),
            final(self).names() == old(self).names(),
            final(self).num_points() == old(self).num_points(),
            forall|p: int|
                0 <= p < old(self).num_points() ==> final(self).adj(p) == if c.references(
                    p as PointID,
                ) {
                    old(self).adj(p).push(old(self).cons().len() as CID)
                } else {
                    old(self).adj(p)
                },
    {
        let cid = self.constraints.len();
        let npts = self.id2c.len();
        let ghost n = old(self).num_points();
        assert(n == npts);
        match c.relation {
            Relation::Pair(a, b) => {
                self.push_adj(a, cid);
                if b != a {
                    self.push_adj(b, cid);
                }
            },
            Relation::Triple(a, b, x) => {
                self.push_adj(a, cid);
                if b != a {
                    self.push_adj(b, cid);
                }
                if x != a && x != b {
                    self.push_adj(x, cid);
                }
            },
        }
        self.constraints.push(c);
        proof {
            assert forall|p: int| 0 <= p < n implies self.adj(p) == if c.references(p as PointID) {
                old(self).adj(p).push(cid)
            } else {
                old(self).adj(p)
            } by {
                if c.references(p as PointID) {
                    assert(self.adj(p) =~= old(self).adj(p).push(cid));
                } else {
                    assert(self.adj(p) =~= old(self).adj(p));
                }
            }
            assert(self.names() == old(self).names());
            assert(forall|i: PointID| self.names().contains_key(i) <==> i < self.num_points());
            assert forall|c2: int| 0 <= c2 < self.cons().len() implies self.cons()[c2].within(
                self.num_points(),
            ) by {
                if c2 < cid {
                    assert(self.cons()[c2] == old(self).cons()[c2]);
                }
            }
            assert forall|p: int, k1: int, l: int|
                0 <= p < self.num_points() && 0 <= k1 < l < self.adj(p).len() implies self.adj(p)[k1]
                    < self.adj(p)[l] by {
                if c.references(p as PointID) && l == self.adj(p).len() - 1 {
                    assert(old(self).adj(p)[k1] < cid);
                } else {
                    assert(self.adj(p)[k1] == old(self).adj(p)[k1]);
                    assert(self.adj(p)[l] == old(self).adj(p)[l]);
                }
            }
            assert forall|p: int, k1: int|
                0 <= p < self.num_points() && 0 <= k1 < self.adj(p).len() implies self.adj(p)[k1]
                    < self.cons().len() by {
                if !(c.references(p as PointID) && k1 == self.adj(p).len() - 1) {
                    assert(self.adj(p)[k1] == old(self).adj(p)[k1]);
                }
            }
            assert forall|p: int, x: int|
                0 <= p < self.num_points() && 0 <= x < self.cons().len() implies (self.adj(
                    p,
                ).contains(x as CID) <==> self.cons()[x].references(p as PointID)) by {
                if x < cid {
                    assert(self.cons()[x] == old(self).cons()[x]);
                    assert(old(self).adj(p).contains(x as CID) <==> old(self).cons()[x].references(
                        p as PointID,
                    ));
                    if self.adj(p).contains(x as CID) {
                        let j = choose|j: int|
                            0 <= j < self.adj(p).len() && #[trigger] self.adj(p)[j] == x;
                        if j < old(self).adj(p).len() {
                            assert(old(self).adj(p)[j] == x);
                        }
                    }
                    if old(self).adj(p).contains(x as CID) {
                        let j = choose|j: int|
                            0 <= j < old(self).adj(p).len() && #[trigger] old(self).adj(p)[j] == x;
                        assert(self.adj(p)[j] == x);
                    }
                } else {
                    if c.references(p as PointID) {
                        assert(self.adj(p)[self.adj(p).len() - 1] == cid);
                    } else if self.adj(p).contains(x as CID) {
                        let j = choose|j: int|
                            0 <= j < self.adj(p).len() && #[trigger] self.adj(p)[j] == x;
                        assert(old(self).adj(p)[j] < cid);
                    }
                }
            }
        }
    }

    /// Appends a drawing path; nothing else changes.
    pub fn add_path(&mut self, path: Vec<PathCmd>)
        ensures
            final(self).paths_view() == old(self).paths_view().push(path),
            final(self).names() == old(self).names(),
            final(self).num_points() == old(self).num_points(),
            final(self).cons() == old(self).cons(),
            forall|p: int| #![auto] final(self).adj(p) == old(self).adj(p),
    {
        self.draw.paths.push(path);
    }

    /// The drawing paths, in order of addition.
    pub fn paths(&self) -> (r: &Vec<Vec<PathCmd>>)
        ensures
            r@ == self.paths_view(),
    {
        &self.draw.paths
    }

    /// All constraints; a constraint's id is its position.
    pub fn constraints(&self) -> (r: &Vec<Constraint>)
        ensures
            r@ == self.cons(),
    {
        &self.constraints
    }

    /// The constraint with id `cid`.
    pub fn get_constraint(&self, cid: CID) -> (r: &Constraint)
        requires
            self.wf(),
            cid < self.cons().len(),
        ensures
            *r == self.cons()[cid as int],
            r.within(self.num_points()),
    {
        &self.constraints[cid]
    }

    /// The ids of the constraints that reference `point`, ascending.
    pub fn get_cids(&self, point: PointID) -> (r: &Vec<CID>)
        requires
            self.wf(),
            point < self.num_points(),
        ensures
            r@ == self.adj(point as int),
            forall|k: int| 0 <= k < r@.len() ==> r@[k] < self.cons().len(),
            forall|k: int, l: int| 0 <= k < l < r@.len() ==> r@[k] < r@[l],
            forall|c: int|
                0 <= c < self.cons().len() ==> (r@.contains(c as CID) <==> self.cons()[c].references(
                    point,
                )),
    {
        proof {
            assert forall|c: int|
                0 <= c < self.cons().len() implies (self.adj(point as int).contains(c as CID)
                <==> self.cons()[c].references(point)) by {
                assert(self.adj(point as int).contains(c as CID) <==> self.cons()[c].references(
                    point as int as PointID,
                ));
            }
        }
        &self.id2c[point]
    }

    /// Number of points.
    pub fn point_count(&self) -> (r: usize)
        ensures
            r == self.num_points(),
    {
        self.id2c.len()
    }

    /// The point ids, ascending: `0..n`.
    pub fn ids(&self) -> (r: Vec<PointID>)
        ensures
            r@.len() == self.num_points(),
            forall|i: int| 0 <= i < r@.len() ==> r@[i] == i,
    {
        let n = self.id2c.len();
        let mut r: Vec<PointID> = Vec::new();
        let mut i: usize = 0;
        while i < n
            invariant
                i <= n,
                n == self.num_points(),
                r@.len() == i,
                forall|j: int| 0 <= j < i ==> r@[j] == j,
            decreases n - i,
        {
            r.push(i);
            i += 1;
        }
        r
    }

    /// The name of point `id`.
    pub fn get_point(&self, id: PointID) -> (r: &String)
        requires
            self.wf(),
            id < self.num_points(),
        ensures
            r@ == self.names()[id],
    {
        match names_get(&self.id2p, id) {
            Some(s) => s,
            None => {
                proof {
                    assert(self.names().contains_key(id));
                }
                unreached()
            },
        }
    }

    /// Renumbers every point `p` as `mapping[p]`: in each constraint, in the
    /// names and in the adjacency lists. `mapping` must be a bijection on
    /// `0..n`.
    pub fn map_ids(&mut self, mapping: &Vec<usize>)
        requires
            old(self).wf(),
            is_bijection(mapping@, old(self).num_points()),
        ensures
            final(self).wf(),
            final(self).num_points() == old(self).num_points(),
            final(self).cons().len() == old(self).cons().len(),
            final(self).paths_view() == old(self).paths_view(),
            forall|c: int|
                0 <= c < old(self).cons().len() ==> (#[trigger] final(self).cons()[c]).relation
                    == old(self).cons()[c].relation.renumbered(mapping@)
                    && final(self).cons()[c].discretizing == old(self).cons()[c].discretizing,
            forall|p: int|
                0 <= p < old(self).num_points() ==> final(self).names()[#[trigger] mapping@[p]]
                    == old(self).names()[p as PointID] && final(self).adj(mapping@[p] as int)
                    == old(self).adj(p),
    {
        let ghost old_cons = self.constraints@;
        let n = self.id2c.len();
        let mut i: usize = 0;
        while i < self.constraints.len()
            invariant
                old(self).wf(),
                is_bijection(mapping@, n as nat),
                n == old(self).num_points(),
                self.id2c == old(self).id2c,
                self.id2p == old(self).id2p,
                self.draw == old(self).draw,
                self.constraints@.len() == old_cons.len(),
                old_cons == old(self).cons(),
                i <= self.constraints@.len(),
                forall|c: int|
                    0 <= c < i ==> (#[trigger] self.constraints@[c]).relation
                        == old_cons[c].relation.renumbered(mapping@) && self.constraints@[c].discretizing
                        == old_cons[c].discretizing,
                forall|c: int| i <= c < old_cons.len() ==> #[trigger] self.constraints@[c] == old_cons[c],
            decreases old_cons.len() - i,
        {
            assert(old_cons[i as int].within(n as nat));
            self.constraints[i].renumber(mapping);
            i += 1;
        }
        let ghost new_cons = self.constraints@;
        let mut id2c: Vec<Vec<CID>> = Vec::new();
        let mut q: usize = 0;
        while q < n
            invariant
                q <= n,
                id2c@.len() == q,
                forall|j: int| 0 <= j < q ==> (#[trigger] id2c@[j])@.len() == 0,
            decreases n - q,
        {
            id2c.push(Vec::new());
            q += 1;
        }
        let mut id2p = names_new();
        let mut p: usize = 0;
        while p < n
            invariant
                p <= n,
                n == old(self).num_points(),
                old(self).wf(),
                is_bijection(mapping@, n as nat),
                self.id2c@.len() == n,
                self.id2p == old(self).id2p,
                self.draw == old(self).draw,
                self.constraints@ == new_cons,
                id2c@.len() == n,
                forall|j: int|
                    0 <= j < p ==> (#[trigger] id2c@[mapping@[j] as int])@ == old(self).adj(j),
                forall|x: int|
                    0 <= x < n && !hits(mapping@, p as int, x as usize) ==> (#[trigger] id2c@[x])@.len() == 0,
                forall|j: int| p <= j < n ==> (#[trigger] self.id2c@[j]) == old(self).id2c@[j],
                forall|x: usize|
                    bimap_pairs(id2p).contains_key(x) <==> hits(mapping@, p as int, x),
                forall|j: int|
                    0 <= j < p ==> bimap_pairs(id2p)[#[trigger] mapping@[j]] == old(self).names()[j as PointID],
            decreases n - p,
        {
            let m = mapping[p];
            proof {
                assert(!hits(mapping@, p as int, m)) by {
                    if hits(mapping@, p as int, m) {
                        let j = choose|j: int| 0 <= j < p && #[trigger] mapping@[j] == m;
                    }
                }
                assert forall|x: usize| bimap_pairs(id2p).contains_key(x) implies bimap_pairs(id2p)[x]
                    != old(self).names()[p] by {
                    let j = choose|j: int| 0 <= j < p && #[trigger] mapping@[j] == x;
                    assert(old(self).names().contains_key(j as PointID));
                    assert(old(self).names().contains_key(p));
                }
            }
            let name = match names_get(&self.id2p, p) {
                Some(s) => s.clone(),
                None => {
                    proof {
                        assert(old(self).names().contains_key(p));
                    }
                    unreached()
                },
            };
            names_insert(&mut id2p, m, name);
            std::mem::swap(&mut id2c[m], &mut self.id2c[p]);
            proof {
                assert forall|x: usize| hits(mapping@, p + 1, x) <==> (hits(mapping@, p as int, x)
                    || x == m) by {
                    if hits(mapping@, p + 1, x) {
                        let j = choose|j: int| 0 <= j < p + 1 && #[trigger] mapping@[j] == x;
                        if j < p {
                            assert(hits(mapping@, p as int, x));
                        }
                    }
                    if hits(mapping@, p as int, x) {
                        let j = choose|j: int| 0 <= j < p && #[trigger] mapping@[j] == x;
                        assert(hits(mapping@, p + 1, x));
                    }
                    if x == m {
                        assert(mapping@[p as int] == x);
                    }
                }
                assert forall|j: int| 0 <= j < p + 1 implies bimap_pairs(id2p)[#[trigger] mapping@[j]]
                    == old(self).names()[j as PointID] by {
                    if j < p {
                        assert(mapping@[j] != m);
                    }
                }
                assert forall|j: int| 0 <= j < p + 1 implies (#[trigger] id2c@[mapping@[j] as int])@
                    == old(self).adj(j) by {
                    if j < p {
                        assert(mapping@[j] != m);
                    }
                }
            }
            p += 1;
        }
        self.id2c = id2c;
        self.id2p = id2p;
        proof {
            assert forall|x: PointID| #[trigger] self.names().contains_key(x) <==> x < self.num_points() by {
                if x < n {
                    assert(hits(mapping@, n as int, x));
                }
                if hits(mapping@, n as int, x) {
                    let j = choose|j: int| 0 <= j < n && #[trigger] mapping@[j] == x;
                }
            }
            assert forall|x: PointID, y: PointID|
                #![trigger self.names()[x], self.names()[y]]
                self.names().contains_key(x) && self.names().contains_key(y) && self.names()[x]
                    == self.names()[y] implies x == y by {
                let j = choose|j: int| 0 <= j < n && #[trigger] mapping@[j] == x;
                let l = choose|l: int| 0 <= l < n && #[trigger] mapping@[l] == y;
                assert(old(self).names().contains_key(j as PointID));
                assert(old(self).names().contains_key(l as PointID));
                assert(old(self).names()[j as PointID] == old(self).names()[l as PointID]);
            }
            assert forall|c: int| 0 <= c < self.cons().len() implies self.cons()[c].within(
                self.num_points(),
            ) by {
                assert(old_cons[c].within(n as nat));
            }
            assert forall|x: int, k: int, l: int|
                0 <= x < self.num_points() && 0 <= k < l < self.adj(x).len() implies self.adj(x)[k]
                    < self.adj(x)[l] by {
                assert(hits(mapping@, n as int, x as usize));
                let j = choose|j: int| 0 <= j < n && #[trigger] mapping@[j] == x as usize;
                assert(self.adj(x) == old(self).adj(j));
            }
            assert forall|x: int, k: int|
                0 <= x < self.num_points() && 0 <= k < self.adj(x).len() implies self.adj(x)[k]
                    < self.cons().len() by {
                assert(hits(mapping@, n as int, x as usize));
                let j = choose|j: int| 0 <= j < n && #[trigger] mapping@[j] == x as usize;
                assert(self.adj(x) == old(self).adj(j));
            }
            assert forall|x: int, c: int|
                0 <= x < self.num_points() && 0 <= c < self.cons().len() implies (self.adj(x).contains(
                    c as CID,
                ) <==> self.cons()[c].references(x as PointID)) by {
                assert(hits(mapping@, n as int, x as usize));
                let j = choose|j: int| 0 <= j < n && #[trigger] mapping@[j] == x as usize;
                assert(self.adj(x) == old(self).adj(j));
                assert(old(self).adj(j).contains(c as CID) <==> old(self).cons()[c].references(j as PointID));
                assert(old_cons[c].within(n as nat));
                assert(self.cons()[c].relation == old_cons[c].relation.renumbered(mapping@));
            }
        }
    }
}

} // verus!
