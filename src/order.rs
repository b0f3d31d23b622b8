//! The scheduler: seeds, rigid clusters grown from them, the forest of
//! clusters, and the global solve order that renumbers the index.

use vstd::prelude::*;
use crate::constraint::{Constraint, PointID, CID};
use crate::index::{is_bijection, hits, PointIndex};

verus! {

/// Number of discretizing constraints among the ids `s`.
pub open spec fn disc_count(cons: Seq<Constraint>, s: Seq<CID>) -> nat
    decreases s.len(),
{
    if s.len() == 0 {
        0
    } else {
        disc_count(cons, s.drop_last()) + if cons[s.last() as int].discretizing {
            1nat
        } else {
            0nat
        }
    }
}

/// The known-predicate in which only `p` is known among `0..n`.
pub open spec fn only(p: PointID, n: nat) -> Seq<bool> {
    Seq::new(n, |i: int| i == p)
}

/// Some constraint on `p` determines `t` from `p` alone.
pub open spec fn reaches(index: PointIndex, p: PointID, t: PointID) -> bool {
    exists|c: int|
        0 <= c < index.cons().len() && #[trigger] index.cons()[c].targets_spec(
            only(p, index.num_points()),
        ).contains(t)
}

/// A grown cluster: its points in discovery order, each with the ordered ids
/// of the constraints that support it, and every point it touched.
pub struct Tree {
    pub order: Vec<(PointID, Vec<CID>)>,
    pub touched: Vec<bool>,
}

/// What the tree expander guarantees of a tree grown from `(root, orbiter)`.
pub open spec fn tree_ok(index: PointIndex, root: PointID, orbiter: PointID, t: Tree) -> bool {
    let n = index.num_points();
    let cons = index.cons();
    &&& t.order@.len() >= 2
    &&& t.order@[0].0 == root
    &&& t.order@[1].0 == orbiter
    &&& t.touched@.len() == n
    &&& forall|k: int, l: int|
        0 <= k < l < t.order@.len() ==> t.order@[k].0 != t.order@[l].0
    &&& forall|k: int| 0 <= k < t.order@.len() ==> (#[trigger] t.order@[k]).0 < n
    &&& forall|k: int| 0 <= k < t.order@.len() ==> t.touched@[(#[trigger] t.order@[k]).0 as int]
    &&& forall|k: int| 0 <= k < t.order@.len() ==> (#[trigger] t.order@[k]).1@.no_duplicates()
    &&& forall|k: int, j: int|
        0 <= k < t.order@.len() && 0 <= j < t.order@[k].1@.len() ==> #[trigger] t.order@[k].1@[j]
            < cons.len()
    &&& forall|k: int| 2 <= k < t.order@.len() ==> disc_count(cons, (#[trigger] t.order@[k]).1@) >= 2
    &&& forall|k: int, j: int|
        0 <= k < t.order@.len() && 0 <= j < t.order@[k].1@.len() ==> cons[#[trigger] t.order@[k].1@[j] as int].references(
            t.order@[k].0,
        )
}

proof fn lemma_disc_count_push(cons: Seq<Constraint>, s: Seq<CID>, c: CID)
    ensures
        disc_count(cons, s.push(c)) == disc_count(cons, s) + if cons[c as int].discretizing {
            1nat
        } else {
            0nat
        },
{
    assert(s.push(c).drop_last() =~= s);
}

/// A duplicate-free sequence of values below `n` is no longer than `n`.
proof fn lemma_distinct_bounded(s: Seq<usize>, n: nat)
    requires
        s.no_duplicates(),
        forall|i: int| 0 <= i < s.len() ==> s[i] < n,
    ensures
        s.len() <= n,
{
    let si = s.map_values(|x: usize| x as int);
    assert forall|i: int, j: int| 0 <= i < si.len() && 0 <= j < si.len() && i != j implies si[i]
        != si[j] by {
        assert(s[i] != s[j]);
    }
    si.unique_seq_to_set();
    vstd::set_lib::lemma_int_range(0, n as int);
    assert forall|x: int| si.to_set().contains(x) implies vstd::set_lib::set_int_range(
        0,
        n as int,
    ).contains(x) by {
        let i = choose|i: int| 0 <= i < si.len() && si[i] == x;
    }
    vstd::set_lib::lemma_len_subset(si.to_set(), vstd::set_lib::set_int_range(0, n as int));
}

/// Whether `v` holds `x`.
fn holds(v: &Vec<usize>, x: usize) -> (r: bool)
    ensures
        r == v@.contains(x),
{
    let mut i: usize = 0;
    while i < v.len()
        invariant
            i <= v@.len(),
            forall|j: int| 0 <= j < i ==> v@[j] != x,
        decreases v.len() - i,
    {
        if v[i] == x {
            return true;
        }
        i += 1;
    }
    false
}

/// Number of discretizing constraints among the ids in `s`.
fn count_discretizing(index: &PointIndex, s: &Vec<CID>) -> (r: usize)
    requires
        index.wf(),
        forall|j: int| 0 <= j < s@.len() ==> s@[j] < index.cons().len(),
    ensures
        r == disc_count(index.cons(), s@),
{
    let mut r: usize = 0;
    let mut i: usize = 0;
    while i < s.len()
        invariant
            index.wf(),
            i <= s@.len(),
            forall|j: int| 0 <= j < s@.len() ==> s@[j] < index.cons().len(),
            r == disc_count(index.cons(), s@.subrange(0, i as int)),
            r <= i,
        decreases s.len() - i,
    {
        proof {
            lemma_disc_count_push(index.cons(), s@.subrange(0, i as int), s@[i as int]);
            assert(s@.subrange(0, i as int).push(s@[i as int]) =~= s@.subrange(0, i + 1));
        }
        if index.get_constraint(s[i]).is_discretizing() {
            r += 1;
        }
        i += 1;
    }
    proof {
        assert(s@.subrange(0, s@.len() as int) =~= s@);
    }
    r
}

/// The state of one expansion, over points `0..n`: the queue starts with
/// the seed and holds each point once; support lists hold each constraint
/// once; a point beyond the seed is queued only with two discretizing
/// supports, and every point with two discretizing supports is queued.
pub open spec fn expansion_ok(
    index: PointIndex,
    root: PointID,
    orbiter: PointID,
    known: Seq<bool>,
    queued: Seq<bool>,
    support: Seq<Vec<CID>>,
    order: Seq<PointID>,
) -> bool {
    let n = index.num_points();
    let cons = index.cons();
    &&& known.len() == n
    &&& queued.len() == n
    &&& support.len() == n
    &&& order.len() >= 2
    &&& order[0] == root
    &&& order[1] == orbiter
    &&& order.no_duplicates()
    &&& forall|k: int| 0 <= k < order.len() ==> #[trigger] order[k] < n
    &&& forall|x: int| 0 <= x < n ==> (#[trigger] queued[x] <==> order.contains(x as PointID))
    &&& forall|x: int| 0 <= x < n && #[trigger] known[x] ==> queued[x]
    &&& forall|x: int| 0 <= x < n ==> (#[trigger] support[x])@.no_duplicates()
    &&& forall|x: int, j: int|
        0 <= x < n && 0 <= j < support[x]@.len() ==> #[trigger] support[x]@[j] < cons.len()
    &&& forall|k: int| 2 <= k < order.len() ==> disc_count(cons, support[#[trigger] order[k] as int]@) >= 2
    &&& forall|x: int| 0 <= x < n && disc_count(cons, (#[trigger] support[x])@) >= 2 ==> queued[x]
    &&& forall|x: int, j: int|
        0 <= x < n && 0 <= j < support[x]@.len() ==> cons[#[trigger] support[x]@[j] as int].references(
            x as PointID,
        )
}

/// The support lists as sequences of constraint ids.
pub open spec fn lists(s: Seq<Vec<CID>>) -> Seq<Seq<CID>> {
    s.map_values(|v: Vec<CID>| v@)
}

/// Constraint `cid` offered to target `t`: the id is recorded once in `t`'s
/// support list, and `t` is queued (marked and appended to the order) when
/// its second discretizing id arrives and it is not queued yet.
pub open spec fn visit(
    cons: Seq<Constraint>,
    st: (Seq<bool>, Seq<Seq<CID>>, Seq<PointID>),
    cid: CID,
    t: PointID,
) -> (Seq<bool>, Seq<Seq<CID>>, Seq<PointID>) {
    let (queued, support, order) = st;
    if support[t as int].contains(cid) {
        st
    } else {
        let s2 = support[t as int].push(cid);
        let sup = support.update(t as int, s2);
        if cons[cid as int].discretizing && disc_count(cons, s2) == 2 && !queued[t as int] {
            (queued.update(t as int, true), sup, order.push(t))
        } else {
            (queued, sup, order)
        }
    }
}

/// `visit` for each of the targets `ts` in turn.
pub open spec fn visit_all(
    cons: Seq<Constraint>,
    st: (Seq<bool>, Seq<Seq<CID>>, Seq<PointID>),
    cid: CID,
    ts: Seq<PointID>,
) -> (Seq<bool>, Seq<Seq<CID>>, Seq<PointID>)
    decreases ts.len(),
{
    if ts.len() == 0 {
        st
    } else {
        visit(cons, visit_all(cons, st, cid, ts.drop_last()), cid, ts.last())
    }
}

/// One expansion step: each constraint of `cids`, in order, offered to each
/// of its targets under `known`.
pub open spec fn expand_step(
    cons: Seq<Constraint>,
    known: Seq<bool>,
    st: (Seq<bool>, Seq<Seq<CID>>, Seq<PointID>),
    cids: Seq<CID>,
) -> (Seq<bool>, Seq<Seq<CID>>, Seq<PointID>)
    decreases cids.len(),
{
    if cids.len() == 0 {
        st
    } else {
        let c = cids.last();
        visit_all(cons, expand_step(cons, known, st, cids.drop_last()), c, cons[c as int].targets_spec(known))
    }
}

/// Every target of a constraint within `0..n` is below `n`.
proof fn lemma_targets_within(c: Constraint, known: Seq<bool>, n: nat)
    requires
        c.within(n),
        known.len() == n,
    ensures
        forall|j: int| 0 <= j < c.targets_spec(known).len() ==> c.targets_spec(known)[j] < n,
        forall|j: int| 0 <= j < c.targets_spec(known).len() ==> c.references(c.targets_spec(known)[j]),
{
}

/// Processes the known point `q`: every constraint on `q` is asked for its
/// targets under `known`; each target records the constraint once, and a
/// target is queued when its second discretizing constraint arrives.
fn expand_tree(
    index: &PointIndex,
    known: &Vec<bool>,
    q: PointID,
    root: Ghost<PointID>,
    orbiter: Ghost<PointID>,
    queued: &mut Vec<bool>,
    support: &mut Vec<Vec<CID>>,
    order: &mut Vec<PointID>,
)
    requires
        index.wf(),
        q < index.num_points(),
        expansion_ok(*index, root@, orbiter@, known@, old(queued)@, old(support)@, old(order)@),
    ensures
        expansion_ok(*index, root@, orbiter@, known@, final(queued)@, final(support)@, final(order)@),
        (final(queued)@, lists(final(support)@), final(order)@) == expand_step(
            index.cons(),
            known@,
            (old(queued)@, lists(old(support)@), old(order)@),
            index.adj(q as int),
        ),
{
    let npts = index.point_count();
    let ghost n = index.num_points();
    assert(n == npts);
    let cids = index.get_cids(q);
    let mut i: usize = 0;
    assert(cids@.subrange(0, 0) =~= Seq::<CID>::empty());
    while i < cids.len()
        invariant
            index.wf(),
            n == index.num_points(),
            n <= usize::MAX,
            forall|k: int| 0 <= k < cids@.len() ==> cids@[k] < index.cons().len(),
            expansion_ok(*index, root@, orbiter@, known@, queued@, support@, order@),
            cids@ == index.adj(q as int),
            i <= cids@.len(),
            (queued@, lists(support@), order@) == expand_step(
                index.cons(),
                known@,
                (old(queued)@, lists(old(support)@), old(order)@),
                cids@.subrange(0, i as int),
            ),
        decreases cids.len() - i,
    {
        let cid = cids[i];
        let c = index.get_constraint(cid);
        let ts = c.targets(known);
        let ghost st_i = (queued@, lists(support@), order@);
        proof {
            lemma_targets_within(*c, known@, n);
            assert(ts@.subrange(0, 0) =~= Seq::<PointID>::empty());
        }
        let mut j: usize = 0;
        while j < ts.len()
            invariant
                index.wf(),
                n == index.num_points(),
                n <= usize::MAX,
                cid < index.cons().len(),
                *c == index.cons()[cid as int],
                forall|k: int| 0 <= k < ts@.len() ==> ts@[k] < n,
                forall|k: int| 0 <= k < ts@.len() ==> index.cons()[cid as int].references(#[trigger] ts@[k]),
                expansion_ok(*index, root@, orbiter@, known@, queued@, support@, order@),
                j <= ts@.len(),
                (queued@, lists(support@), order@) == visit_all(index.cons(), st_i, cid, ts@.subrange(0, j as int)),
            decreases ts.len() - j,
        {
            let t = ts[j];
            let ghost st_j = (queued@, lists(support@), order@);
            proof {
                assert(ts@.subrange(0, j + 1).drop_last() =~= ts@.subrange(0, j as int));
                assert(lists(support@)[t as int] == support@[t as int]@);
            }
            if !holds(&support[t], cid) {
                let ghost prev = support@;
                let ghost before = support@[t as int]@;
                support[t].push(cid);
                proof {
                    assert(lists(support@) =~= lists(prev).update(t as int, before.push(cid)));
                    assert(index.cons()[cid as int].references(t)) by {
                        assert(ts@[j as int] == t);
                    }
                    assert forall|x: int, l: int|
                        0 <= x < n && 0 <= l < support@[x]@.len() implies index.cons()[#[trigger] support@[x]@[l] as int].references(
                            x as PointID,
                        ) by {
                        if x != t as int {
                            assert(support@[x] == prev[x]);
                        } else if l < before.len() {
                            assert(support@[x]@[l] == before[l]);
                        }
                    }
                    lemma_disc_count_push(index.cons(), before, cid);
                    assert forall|x: int| 0 <= x < n && x != t implies support@[x] == prev[x] by {}
                    assert(support@[t as int]@.no_duplicates()) by {
                        assert forall|a: int, b: int|
                            0 <= a < b < support@[t as int]@.len() implies support@[t as int]@[a]
                            != support@[t as int]@[b] by {
                            if b == before.len() {
                                assert(before[a] == support@[t as int]@[a]);
                            }
                        }
                    }
                }
                if c.is_discretizing() {
                    let cnt = count_discretizing(index, &support[t]);
                    if cnt == 2 && !queued[t] {
                        let ghost oq = order@;
                        queued[t] = true;
                        order.push(t);
                        proof {
                            assert forall|x: int| 0 <= x < n implies (queued@[x] <==> order@.contains(
                                x as PointID,
                            )) by {
                                if order@.contains(x as PointID) && x != t {
                                    let k = choose|k: int| 0 <= k < order@.len() && order@[k] == x as PointID;
                                    assert(order@[oq.len() as int] == t);
                                    assert(k != oq.len());
                                    assert(oq[k] == x);
                                }
                                if oq.contains(x as PointID) {
                                    let k = choose|k: int| 0 <= k < oq.len() && oq[k] == x as PointID;
                                    assert(order@[k] == x);
                                }
                                if x == t {
                                    assert(order@[order@.len() - 1] == t);
                                }
                            }
                            assert(order@.no_duplicates()) by {
                                assert(!oq.contains(t));
                                assert forall|a: int, b: int|
                                    0 <= a < b < order@.len() implies order@[a] != order@[b] by {
                                    if b == oq.len() {
                                        assert(oq[a] == order@[a]);
                                    }
                                }
                            }
                        }
                    }
                }
            }
            j += 1;
        }
        proof {
            assert(ts@.subrange(0, ts@.len() as int) =~= ts@);
            assert(cids@.subrange(0, i + 1).drop_last() =~= cids@.subrange(0, i as int));
        }
        i += 1;
    }
    proof {
        assert(cids@.subrange(0, cids@.len() as int) =~= cids@);
    }
}

/// The expansion state from a seed: the seed queued, no supports.
pub open spec fn seed_state(n: nat, root: PointID, orbiter: PointID) -> (Seq<bool>, Seq<Seq<CID>>, Seq<PointID>) {
    (Seq::new(n, |x: int| x == root || x == orbiter), Seq::new(n, |x: int| Seq::<CID>::empty()), seq![root, orbiter])
}

/// The breadth-first expansion from position `i` of the queue on: each
/// queued point in turn is marked known and expanded.
pub open spec fn grow(
    index: PointIndex,
    known: Seq<bool>,
    st: (Seq<bool>, Seq<Seq<CID>>, Seq<PointID>),
    i: nat,
) -> (Seq<bool>, Seq<Seq<CID>>, Seq<PointID>)
    decreases index.num_points() - i,
{
    if i < st.2.len() && i < index.num_points() {
        let q = st.2[i as int];
        let k2 = known.update(q as int, true);
        grow(index, k2, expand_step(index.cons(), k2, st, index.adj(q as int)), i + 1)
    } else {
        st
    }
}

/// The whole expansion of the seed `(root, orbiter)`.
pub open spec fn grown(index: PointIndex, root: PointID, orbiter: PointID) -> (Seq<bool>, Seq<Seq<CID>>, Seq<PointID>) {
    grow(
        index,
        Seq::new(index.num_points(), |x: int| false),
        seed_state(index.num_points(), root, orbiter),
        0,
    )
}

/// `t` is exactly the expansion of `(root, orbiter)`: its order is the
/// queue, each point with its final support list, and it touches exactly
/// the queued points and the points with some support.
pub open spec fn tree_is_grown(index: PointIndex, root: PointID, orbiter: PointID, t: Tree) -> bool {
    let g = grown(index, root, orbiter);
    &&& t.order@.len() == g.2.len()
    &&& forall|k: int| 0 <= k < t.order@.len() ==> (#[trigger] t.order@[k]).0 == g.2[k] && t.order@[k].1@ == g.1[g.2[k] as int]
    &&& t.touched@.len() == index.num_points()
    &&& forall|x: int| 0 <= x < index.num_points() ==> #[trigger] t.touched@[x] == (g.0[x] || g.1[x].len() > 0)
}

/// Grows the maximal cluster determinable from the seed `(root, orbiter)`:
/// points are processed first in, first out, each marked known before its
/// constraints are asked for targets.
pub fn compute_tree(root: PointID, orbiter: PointID, index: &PointIndex) -> (t: Tree)
    requires
        index.wf(),
        root < index.num_points(),
        orbiter < index.num_points(),
        root != orbiter,
    ensures
        tree_ok(*index, root, orbiter, t),
        tree_is_grown(*index, root, orbiter, t),
        forall|x: int|
            0 <= x < index.num_points() && disc_count(index.cons(), #[trigger] grown(*index, root, orbiter).1[x])
                >= 2 ==> grown(*index, root, orbiter).2.contains(x as PointID),
{
    let n = index.point_count();
    let mut known: Vec<bool> = Vec::new();
    let mut queued: Vec<bool> = Vec::new();
    let mut support: Vec<Vec<CID>> = Vec::new();
    let mut x: usize = 0;
    while x < n
        invariant
            x <= n,
            known@.len() == x,
            queued@.len() == x,
            support@.len() == x,
            forall|y: int| 0 <= y < x ==> !(#[trigger] known@[y]),
            forall|y: int| 0 <= y < x ==> !(#[trigger] queued@[y]),
            forall|y: int| 0 <= y < x ==> (#[trigger] support@[y])@.len() == 0,
        decreases n - x,
    {
        known.push(false);
        queued.push(false);
        support.push(Vec::new());
        x += 1;
    }
    queued[root] = true;
    queued[orbiter] = true;
    let mut order: Vec<PointID> = Vec::new();
    order.push(root);
    order.push(orbiter);
    proof {
        assert(order@ =~= seq![root, orbiter]);
        assert forall|y: int| 0 <= y < n implies (queued@[y] <==> order@.contains(y as PointID)) by {
            if y == root {
                assert(order@[0] == root);
            }
            if y == orbiter {
                assert(order@[1] == orbiter);
            }
        }
        assert forall|y: int| 0 <= y < n implies (#[trigger] support@[y])@.no_duplicates() by {}
        assert forall|y: int| 0 <= y < n implies (#[trigger] support@[y])@ =~= Seq::<CID>::empty() by {}
        assert(lists(support@) =~= seed_state(n as nat, root, orbiter).1);
        assert(queued@ =~= seed_state(n as nat, root, orbiter).0);
        assert(known@ =~= Seq::new(n as nat, |x: int| false));
    }
    let ghost g = grown(*index, root, orbiter);
    let mut i: usize = 0;
    while i < order.len()
        invariant
            index.wf(),
            n == index.num_points(),
            expansion_ok(*index, root, orbiter, known@, queued@, support@, order@),
            order@.len() <= n,
            g == grow(*index, known@, (queued@, lists(support@), order@), i as nat),
        decreases n - i,
    {
        let q = order[i];
        proof {
            assert(order@.contains(q));
        }
        known[q] = true;
        expand_tree(index, &known, q, Ghost(root), Ghost(orbiter), &mut queued, &mut support, &mut order);
        proof {
            lemma_distinct_bounded(order@, n as nat);
        }
        i += 1;
    }
    assert(g == (queued@, lists(support@), order@));
    assert forall|x: int| 0 <= x < n && disc_count(index.cons(), #[trigger] g.1[x]) >= 2 implies g.2.contains(
        x as PointID,
    ) by {
        assert(lists(support@)[x] == support@[x]@);
    }
    let mut touched: Vec<bool> = Vec::new();
    let mut y: usize = 0;
    while y < n
        invariant
            y <= n,
            queued@.len() == n,
            support@.len() == n,
            touched@.len() == y,
            forall|z: int| 0 <= z < y ==> #[trigger] touched@[z] == (queued@[z] || support@[z]@.len() > 0),
            g == (queued@, lists(support@), order@),
        decreases n - y,
    {
        touched.push(queued[y] || support[y].len() > 0);
        y += 1;
    }
    let ghost full = support@;
    assert forall|x: int| 0 <= x < n implies #[trigger] full[x]@ == g.1[x] by {
        assert(lists(support@)[x] == support@[x]@);
    }
    let mut entries: Vec<(PointID, Vec<CID>)> = Vec::new();
    let mut k: usize = 0;
    while k < order.len()
        invariant
            k <= order@.len(),
            n == index.num_points(),
            expansion_ok(*index, root, orbiter, known@, queued@, full, order@),
            support@.len() == n,
            forall|l: int| k <= l < order@.len() ==> support@[#[trigger] order@[l] as int] == full[order@[l] as int],
            entries@.len() == k,
            g.2 == order@,
            queued@.len() == n,
            forall|x: int| 0 <= x < n ==> #[trigger] full[x]@ == g.1[x],
            forall|z: int| 0 <= z < n ==> #[trigger] touched@[z] == (g.0[z] || g.1[z].len() > 0),
            forall|l: int|
                0 <= l < k ==> (#[trigger] entries@[l]).0 == order@[l] && entries@[l].1 == full[order@[l] as int],
        decreases order.len() - k,
    {
        let p = order[k];
        let mut s: Vec<CID> = Vec::new();
        std::mem::swap(&mut s, &mut support[p]);
        entries.push((p, s));
        proof {
            assert forall|l: int| k + 1 <= l < order@.len() implies support@[#[trigger] order@[l] as int]
                == full[order@[l] as int] by {
                assert(order@[l] != order@[k as int]);
            }
        }
        k += 1;
    }
    let t = Tree { order: entries, touched };
    proof {
        assert forall|a: int| 0 <= a < t.order@.len() implies t.touched@[(#[trigger] t.order@[a]).0 as int] by {
            assert(order@.contains(order@[a]));
        }
    }
    t
}

/// A constraint can only determine points from `p` alone if it references `p`.
proof fn lemma_targets_need_known(c: Constraint, p: PointID, n: nat)
    requires
        c.within(n),
    ensures
        c.targets_spec(only(p, n)).len() > 0 ==> c.references(p),
{
}

/// The points determined from `p` alone, each once: `t` is in the result
/// exactly when `reaches(index, p, t)`. `known` is a scratch buffer, all
/// false before and after.
fn targets_from(index: &PointIndex, known: &mut Vec<bool>, p: PointID) -> (r: Vec<PointID>)
    requires
        index.wf(),
        p < index.num_points(),
        old(known)@ == Seq::new(index.num_points(), |i: int| false),
    ensures
        final(known)@ == old(known)@,
        r@.no_duplicates(),
        forall|t: PointID| #[trigger] r@.contains(t) <==> reaches(*index, p, t),
        forall|k: int| 0 <= k < r@.len() ==> r@[k] < index.num_points(),
{
    let ghost n = index.num_points();
    let ncons = index.constraints().len();
    let ghost all_false = known@;
    known[p] = true;
    assert(known@ =~= only(p, n));
    let cids = index.get_cids(p);
    let mut r: Vec<PointID> = Vec::new();
    let mut i: usize = 0;
    while i < cids.len()
        invariant
            index.wf(),
            n == index.num_points(),
            p < n,
            known@ == only(p, n),
            cids@ == index.adj(p as int),
            forall|k: int| 0 <= k < cids@.len() ==> cids@[k] < index.cons().len(),
            i <= cids@.len(),
            r@.no_duplicates(),
            forall|k: int| 0 <= k < r@.len() ==> r@[k] < n,
            forall|t: PointID|
                #[trigger] r@.contains(t) <==> exists|k: int|
                    0 <= k < i && #[trigger] index.cons()[cids@[k] as int].targets_spec(only(p, n)).contains(t),
        decreases cids.len() - i,
    {
        let c = index.get_constraint(cids[i]);
        let ts = c.targets(known);
        proof {
            lemma_targets_within(*c, known@, n);
        }
        let ghost r0 = r@;
        let mut j: usize = 0;
        while j < ts.len()
            invariant
                n == index.num_points(),
                forall|k: int| 0 <= k < ts@.len() ==> ts@[k] < n,
                j <= ts@.len(),
                r@.no_duplicates(),
                forall|k: int| 0 <= k < r@.len() ==> r@[k] < n,
                forall|t: PointID| #[trigger] r@.contains(t) <==> (r0.contains(t) || ts@.subrange(0, j as int).contains(t)),
            decreases ts.len() - j,
        {
            let t = ts[j];
            let ghost rb = r@;
            if !holds(&r, t) {
                r.push(t);
                proof {
                    assert forall|a: int, b: int| 0 <= a < b < r@.len() implies r@[a] != r@[b] by {
                        if b == rb.len() {
                            assert(rb[a] == r@[a]);
                        }
                    }
                }
            }
            proof {
                assert forall|x: PointID| #[trigger] r@.contains(x) <==> (r0.contains(x) || ts@.subrange(0, j + 1).contains(x)) by {
                    if r@.contains(x) && !rb.contains(x) {
                        assert(x == t);
                        assert(ts@.subrange(0, j + 1)[j as int] == t);
                    }
                    if rb.contains(x) {
                        let a = choose|a: int| 0 <= a < rb.len() && #[trigger] rb[a] == x;
                        assert(r@[a] == x);
                    }
                    if ts@.subrange(0, j + 1).contains(x) {
                        let a = choose|a: int| 0 <= a < j + 1 && #[trigger] ts@.subrange(0, j + 1)[a] == x;
                        if a < j {
                            assert(ts@.subrange(0, j as int)[a] == x);
                        } else if !rb.contains(x) {
                            assert(r@[r@.len() - 1] == x);
                        }
                    }
                    if ts@.subrange(0, j as int).contains(x) {
                        let a = choose|a: int| 0 <= a < j && #[trigger] ts@.subrange(0, j as int)[a] == x;
                        assert(ts@.subrange(0, j + 1)[a] == x);
                    }
                }
            }
            j += 1;
        }
        proof {
            assert(ts@.subrange(0, ts@.len() as int) =~= ts@);
            assert forall|t: PointID| #[trigger] r@.contains(t) <==> exists|k: int|
                0 <= k < i + 1 && #[trigger] index.cons()[cids@[k] as int].targets_spec(only(p, n)).contains(t) by {
                if exists|k: int| 0 <= k < i + 1 && #[trigger] index.cons()[cids@[k] as int].targets_spec(only(p, n)).contains(t) {
                    let k = choose|k: int| 0 <= k < i + 1 && #[trigger] index.cons()[cids@[k] as int].targets_spec(only(p, n)).contains(t);
                    if k < i {
                        assert(r0.contains(t));
                    }
                }
            }
        }
        i += 1;
    }
    proof {
        assert forall|t: PointID| #[trigger] r@.contains(t) <==> reaches(*index, p, t) by {
            if reaches(*index, p, t) {
                let c = choose|c: int|
                    0 <= c < index.cons().len() && #[trigger] index.cons()[c].targets_spec(only(p, n)).contains(t);
                assert(index.cons()[c].within(n));
                assert(index.cons()[c].targets_spec(only(p, n)).len() > 0);
                lemma_targets_need_known(index.cons()[c], p, n);
                assert(c < ncons);
                assert(index.adj(p as int).contains(c as CID) <==> index.cons()[c].references(p));
                let k = choose|k: int| 0 <= k < cids@.len() && #[trigger] cids@[k] == c as CID;
                assert(index.cons()[cids@[k] as int].targets_spec(only(p, n)).contains(t));
            }
            if r@.contains(t) {
                let k = choose|k: int|
                    0 <= k < cids@.len() && #[trigger] index.cons()[cids@[k] as int].targets_spec(only(p, n)).contains(t);
                assert(index.cons()[cids@[k] as int].targets_spec(only(p, n)).contains(t));
            }
        }
    }
    known[p] = false;
    assert(known@ =~= all_false);
    r
}

/// `(p, t)` is a seed: `t` is determined from `p` alone, and the pair was
/// not already claimed from `t`, the lower of the two.
pub open spec fn is_seed(index: PointIndex, p: PointID, t: PointID) -> bool {
    reaches(index, p, t) && !(t < p && reaches(index, t, p))
}

/// `r` lists seeds only, and every seed.
pub open spec fn seeds_listed(index: PointIndex, r: Seq<(PointID, PointID)>) -> bool {
    &&& forall|k: int|
        0 <= k < r.len() ==> (#[trigger] r[k]).0 < index.num_points() && r[k].1 < index.num_points()
            && r[k].0 != r[k].1 && is_seed(index, r[k].0, r[k].1)
    &&& forall|p: PointID, t: PointID|
        p < index.num_points() && t < index.num_points() && #[trigger] is_seed(index, p, t) ==> r.contains(
            (p, t),
        )
}

/// The seeds do not depend on how points are enumerated: two lists that
/// each hold the seeds of one index, and only them, hold the same pairs.
pub proof fn lemma_seeds_determined(
    index: PointIndex,
    r1: Seq<(PointID, PointID)>,
    r2: Seq<(PointID, PointID)>,
)
    requires
        seeds_listed(index, r1),
        seeds_listed(index, r2),
    ensures
        r1.to_set() == r2.to_set(),
{
    assert forall|x: (PointID, PointID)| r1.to_set().contains(x) implies r2.to_set().contains(x) by {
        let k = choose|k: int| 0 <= k < r1.len() && r1[k] == x;
        assert(is_seed(index, r1[k].0, r1[k].1));
    }
    assert forall|x: (PointID, PointID)| r2.to_set().contains(x) implies r1.to_set().contains(x) by {
        let k = choose|k: int| 0 <= k < r2.len() && r2[k] == x;
        assert(is_seed(index, r2[k].0, r2[k].1));
    }
    assert(r1.to_set() =~= r2.to_set());
}

/// A constraint never names a known point as a target.
proof fn lemma_targets_unknown(c: Constraint, known: Seq<bool>, n: nat)
    requires
        c.within(n),
        known.len() == n,
    ensures
        forall|j: int| 0 <= j < c.targets_spec(known).len() ==> !known[c.targets_spec(known)[j] as int],
{
}

/// The seeds from which clusters are grown: every pair `(p, t)` such that
/// `t` is determined from `p` alone, a symmetric pair kept only from its
/// lower point. Pairs come by ascending `p`.
pub fn root_pairs(index: &PointIndex) -> (r: Vec<(PointID, PointID)>)
    requires
        index.wf(),
    ensures
        seeds_listed(*index, r@),
        r@.no_duplicates(),
{
    let n = index.point_count();
    let mut known: Vec<bool> = Vec::new();
    let mut x: usize = 0;
    while x < n
        invariant
            x <= n,
            known@ =~= Seq::new(x as nat, |i: int| false),
        decreases n - x,
    {
        known.push(false);
        x += 1;
    }
    let mut r: Vec<(PointID, PointID)> = Vec::new();
    let mut p: usize = 0;
    while p < n
        invariant
            index.wf(),
            n == index.num_points(),
            p <= n,
            known@ == Seq::new(n as nat, |i: int| false),
            forall|k: int|
                0 <= k < r@.len() ==> (#[trigger] r@[k]).0 < n && r@[k].1 < n && r@[k].0 != r@[k].1
                    && is_seed(*index, r@[k].0, r@[k].1),
            forall|a: PointID, t: PointID|
                a < p && t < n && #[trigger] is_seed(*index, a, t) ==> r@.contains((a, t)),
            r@.no_duplicates(),
            forall|k: int| 0 <= k < r@.len() ==> (#[trigger] r@[k]).0 < p,
        decreases n - p,
    {
        let nb = targets_from(index, &mut known, p);
        let mut j: usize = 0;
        while j < nb.len()
            invariant
                index.wf(),
                n == index.num_points(),
                p < n,
                j <= nb@.len(),
                known@ == Seq::new(n as nat, |i: int| false),
                forall|t: PointID| #[trigger] nb@.contains(t) <==> reaches(*index, p, t),
                forall|k: int| 0 <= k < nb@.len() ==> nb@[k] < n,
                forall|k: int|
                    0 <= k < r@.len() ==> (#[trigger] r@[k]).0 < n && r@[k].1 < n && r@[k].0 != r@[k].1
                        && is_seed(*index, r@[k].0, r@[k].1),
                forall|a: PointID, t: PointID|
                    a < p && t < n && #[trigger] is_seed(*index, a, t) ==> r@.contains((a, t)),
                forall|l: int| 0 <= l < j && is_seed(*index, p, #[trigger] nb@[l]) ==> r@.contains((p, nb@[l])),
                r@.no_duplicates(),
                nb@.no_duplicates(),
                forall|k: int|
                    0 <= k < r@.len() ==> (#[trigger] r@[k]).0 < p || (r@[k].0 == p && exists|l: int|
                        0 <= l < j && nb@[l] == r@[k].1),
            decreases nb.len() - j,
        {
            let t = nb[j];
            assert(nb@.contains(t));
            let keep = if t < p {
                let back = targets_from(index, &mut known, t);
                !holds(&back, p)
            } else {
                true
            };
            let ghost r0 = r@;
            if keep {
                proof {
                    let c = choose|c: int|
                        0 <= c < index.cons().len() && #[trigger] index.cons()[c].targets_spec(only(p, n as nat)).contains(t);
                    assert(index.cons()[c].within(n as nat));
                    lemma_targets_unknown(index.cons()[c], only(p, n as nat), n as nat);
                    let a = choose|a: int| 0 <= a < index.cons()[c].targets_spec(only(p, n as nat)).len()
                        && index.cons()[c].targets_spec(only(p, n as nat))[a] == t;
                }
                r.push((p, t));
                proof {
                    assert forall|a: int, b: int| 0 <= a < b < r@.len() implies r@[a] != r@[b] by {
                        if b == r0.len() {
                            assert(r@[a] == r0[a]);
                            if r0[a].0 == p {
                                let l = choose|l: int| 0 <= l < j && nb@[l] == r0[a].1;
                                assert(nb@[l] != nb@[j as int]);
                            }
                        }
                    }
                }
            }
            proof {
                assert forall|k: int|
                    0 <= k < r@.len() implies (#[trigger] r@[k]).0 < p || (r@[k].0 == p && exists|l: int|
                        0 <= l < j + 1 && nb@[l] == r@[k].1) by {
                    if k < r0.len() {
                        assert(r@[k] == r0[k]);
                        if r0[k].0 == p {
                            let l = choose|l: int| 0 <= l < j && nb@[l] == r0[k].1;
                            assert(nb@[l] == r@[k].1);
                        }
                    } else {
                        assert(nb@[j as int] == r@[k].1);
                    }
                }
                assert forall|a: PointID, b: PointID|
                    a < p && b < n && #[trigger] is_seed(*index, a, b) implies r@.contains((a, b)) by {
                    assert(r0.contains((a, b)));
                    let k = choose|k: int| 0 <= k < r0.len() && r0[k] == (a, b);
                    assert(r@[k] == (a, b));
                }
                assert forall|l: int| 0 <= l < j + 1 && is_seed(*index, p, #[trigger] nb@[l]) implies r@.contains((p, nb@[l])) by {
                    if l < j {
                        assert(r0.contains((p, nb@[l])));
                        let k = choose|k: int| 0 <= k < r0.len() && r0[k] == (p, nb@[l]);
                        assert(r@[k] == (p, nb@[l]));
                    } else {
                        assert(r@[r@.len() - 1] == (p, t));
                    }
                }
            }
            j += 1;
        }
        proof {
            assert forall|a: PointID, t: PointID|
                a < p + 1 && t < n && #[trigger] is_seed(*index, a, t) implies r@.contains((a, t)) by {
                if a == p {
                    assert(nb@.contains(t));
                    let l = choose|l: int| 0 <= l < nb@.len() && nb@[l] == t;
                    assert(is_seed(*index, p, nb@[l]));
                }
            }
        }
        p += 1;
    }
    r
}

/// Every point marked in `a` is marked in `b`.
pub open spec fn marks_within(a: Seq<bool>, b: Seq<bool>) -> bool {
    forall|x: int| 0 <= x < a.len() && #[trigger] a[x] ==> b[x]
}

/// Some tree of `forest` touches both `a` and `b`.
pub open spec fn covered(forest: Seq<Tree>, a: PointID, b: PointID) -> bool {
    exists|k: int| 0 <= k < forest.len() && (#[trigger] forest[k]).touched@[a as int] && forest[k].touched@[b as int]
}

/// Each tree of `forest` was grown from a seed, and none touches only points
/// that another one touches too.
pub open spec fn forest_ok(index: PointIndex, forest: Seq<Tree>) -> bool {
    &&& forall|k: int|
        0 <= k < forest.len() ==> tree_ok(index, (#[trigger] forest[k]).order@[0].0, forest[k].order@[1].0, forest[k])
            && tree_is_grown(index, forest[k].order@[0].0, forest[k].order@[1].0, forest[k])
            && is_seed(index, forest[k].order@[0].0, forest[k].order@[1].0)
    &&& forall|k: int, l: int|
        0 <= k < forest.len() && 0 <= l < forest.len() && k != l ==> !marks_within(
            (#[trigger] forest[k]).touched@,
            (#[trigger] forest[l]).touched@,
        )
}

/// Tree `k` of `forest` was grown from the seed at position `pos[k]` of
/// `pairs`, and the trees keep the order of their seeds.
pub open spec fn grown_in_order(forest: Seq<Tree>, pairs: Seq<(PointID, PointID)>, pos: Seq<int>) -> bool {
    &&& pos.len() == forest.len()
    &&& forall|k: int|
        0 <= k < forest.len() ==> 0 <= #[trigger] pos[k] < pairs.len() && pairs[pos[k]] == (
            forest[k].order@[0].0,
            forest[k].order@[1].0,
        )
    &&& forall|a: int, b: int| 0 <= a < b < pos.len() ==> pos[a] < pos[b]
}

/// Whether every point marked in `a` is marked in `b`.
fn is_within(a: &Vec<bool>, b: &Vec<bool>) -> (r: bool)
    requires
        a@.len() == b@.len(),
    ensures
        r == marks_within(a@, b@),
{
    let mut x: usize = 0;
    while x < a.len()
        invariant
            a@.len() == b@.len(),
            x <= a@.len(),
            forall|y: int| 0 <= y < x && #[trigger] a@[y] ==> b@[y],
        decreases a.len() - x,
    {
        if a[x] && !b[x] {
            return false;
        }
        x += 1;
    }
    true
}

/// Grows a tree from every seed that no tree so far touches at both ends,
/// discarding the trees whose touched points the new one all touches.
/// Every seed ends up touched at both ends by one tree of the forest.
pub fn compute_forest(index: &PointIndex) -> (forest: Vec<Tree>)
    requires
        index.wf(),
    ensures
        forest_ok(*index, forest@),
        forall|p: PointID, t: PointID|
            p < index.num_points() && t < index.num_points() && #[trigger] is_seed(*index, p, t)
                ==> covered(forest@, p, t),
        exists|pairs: Seq<(PointID, PointID)>, pos: Seq<int>|
            seeds_listed(*index, pairs) && pairs.no_duplicates() && #[trigger] grown_in_order(
                forest@,
                pairs,
                pos,
            ),
{
    let ghost n = index.num_points();
    let pairs = root_pairs(index);
    let ghost mut pos: Seq<int> = Seq::empty();
    let mut forest: Vec<Tree> = Vec::new();
    let mut i: usize = 0;
    while i < pairs.len()
        invariant
            index.wf(),
            n == index.num_points(),
            i <= pairs@.len(),
            forall|k: int|
                0 <= k < pairs@.len() ==> (#[trigger] pairs@[k]).0 < n && pairs@[k].1 < n && pairs@[k].0
                    != pairs@[k].1 && is_seed(*index, pairs@[k].0, pairs@[k].1),
            forest_ok(*index, forest@),
            forall|l: int| 0 <= l < i ==> covered(forest@, (#[trigger] pairs@[l]).0, pairs@[l].1),
            grown_in_order(forest@, pairs@, pos),
            forall|k: int| 0 <= k < pos.len() ==> #[trigger] pos[k] < i,
        decreases pairs.len() - i,
    {
        let (root, orbiter) = pairs[i];
        let mut seen = false;
        let mut k: usize = 0;
        while k < forest.len()
            invariant
                k <= forest@.len(),
                n == index.num_points(),
                root < n && orbiter < n,
                forest_ok(*index, forest@),
                seen == covered(forest@.subrange(0, k as int), root, orbiter),
            decreases forest.len() - k,
        {
            proof {
                if covered(forest@.subrange(0, k as int), root, orbiter) {
                    let j = choose|j: int| 0 <= j < k && (#[trigger] forest@.subrange(0, k as int)[j]).touched@[root as int]
                        && forest@.subrange(0, k as int)[j].touched@[orbiter as int];
                    assert(forest@.subrange(0, k + 1)[j] == forest@[j]);
                }
                if covered(forest@.subrange(0, k + 1), root, orbiter) && !covered(forest@.subrange(0, k as int), root, orbiter) {
                    let j = choose|j: int| 0 <= j < k + 1 && (#[trigger] forest@.subrange(0, k + 1)[j]).touched@[root as int]
                        && forest@.subrange(0, k + 1)[j].touched@[orbiter as int];
                    if j < k {
                        assert(forest@.subrange(0, k as int)[j] == forest@[j]);
                    }
                }
            }
            let f = &forest[k];
            assert(tree_ok(*index, forest@[k as int].order@[0].0, forest@[k as int].order@[1].0, forest@[k as int]));
            if f.touched[root] && f.touched[orbiter] {
                seen = true;
                proof {
                    assert(forest@.subrange(0, k + 1)[k as int] == forest@[k as int]);
                }
            }
            k += 1;
        }
        assert(forest@.subrange(0, forest@.len() as int) =~= forest@);
        if !seen {
            let tree = compute_tree(root, orbiter, index);
            let ghost orig = forest@;
            let flen = forest.len();
            let mut kept: Vec<Tree> = Vec::new();
            let ghost mut src: Seq<int> = Seq::empty();
            let mut j: usize = 0;
            while forest.len() > 0
                invariant
                    n == index.num_points(),
                    forest_ok(*index, orig),
                    tree_ok(*index, root, orbiter, tree),
                    tree_is_grown(*index, root, orbiter, tree),
                    grown_in_order(orig, pairs@, pos),
                    forall|k: int| 0 <= k < pos.len() ==> #[trigger] pos[k] < i,
                    j <= orig.len(),
                    orig.len() == flen,
                    forest@ == orig.subrange(j as int, orig.len() as int),
                    src.len() == kept@.len(),
                    forall|a: int| 0 <= a < src.len() ==> 0 <= #[trigger] src[a] < j && kept@[a] == orig[src[a]],
                    forall|a: int, b: int| 0 <= a < b < src.len() ==> src[a] < src[b],
                    forall|a: int| 0 <= a < kept@.len() ==> !marks_within((#[trigger] kept@[a]).touched@, tree.touched@),
                    forall|c: int|
                        0 <= c < j ==> marks_within((#[trigger] orig[c]).touched@, tree.touched@)
                            || exists|a: int| 0 <= a < src.len() && src[a] == c,
                decreases forest.len(),
            {
                let f = forest.remove(0);
                let ghost src0 = src;
                assert(f == orig[j as int]);
                assert(tree_ok(*index, orig[j as int].order@[0].0, orig[j as int].order@[1].0, orig[j as int]));
                if !is_within(&f.touched, &tree.touched) {
                    kept.push(f);
                    proof {
                        src = src.push(j as int);
                        assert(src[src.len() - 1] == j);
                    }
                }
                proof {
                    assert(forest@ =~= orig.subrange(j + 1, orig.len() as int));
                    assert forall|c: int|
                        0 <= c < j + 1 implies marks_within((#[trigger] orig[c]).touched@, tree.touched@)
                            || exists|a: int| 0 <= a < src.len() && src[a] == c by {
                        if c < j && !marks_within(orig[c].touched@, tree.touched@) {
                            let a = choose|a: int| 0 <= a < src0.len() && src0[a] == c;
                            assert(src[a] == c);
                        }
                        if c == j && !marks_within(orig[c].touched@, tree.touched@) {
                            assert(src[src.len() - 1] == c);
                        }
                    }
                }
                j += 1;
            }
            let ghost kept_before = kept@;
            kept.push(tree);
            proof {
                assert forall|a: int| 0 <= a < kept@.len() implies tree_ok(*index, (#[trigger] kept@[a]).order@[0].0, kept@[a].order@[1].0, kept@[a])
                    && tree_is_grown(*index, kept@[a].order@[0].0, kept@[a].order@[1].0, kept@[a])
                    && is_seed(*index, kept@[a].order@[0].0, kept@[a].order@[1].0) by {
                    if a < src.len() {
                        assert(kept@[a] == orig[src[a]]);
                    } else {
                        assert(kept@[a] == tree);
                    }
                }
                assert forall|a: int, b: int|
                    0 <= a < kept@.len() && 0 <= b < kept@.len() && a != b implies !marks_within(
                        (#[trigger] kept@[a]).touched@,
                        (#[trigger] kept@[b]).touched@,
                    ) by {
                    if a < src.len() && b < src.len() {
                        assert(src[a] != src[b]) by {
                            if a < b {
                                assert(src[a] < src[b]);
                            } else {
                                assert(src[b] < src[a]);
                            }
                        }
                        assert(kept@[a] == orig[src[a]] && kept@[b] == orig[src[b]]);
                    } else if b == src.len() {
                        assert(kept@[b] == tree);
                        assert(kept@[a] == kept_before[a]);
                    } else {
                        assert(kept@[a] == tree);
                        assert(kept@[a].touched@[root as int]);
                        assert(kept@[a].touched@[orbiter as int]);
                        assert(kept@[b] == orig[src[b]]);
                        assert(!covered(orig, root, orbiter));
                        if marks_within(kept@[a].touched@, kept@[b].touched@) {
                            assert(orig[src[b]].touched@[root as int]);
                        }
                    }
                }
                assert forall|l: int| 0 <= l < i + 1 implies covered(kept@, (#[trigger] pairs@[l]).0, pairs@[l].1) by {
                    let (a, b) = pairs@[l];
                    if l == i {
                        assert(kept@[kept@.len() - 1] == tree);
                        assert(tree.order@[0].0 == root);
                        assert(tree.touched@[root as int] && tree.touched@[orbiter as int]);
                    } else {
                        let c = choose|c: int| 0 <= c < orig.len() && (#[trigger] orig[c]).touched@[a as int]
                            && orig[c].touched@[b as int];
                        assert(tree_ok(*index, orig[c].order@[0].0, orig[c].order@[1].0, orig[c]));
                        if marks_within(orig[c].touched@, tree.touched@) {
                            assert(kept@[kept@.len() - 1] == tree);
                        } else {
                            let e = choose|e: int| 0 <= e < src.len() && src[e] == c;
                            assert(kept@[e] == orig[c]);
                        }
                    }
                }
            }
            proof {
                let npos = Seq::new(src.len(), |a: int| pos[src[a]]).push(i as int);
                assert forall|k: int| 0 <= k < kept@.len() implies 0 <= #[trigger] npos[k] < pairs@.len()
                    && pairs@[npos[k]] == (kept@[k].order@[0].0, kept@[k].order@[1].0) by {
                    if k < src.len() {
                        assert(kept@[k] == orig[src[k]]);
                        assert(npos[k] == pos[src[k]]);
                    } else {
                        assert(kept@[k] == tree);
                    }
                }
                assert forall|a: int, b: int| 0 <= a < b < npos.len() implies npos[a] < npos[b] by {
                    assert(pos[src[a]] < i);
                    if b < src.len() {
                        assert(src[a] < src[b]);
                    }
                }
                assert(grown_in_order(kept@, pairs@, npos));
                pos = npos;
            }
            forest = kept;
        }
        i += 1;
    }
    proof {
        assert forall|p: PointID, t: PointID|
            p < n && t < n && #[trigger] is_seed(*index, p, t) implies covered(forest@, p, t) by {
            let l = choose|l: int| 0 <= l < pairs@.len() && pairs@[l] == (p, t);
            assert(covered(forest@, pairs@[l].0, pairs@[l].1));
        }
        assert(grown_in_order(forest@, pairs@, pos));
    }
    forest
}

/// Whether constraint `c` is discretizing.
pub open spec fn disc_pred(cons: Seq<Constraint>) -> spec_fn(CID) -> bool {
    |c: CID| cons[c as int].discretizing
}

/// Whether constraint `c` is not discretizing.
pub open spec fn other_pred(cons: Seq<Constraint>) -> spec_fn(CID) -> bool {
    |c: CID| !cons[c as int].discretizing
}

/// The discretizing ids of `s`, in order.
pub open spec fn disc_part(cons: Seq<Constraint>, s: Seq<CID>) -> Seq<CID> {
    s.filter(disc_pred(cons))
}

/// The non-discretizing ids of `s`, in order.
pub open spec fn other_part(cons: Seq<Constraint>, s: Seq<CID>) -> Seq<CID> {
    s.filter(other_pred(cons))
}

/// `s` stably partitioned: discretizing ids first, each part in its order.
pub open spec fn partitioned(cons: Seq<Constraint>, s: Seq<CID>) -> Seq<CID> {
    disc_part(cons, s) + other_part(cons, s)
}

/// The discretizing part holds discretizing ids only, the other part none.
pub proof fn lemma_parts(cons: Seq<Constraint>, s: Seq<CID>)
    ensures
        forall|j: int| 0 <= j < disc_part(cons, s).len() ==> cons[#[trigger] disc_part(cons, s)[j] as int].discretizing,
        forall|j: int| 0 <= j < other_part(cons, s).len() ==> !cons[#[trigger] other_part(cons, s)[j] as int].discretizing,
        disc_part(cons, s).len() + other_part(cons, s).len() == s.len(),
    decreases s.len(),
{
    broadcast use vstd::seq_lib::group_filter_ensures;

    if s.len() > 0 {
        lemma_parts(cons, s.drop_last());
        s.drop_last().lemma_filter_push(s.last(), disc_pred(cons));
        s.drop_last().lemma_filter_push(s.last(), other_pred(cons));
        assert(s.drop_last().push(s.last()) =~= s);
    }
}

/// Stably moves the non-discretizing ids of `s` behind the discretizing ones.
fn partition(index: &PointIndex, s: &Vec<CID>) -> (r: Vec<CID>)
    requires
        index.wf(),
        forall|j: int| 0 <= j < s@.len() ==> s@[j] < index.cons().len(),
    ensures
        r@ == partitioned(index.cons(), s@),
{
    let mut d: Vec<CID> = Vec::new();
    let mut o: Vec<CID> = Vec::new();
    let mut i: usize = 0;
    while i < s.len()
        invariant
            index.wf(),
            i <= s@.len(),
            forall|j: int| 0 <= j < s@.len() ==> s@[j] < index.cons().len(),
            d@ == disc_part(index.cons(), s@.subrange(0, i as int)),
            o@ == other_part(index.cons(), s@.subrange(0, i as int)),
        decreases s.len() - i,
    {
        proof {
            assert(s@.subrange(0, i as int).push(s@[i as int]) =~= s@.subrange(0, i + 1));
            s@.subrange(0, i as int).lemma_filter_push(s@[i as int], disc_pred(index.cons()));
            s@.subrange(0, i as int).lemma_filter_push(s@[i as int], other_pred(index.cons()));
        }
        if index.get_constraint(s[i]).is_discretizing() {
            d.push(s[i]);
        } else {
            o.push(s[i]);
        }
        i += 1;
    }
    assert(s@.subrange(0, s@.len() as int) =~= s@);
    d.append(&mut o);
    d
}

/// Two trees both claim to determine one point.
#[derive(Debug, PartialEq, Eq)]
pub enum ScheduleError {
    Conflict { point: PointID, first_tree: usize, second_tree: usize },
}

/// Some two entries before position `k` are for the same point.
pub open spec fn repeats(entries: Seq<(PointID, Vec<CID>)>, k: int) -> bool {
    exists|a: int, b: int| 0 <= a < b < k && entries[a].0 == entries[b].0
}

/// What committing the flattened entries `entries` (each from tree
/// `tree_of[k]`) does: a repeated point is reported with the trees of two
/// of its entries and leaves the index as it was; otherwise entry `k`'s
/// point gets the new id `k`, its support list comes back partitioned
/// discretizing first, and the whole index is renumbered by a bijection.
pub open spec fn scheduled(
    before: PointIndex,
    after: PointIndex,
    entries: Seq<(PointID, Vec<CID>)>,
    tree_of: Seq<usize>,
    r: Result<Vec<Vec<CID>>, ScheduleError>,
) -> bool {
    &&& r is Err <==> repeats(entries, entries.len() as int)
    &&& r matches Err(ScheduleError::Conflict { point, first_tree, second_tree }) ==> after
            == before && exists|a: int, b: int|
            0 <= a < b < entries.len() && entries[a].0 == point && entries[b].0 == point
                && tree_of[a] == first_tree && tree_of[b] == second_tree
    &&& r matches Ok(order) ==> {
            &&& order@.len() == entries.len()
            &&& forall|k: int|
                0 <= k < order@.len() ==> (#[trigger] order@[k])@ == partitioned(
                    before.cons(),
                    entries[k].1@,
                )
            &&& after.wf()
            &&& after.num_points() == before.num_points()
            &&& after.cons().len() == before.cons().len()
            &&& exists|m: Seq<usize>|
                {
                    &&& is_bijection(m, before.num_points())
                    &&& forall|k: int| 0 <= k < entries.len() ==> m[(#[trigger] entries[k]).0 as int] == k
                    &&& forall|c: int|
                        0 <= c < before.cons().len() ==> (#[trigger] after.cons()[c]).relation
                            == before.cons()[c].relation.renumbered(m)
                            && after.cons()[c].discretizing == before.cons()[c].discretizing
                    &&& forall|p: int|
                        0 <= p < before.num_points() ==> after.names()[#[trigger] m[p]]
                            == before.names()[p as PointID]
                }
        }
}

/// Commits the flattened forest as the solve order: entry `k`, whose point
/// gets the new id `k`, yields its support partitioned discretizing first.
/// Points outside the forest follow, ascending. A point met twice is a
/// conflict between the trees (`tree_of`) of its two entries; the index is
/// then left as it was. Otherwise the whole index is renumbered.
pub fn linearize(
    index: &mut PointIndex,
    entries: Vec<(PointID, Vec<CID>)>,
    tree_of: Vec<usize>,
) -> (r: Result<Vec<Vec<CID>>, ScheduleError>)
    requires
        old(index).wf(),
        tree_of@.len() == entries@.len(),
        forall|k: int| 0 <= k < entries@.len() ==> (#[trigger] entries@[k]).0 < old(index).num_points(),
        forall|k: int, j: int|
            0 <= k < entries@.len() && 0 <= j < entries@[k].1@.len() ==> #[trigger] entries@[k].1@[j]
                < old(index).cons().len(),
    ensures
        scheduled(*old(index), *final(index), entries@, tree_of@, r),
{
    let n = index.point_count();
    let mut assigned: Vec<bool> = Vec::new();
    let mut mapping: Vec<usize> = Vec::new();
    let mut tree_at: Vec<usize> = Vec::new();
    let mut x: usize = 0;
    while x < n
        invariant
            x <= n,
            assigned@.len() == x,
            mapping@.len() == x,
            tree_at@.len() == x,
            forall|y: int| 0 <= y < x ==> !(#[trigger] assigned@[y]),
        decreases n - x,
    {
        assigned.push(false);
        mapping.push(0);
        tree_at.push(0);
        x += 1;
    }
    let mut inverse: Vec<PointID> = Vec::new();
    let mut order: Vec<Vec<CID>> = Vec::new();
    let mut k: usize = 0;
    while k < entries.len()
        invariant
            index == old(index),
            index.wf(),
            n == index.num_points(),
            tree_of@.len() == entries@.len(),
            forall|a: int| 0 <= a < entries@.len() ==> (#[trigger] entries@[a]).0 < n,
            forall|a: int, j: int|
                0 <= a < entries@.len() && 0 <= j < entries@[a].1@.len() ==> #[trigger] entries@[a].1@[j]
                    < index.cons().len(),
            k <= entries@.len(),
            assigned@.len() == n,
            mapping@.len() == n,
            tree_at@.len() == n,
            inverse@.len() == k,
            order@.len() == k,
            forall|a: int| 0 <= a < k ==> #[trigger] inverse@[a] == entries@[a].0,
            forall|a: int| 0 <= a < k ==> mapping@[#[trigger] inverse@[a] as int] == a,
            forall|y: int|
                0 <= y < n && #[trigger] assigned@[y] ==> mapping@[y] < k && inverse@[mapping@[y] as int] == y
                    && tree_at@[y] == tree_of@[mapping@[y] as int],
            forall|a: int| 0 <= a < k ==> assigned@[#[trigger] inverse@[a] as int],
            forall|a: int| 0 <= a < k ==> (#[trigger] order@[a])@ == partitioned(index.cons(), entries@[a].1@),
            !repeats(entries@, k as int),
        decreases entries.len() - k,
    {
        let p = entries[k].0;
        if assigned[p] {
            let a = mapping[p];
            proof {
                assert(entries@[a as int].0 == p);
                assert(repeats(entries@, entries@.len() as int));
            }
            return Err(ScheduleError::Conflict { point: p, first_tree: tree_at[p], second_tree: tree_of[k] });
        }
        proof {
            assert forall|a: int, b: int| 0 <= a < b < k + 1 implies entries@[a].0 != entries@[b].0 by {
                if b == k {
                    assert(inverse@[a] == entries@[a].0);
                }
            }
        }
        assigned[p] = true;
        mapping[p] = k;
        tree_at[p] = tree_of[k];
        inverse.push(p);
        let part = partition(index, &entries[k].1);
        order.push(part);
        proof {
            assert forall|a: int| 0 <= a < k + 1 implies mapping@[#[trigger] inverse@[a] as int] == a by {
                if a < k {
                    assert(inverse@[a] != p);
                }
            }
        }
        k += 1;
    }
    let mut y: usize = 0;
    while y < n
        invariant
            index == old(index),
            n == index.num_points(),
            y <= n,
            assigned@.len() == n,
            mapping@.len() == n,
            inverse@.len() >= entries@.len(),
            forall|a: int| 0 <= a < entries@.len() ==> #[trigger] inverse@[a] == entries@[a].0,
            forall|a: int| 0 <= a < inverse@.len() ==> #[trigger] inverse@[a] < n,
            forall|a: int| 0 <= a < inverse@.len() ==> mapping@[#[trigger] inverse@[a] as int] == a,
            forall|a: int| 0 <= a < inverse@.len() ==> assigned@[#[trigger] inverse@[a] as int],
            forall|z: int|
                0 <= z < n && #[trigger] assigned@[z] ==> mapping@[z] < inverse@.len() && inverse@[mapping@[z] as int] == z,
            forall|z: int| 0 <= z < y ==> #[trigger] assigned@[z],
            forall|a: int| 0 <= a < entries@.len() ==> (#[trigger] entries@[a]).0 < n,
        decreases n - y,
    {
        if !assigned[y] {
            proof {
                assert forall|a: int| 0 <= a < inverse@.len() implies inverse@[a] != y by {}
                lemma_distinct_bounded(inverse@, n as nat);
            }
            assigned[y] = true;
            mapping[y] = inverse.len();
            inverse.push(y);
            proof {
                assert forall|a: int| 0 <= a < inverse@.len() implies mapping@[#[trigger] inverse@[a] as int] == a by {
                    if a < inverse@.len() - 1 {
                        assert(inverse@[a] != y);
                    }
                }
            }
        }
        y += 1;
    }
    proof {
        assert(inverse@.no_duplicates()) by {
            assert forall|a: int, b: int| 0 <= a < b < inverse@.len() implies inverse@[a] != inverse@[b] by {
                assert(mapping@[inverse@[a] as int] == a);
            }
        }
        lemma_distinct_bounded(inverse@, n as nat);
        assert(mapping@.no_duplicates()) by {
            assert forall|a: int, b: int| 0 <= a < b < mapping@.len() implies mapping@[a] != mapping@[b] by {
                assert(assigned@[a] && assigned@[b]);
            }
        }
        assert forall|a: int| 0 <= a < mapping@.len() implies mapping@[a] < inverse@.len() by {
            assert(assigned@[a]);
        }
        lemma_distinct_bounded(mapping@, inverse@.len() as nat);
        assert forall|z: usize| z < n implies hits(mapping@, n as int, z) by {
            assert(mapping@[inverse@[z as int] as int] == z);
        }
        assert forall|a: int| 0 <= a < n implies mapping@[a] < n by {
            assert(assigned@[a]);
        }
        assert(is_bijection(mapping@, n as nat));
        assert forall|a: int| 0 <= a < entries@.len() implies mapping@[(#[trigger] entries@[a]).0 as int] == a by {
            assert(inverse@[a] == entries@[a].0);
        }
    }
    index.map_ids(&mapping);
    Ok(order)
}

/// The first `m` ids of `s` are discretizing and the others are not.
pub open spec fn splits_at(cons: Seq<Constraint>, s: Seq<CID>, m: int) -> bool {
    &&& 0 <= m <= s.len()
    &&& forall|j: int| 0 <= j < m ==> cons[#[trigger] s[j] as int].discretizing
    &&& forall|j: int| m <= j < s.len() ==> !cons[#[trigger] s[j] as int].discretizing
}

/// `s` lists discretizing ids only, then non-discretizing ids only.
pub open spec fn discretizing_first(cons: Seq<Constraint>, s: Seq<CID>) -> bool {
    exists|m: int| #[trigger] splits_at(cons, s, m)
}

/// The trees' entries, tree after tree.
pub open spec fn flat(forest: Seq<Tree>) -> Seq<(PointID, Vec<CID>)>
    decreases forest.len(),
{
    if forest.len() == 0 {
        Seq::empty()
    } else {
        flat(forest.drop_last()) + forest.last().order@
    }
}

/// For each entry of `flat(forest)`, the position of its tree.
pub open spec fn flat_trees(forest: Seq<Tree>) -> Seq<usize>
    decreases forest.len(),
{
    if forest.len() == 0 {
        Seq::empty()
    } else {
        flat_trees(forest.drop_last()) + Seq::new(
            forest.last().order@.len(),
            |k: int| (forest.len() - 1) as usize,
        )
    }
}

/// Schedules the whole index: grows the forest, flattens it tree by tree,
/// and commits the result as the solve order and the new numbering (see
/// `scheduled`). Entry `i` of the result lists the constraints that
/// determine the point with the new id `i`, discretizing ones first. A
/// point claimed by two trees is reported as a conflict, and the index is
/// then left as it was.
pub fn bfs_order(index: &mut PointIndex) -> (r: Result<Vec<Vec<CID>>, ScheduleError>)
    requires
        old(index).wf(),
    ensures
        exists|forest: Seq<Tree>|
            {
                &&& forest_ok(*old(index), forest)
                &&& forall|p: PointID, t: PointID|
                    p < old(index).num_points() && t < old(index).num_points() && #[trigger] is_seed(
                        *old(index),
                        p,
                        t,
                    ) ==> covered(forest, p, t)
                &&& exists|pairs: Seq<(PointID, PointID)>, pos: Seq<int>|
                    seeds_listed(*old(index), pairs) && pairs.no_duplicates() && #[trigger] grown_in_order(
                        forest,
                        pairs,
                        pos,
                    )
                &&& scheduled(*old(index), *final(index), flat(forest), flat_trees(forest), r)
            },
        r matches Err(ScheduleError::Conflict { point, first_tree, second_tree }) ==> *final(index)
            == *old(index) && point < old(index).num_points() && first_tree < second_tree,
        r matches Ok(order) ==> order@.len() <= old(index).num_points() && forall|k: int|
            0 <= k < order@.len() ==> discretizing_first(old(index).cons(), (#[trigger] order@[k])@),
{
    let ghost n = index.num_points();
    let mut forest = compute_forest(index);
    let ghost trees = forest@;
    let mut entries: Vec<(PointID, Vec<CID>)> = Vec::new();
    let mut tree_of: Vec<usize> = Vec::new();
    let mut ti: usize = 0;
    let flen = forest.len();
    proof {
        assert(trees.subrange(0, 0) =~= Seq::<Tree>::empty());
        assert(entries@ =~= flat(trees.subrange(0, 0)));
        assert(tree_of@ =~= flat_trees(trees.subrange(0, 0)));
    }
    while forest.len() > 0
        invariant
            index == old(index),
            index.wf(),
            n == index.num_points(),
            forest_ok(*index, trees),
            trees.len() == flen,
            ti <= flen,
            forest@ == trees.subrange(ti as int, flen as int),
            entries@ == flat(trees.subrange(0, ti as int)),
            tree_of@ == flat_trees(trees.subrange(0, ti as int)),
            tree_of@.len() == entries@.len(),
            forall|a: int| 0 <= a < entries@.len() ==> (#[trigger] entries@[a]).0 < n,
            forall|a: int, j: int|
                0 <= a < entries@.len() && 0 <= j < entries@[a].1@.len() ==> #[trigger] entries@[a].1@[j]
                    < index.cons().len(),
            forall|a: int| 0 <= a < tree_of@.len() ==> #[trigger] tree_of@[a] < ti,
            forall|a: int, b: int|
                0 <= a < b < entries@.len() ==> tree_of@[a] <= tree_of@[b] && (tree_of@[a] == tree_of@[b]
                    ==> entries@[a].0 != entries@[b].0),
        decreases forest.len(),
    {
        let mut t = forest.remove(0);
        assert(t == trees[ti as int]);
        assert(tree_ok(*index, trees[ti as int].order@[0].0, trees[ti as int].order@[1].0, trees[ti as int]));
        let ghost tord = t.order@;
        let ghost base = entries@.len();
        let ghost e0 = entries@;
        let ghost f0 = tree_of@;
        let mut j: usize = 0;
        let tlen = t.order.len();
        while t.order.len() > 0
            invariant
                index.wf(),
                n == index.num_points(),
                tree_ok(*index, tord[0].0, tord[1].0, trees[ti as int]),
                tord == trees[ti as int].order@,
                tord.len() == tlen,
                j <= tlen,
                t.order@ == tord.subrange(j as int, tlen as int),
                entries@.len() == base + j,
                base == e0.len(),
                entries@ == e0 + tord.subrange(0, j as int),
                tree_of@ == f0 + Seq::new(j as nat, |k: int| ti),
                tree_of@.len() == entries@.len(),
                forall|a: int| 0 <= a < j ==> entries@[base + a] == #[trigger] tord[a],
                forall|a: int| 0 <= a < entries@.len() ==> (#[trigger] entries@[a]).0 < n,
                forall|a: int, l: int|
                    0 <= a < entries@.len() && 0 <= l < entries@[a].1@.len() ==> #[trigger] entries@[a].1@[l]
                        < index.cons().len(),
                forall|a: int| 0 <= a < base ==> #[trigger] tree_of@[a] < ti,
                forall|a: int| base <= a < tree_of@.len() ==> #[trigger] tree_of@[a] == ti,
                forall|a: int, b: int|
                    0 <= a < b < entries@.len() ==> tree_of@[a] <= tree_of@[b] && (tree_of@[a] == tree_of@[b]
                        ==> entries@[a].0 != entries@[b].0),
            decreases t.order.len(),
        {
            let e = t.order.remove(0);
            assert(e == tord[j as int]);
            entries.push(e);
            tree_of.push(ti);
            proof {
                assert(t.order@ =~= tord.subrange(j + 1, tlen as int));
                assert(entries@ =~= e0 + tord.subrange(0, j + 1));
                assert(tree_of@ =~= f0 + Seq::new((j + 1) as nat, |k: int| ti));
                assert forall|a: int, b: int|
                    0 <= a < b < entries@.len() implies tree_of@[a] <= tree_of@[b] && (tree_of@[a]
                        == tree_of@[b] ==> entries@[a].0 != entries@[b].0) by {
                    if b == entries@.len() - 1 && a >= base {
                        assert(entries@[a] == tord[a - base]);
                    }
                }
            }
            j += 1;
        }
        proof {
            assert(forest@ =~= trees.subrange(ti + 1, flen as int));
            assert(trees.subrange(0, ti + 1).drop_last() =~= trees.subrange(0, ti as int));
            assert(tord.subrange(0, tlen as int) =~= tord);
            assert(entries@ =~= flat(trees.subrange(0, ti + 1)));
            assert(tree_of@ =~= flat_trees(trees.subrange(0, ti + 1)));
        }
        ti += 1;
    }
    proof {
        assert(trees.subrange(0, flen as int) =~= trees);
    }
    let r = linearize(index, entries, tree_of);
    proof {
        match &r {
            Ok(order) => {
                lemma_discretizing_first(old(index).cons(), entries@, order@);
                let pts = entries@.map_values(|e: (PointID, Vec<CID>)| e.0);
                assert forall|a: int, b: int| 0 <= a < b < pts.len() implies pts[a] != pts[b] by {
                    assert(!repeats(entries@, entries@.len() as int));
                }
                lemma_distinct_bounded(pts, n);
            },
            Err(ScheduleError::Conflict { point, first_tree, second_tree }) => {
                let (a, b) = choose|a: int, b: int|
                    0 <= a < b < entries@.len() && entries@[a].0 == point && entries@[b].0 == point
                        && tree_of@[a] == first_tree && tree_of@[b] == second_tree;
            },
        }
        assert(scheduled(*old(index), *index, flat(trees), flat_trees(trees), r));
    }
    r
}

/// Each list of a committed order lists its discretizing ids first: the
/// partitioned support of its entry splits where the discretizing part ends.
pub proof fn lemma_discretizing_first(
    cons: Seq<Constraint>,
    entries: Seq<(PointID, Vec<CID>)>,
    order: Seq<Vec<CID>>,
)
    requires
        order.len() == entries.len(),
        forall|k: int| 0 <= k < order.len() ==> (#[trigger] order[k])@ == partitioned(cons, entries[k].1@),
    ensures
        forall|k: int| 0 <= k < order.len() ==> discretizing_first(cons, (#[trigger] order[k])@),
{
    assert forall|k: int| 0 <= k < order.len() implies discretizing_first(cons, (#[trigger] order[k])@) by {
        let s = entries[k].1@;
        lemma_parts(cons, s);
        let m = disc_part(cons, s).len() as int;
        assert forall|j: int| 0 <= j < m implies cons[#[trigger] order[k]@[j] as int].discretizing by {
            assert(order[k]@[j] == disc_part(cons, s)[j]);
        }
        assert forall|j: int| m <= j < order[k]@.len() implies !cons[#[trigger] order[k]@[j] as int].discretizing by {
            assert(order[k]@[j] == other_part(cons, s)[j - m]);
        }
        assert(splits_at(cons, order[k]@, m));
    }
}

/// Committing is a function of its input: two runs that commit the same
/// entries of the same index both succeed or both fail, and on success
/// return equal lists.
pub proof fn lemma_schedule_determined(
    before: PointIndex,
    entries: Seq<(PointID, Vec<CID>)>,
    tree_of: Seq<usize>,
    after1: PointIndex,
    r1: Result<Vec<Vec<CID>>, ScheduleError>,
    after2: PointIndex,
    r2: Result<Vec<Vec<CID>>, ScheduleError>,
)
    requires
        scheduled(before, after1, entries, tree_of, r1),
        scheduled(before, after2, entries, tree_of, r2),
    ensures
        r1 is Ok <==> r2 is Ok,
        r1 is Ok ==> r1->Ok_0@.len() == r2->Ok_0@.len() && forall|k: int|
            0 <= k < r1->Ok_0@.len() ==> (#[trigger] r1->Ok_0@[k])@ == r2->Ok_0@[k]@,
{
}

} // verus!
