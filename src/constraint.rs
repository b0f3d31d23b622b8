//! Constraints between points, seen only through the points they reference,
//! the points they can determine, and whether they discretize a point.

use vstd::prelude::*;

verus! {

/// Dense identifier of a point.
pub type PointID = usize;

/// Position of a constraint in the index.
pub type CID = usize;

/// The points a constraint relates.
pub enum Relation {
    /// A relation over two points (a distance, an incidence).
    Pair(PointID, PointID),
    /// A relation over three points (an angle).
    Triple(PointID, PointID, PointID),
}

/// A constraint: its relation and whether it is one of the two branch
/// points that pin a point down.
pub struct Constraint {
    pub relation: Relation,
    pub discretizing: bool,
}

impl Relation {
    pub open spec fn points_spec(&self) -> Seq<PointID> {
        match *self {
            Relation::Pair(a, b) => seq![a, b],
            Relation::Triple(a, b, c) => seq![a, b, c],
        }
    }

    /// The one unknown point of a relation whose other points are all known;
    /// nothing otherwise.
    pub open spec fn targets_spec(&self, known: Seq<bool>) -> Seq<PointID> {
        match *self {
            Relation::Pair(a, b) => if known[a as int] && !known[b as int] {
                seq![b]
            } else if !known[a as int] && known[b as int] {
                seq![a]
            } else {
                seq![]
            },
            Relation::Triple(a, b, c) => if known[a as int] && known[b as int] && !known[c as int] {
                seq![c]
            } else if known[a as int] && !known[b as int] && known[c as int] {
                seq![b]
            } else if !known[a as int] && known[b as int] && known[c as int] {
                seq![a]
            } else {
                seq![]
            },
        }
    }

    /// Whether `p` is one of the related points.
    pub open spec fn references(&self, p: PointID) -> bool {
        match *self {
            Relation::Pair(a, b) => p == a || p == b,
            Relation::Triple(a, b, c) => p == a || p == b || p == c,
        }
    }

    /// The relation with every point `p` replaced by `m[p]`.
    pub open spec fn renumbered(&self, m: Seq<usize>) -> Relation {
        match *self {
            Relation::Pair(a, b) => Relation::Pair(m[a as int], m[b as int]),
            Relation::Triple(a, b, c) => Relation::Triple(m[a as int], m[b as int], m[c as int]),
        }
    }

    /// Every point is below `n`.
    pub open spec fn within(&self, n: nat) -> bool {
        match *self {
            Relation::Pair(a, b) => a < n && b < n,
            Relation::Triple(a, b, c) => a < n && b < n && c < n,
        }
    }
}

impl Constraint {
    pub open spec fn points_spec(&self) -> Seq<PointID> {
        self.relation.points_spec()
    }

    pub open spec fn targets_spec(&self, known: Seq<bool>) -> Seq<PointID> {
        self.relation.targets_spec(known)
    }

    pub open spec fn within(&self, n: nat) -> bool {
        self.relation.within(n)
    }

    pub open spec fn references(&self, p: PointID) -> bool {
        self.relation.references(p)
    }

    /// A distance-like relation over two points.
    pub fn pair(a: PointID, b: PointID, discretizing: bool) -> (r: Constraint)
        ensures
            r.relation == Relation::Pair(a, b),
            r.discretizing == discretizing,
    {
        Constraint { relation: Relation::Pair(a, b), discretizing }
    }

    /// An angle-like relation over three points.
    pub fn triple(a: PointID, b: PointID, c: PointID, discretizing: bool) -> (r: Constraint)
        ensures
            r.relation == Relation::Triple(a, b, c),
            r.discretizing == discretizing,
    {
        Constraint { relation: Relation::Triple(a, b, c), discretizing }
    }

    /// The points this constraint references.
    pub fn points(&self) -> (r: Vec<PointID>)
        ensures
            r@ == self.points_spec(),
    {
        match self.relation {
            Relation::Pair(a, b) => vec![a, b],
            Relation::Triple(a, b, c) => vec![a, b, c],
        }
    }

    /// Whether this constraint discretizes the points it determines.
    pub fn is_discretizing(&self) -> (r: bool)
        ensures
            r == self.discretizing,
    {
        self.discretizing
    }

    /// The points this constraint can determine when exactly the points
    /// marked in `known` are known.
    pub fn targets(&self, known: &Vec<bool>) -> (r: Vec<PointID>)
        requires
            self.within(known@.len()),
        ensures
            r@ == self.targets_spec(known@),
    {
        match self.relation {
            Relation::Pair(a, b) => {
                if known[a] && !known[b] {
                    vec![b]
                } else if !known[a] && known[b] {
                    vec![a]
                } else {
                    vec![]
                }
            },
            Relation::Triple(a, b, c) => {
                if known[a] && known[b] && !known[c] {
                    vec![c]
                } else if known[a] && !known[b] && known[c] {
                    vec![b]
                } else if !known[a] && known[b] && known[c] {
                    vec![a]
                } else {
                    vec![]
                }
            },
        }
    }

    /// Whether every point of this constraint is below `n`.
    pub fn is_within(&self, n: usize) -> (r: bool)
        ensures
            r == self.within(n as nat),
    {
        match self.relation {
            Relation::Pair(a, b) => a < n && b < n,
            Relation::Triple(a, b, c) => a < n && b < n && c < n,
        }
    }

    /// Rewrites every point `p` of this constraint as `mapping[p]`.
    pub fn renumber(&mut self, mapping: &Vec<usize>)
        requires
            old(self).within(mapping@.len()),
        ensures
            final(self).discretizing == old(self).discretizing,
            final(self).relation == old(self).relation.renumbered(mapping@),
    {
        self.relation = match self.relation {
            Relation::Pair(a, b) => Relation::Pair(mapping[a], mapping[b]),
            Relation::Triple(a, b, c) => Relation::Triple(mapping[a], mapping[b], mapping[c]),
        };
    }
}

} // verus!
