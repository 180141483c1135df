//! The abstract syntax tree of a parsed path pattern, and its mathematical
//! models.
//!
//! Every name the tree holds — entity variables, labels, relation variables —
//! is a zero-copy slice into the source text the pattern was parsed from, so
//! a tree must not outlive that text. Each node owns its children outright:
//! the whole tree is created by one parse call, is immutable afterwards, and
//! is torn down as a unit when the [`Path`] is dropped.
use vstd::prelude::*;

verus! {

/// Which way a relation points: `-[x]-` is undirected, `<-[x]-` points left,
/// `-[x]->` points right. A relation arrowed at both ends is a grammar
/// error, not a representable value.
#[derive(Debug, Clone, Copy, PartialEq, Eq, Structural)]
pub enum Direction {
    Undirected,
    Left,
    Right,
}

/// A node description, as in `(a:Person:Human)`: an optional variable name
/// and the labels in their textual order. Both are slices into the source.
#[derive(Debug, Clone, PartialEq, Eq)]
pub struct Entity<'src> {
    pub variable: Option<&'src str>,
    pub labels: Vec<&'src str>,
}

/// An edge description, as in `-[a]->`: a required variable name (a slice
/// into the source) and a direction.
#[derive(Debug, Clone, PartialEq, Eq)]
pub struct Relation<'src> {
    pub variable: &'src str,
    pub dir: Direction,
}

/// A relation together with the entity it leads to, as in `-[a]->(b)`.
#[derive(Debug, Clone, PartialEq, Eq)]
pub struct Edge<'src> {
    pub relation: Relation<'src>,
    pub entity: Entity<'src>,
}

/// A full pattern, as in `(a)-[b]->(c)`: an initial entity and the following
/// edges in the source's left-to-right order.
#[derive(Debug, Clone, PartialEq, Eq)]
pub struct Path<'src> {
    pub init: Entity<'src>,
    pub edges: Vec<Edge<'src>>,
}

/// The mathematical value of an [`Entity`]: its names as character sequences.
#[verifier::ext_equal]
pub struct EntityModel {
    pub variable: Option<Seq<char>>,
    pub labels: Seq<Seq<char>>,
}

/// The mathematical value of a [`Relation`].
#[verifier::ext_equal]
pub struct RelationModel {
    pub variable: Seq<char>,
    pub dir: Direction,
}

/// The mathematical value of an [`Edge`].
#[verifier::ext_equal]
pub struct EdgeModel {
    pub relation: RelationModel,
    pub entity: EntityModel,
}

/// The mathematical value of a [`Path`].
#[verifier::ext_equal]
pub struct PathModel {
    pub init: EntityModel,
    pub edges: Seq<EdgeModel>,
}

impl<'src> View for Entity<'src> {
    type V = EntityModel;

    open spec fn view(&self) -> EntityModel {
        EntityModel {
            variable: match self.variable {
                Some(v) => Some(v@),
                None => None,
            },
            labels: Seq::new(self.labels@.len(), |k: int| self.labels@[k]@),
        }
    }
}

impl<'src> View for Relation<'src> {
    type V = RelationModel;

    open spec fn view(&self) -> RelationModel {
        RelationModel { variable: self.variable@, dir: self.dir }
    }
}

impl<'src> View for Edge<'src> {
    type V = EdgeModel;

    open spec fn view(&self) -> EdgeModel {
        EdgeModel { relation: self.relation@, entity: self.entity@ }
    }
}

impl<'src> View for Path<'src> {
    type V = PathModel;

    open spec fn view(&self) -> PathModel {
        PathModel { init: self.init@, edges: Seq::new(self.edges@.len(), |k: int| self.edges@[k]@) }
    }
}

} // verus!
