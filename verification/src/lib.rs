//! A schema type-graph with multiple inheritance.
//!
//! Declarations (object types, scalar types, properties, links,
//! constraints) are built through validating builders, stored in an
//! arena under stable integer identities, and resolved into a
//! closure-complete graph: per node the direct bases, the full
//! ancestor closure, a deterministic linearization for member
//! override lookup, and derived union/intersection sets.

pub mod arena;
pub mod compiler;
pub mod datastructures;
pub mod resolver;
pub mod ir;
pub mod text;

use vstd::prelude::*;

verus! {

/// A stable handle into the declaration store.
///
/// Identity is by value; an `Id` stays meaningful after the entry it
/// names is superseded, it merely stops resolving.
#[derive(Clone, Copy, PartialEq, Eq, Structural, Debug, Hash)]
pub struct Id {
    pub index: usize,
}

impl Id {
    pub fn new(index: usize) -> (r: Id)
        ensures
            r.index == index,
    {
        Id { index }
    }
}

/// A container-forming utility: wraps a value in the owning
/// containers the schema structures use.
pub trait Containerize: Sized {
    /// The value as the sole element of an owned list.
    fn to_box_vec(self) -> (r: Box<Vec<Self>>)
        ensures
            (*r)@ =~= seq![self],
    {
        let mut v: Vec<Self> = Vec::new();
        v.push(self);
        Box::new(v)
    }

    /// The value behind an owning indirection.
    fn to_box(self) -> (r: Box<Self>)
        ensures
            *r == self,
    {
        Box::new(self)
    }
}

impl Containerize for datastructures::Annotation {

}

impl Containerize for datastructures::Expression {

}

/// Builds a named scalar type declaration.
pub fn new_scalar_type(ident: &str) -> (t: datastructures::Type)
    requires
        ident@.len() != 0,
    ensures
        t.ident@ == ident@,
        t.scalar,
        !t.abs,
        t.extends is None,
        t.properties is None,
        t.annotations is None,
        t.links is None,
        t.constraints is None,
        t.indices is None,
{
    match datastructures::TypeBuilder::default().ident(ident).scalar(true).build() {
        Ok(t) => t,
        Err(_) => {
            proof {
                assert(false);
            }
            vstd::pervasive::unreached()
        },
    }
}

/// Builds a named object type declaration.
pub fn _new_object_type(ident: &str) -> (t: datastructures::Type)
    requires
        ident@.len() != 0,
    ensures
        t.ident@ == ident@,
        !t.scalar,
        !t.abs,
        t.extends is None,
        t.properties is None,
        t.annotations is None,
        t.links is None,
        t.constraints is None,
        t.indices is None,
{
    match datastructures::TypeBuilder::default().ident(ident).scalar(false).build() {
        Ok(t) => t,
        Err(_) => {
            proof {
                assert(false);
            }
            vstd::pervasive::unreached()
        },
    }
}

} // verus!
