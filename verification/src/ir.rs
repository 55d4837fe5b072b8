//! Kind tagging and typed views over resolved arena records.
//!
//! Every arena entry is classified into one of a closed set of kinds
//! (property, object, scalar, link, tuple); an unrecognized textual tag
//! maps to the explicit "no kind" value rather than an error, so the
//! catalog of kinds can grow without breaking loaders.

use vstd::prelude::*;
use crate::Id;
use crate::arena::Arena;
use crate::resolver::{live, ResolvedNode};
use crate::text::str_eq;

verus! {

/// The closed catalog of record kinds.
#[derive(Clone, Copy, PartialEq, Eq, Structural, Debug, Hash)]
pub enum ObjKindIdent {
    Property,
    Object,
    Scalar,
    Link,
    Tuple,
}

/// A kind tag: either one of the known kinds, or explicitly none.
#[derive(Clone, Copy, PartialEq, Eq, Structural, Debug)]
pub struct IRKind(pub Option<ObjKindIdent>);

/// The kind that a textual tag denotes; unrecognized tags denote none.
pub open spec fn kind_of(s: Seq<char>) -> IRKind {
    if s == "property"@ {
        IRKind(Some(ObjKindIdent::Property))
    } else if s == "object"@ {
        IRKind(Some(ObjKindIdent::Object))
    } else if s == "scalar"@ {
        IRKind(Some(ObjKindIdent::Scalar))
    } else if s == "link"@ {
        IRKind(Some(ObjKindIdent::Link))
    } else if s == "tuple"@ {
        IRKind(Some(ObjKindIdent::Tuple))
    } else {
        IRKind(None)
    }
}

impl IRKind {
    pub fn property() -> (r: IRKind)
        ensures
            r == IRKind(Some(ObjKindIdent::Property)),
    {
        IRKind(Some(ObjKindIdent::Property))
    }

    pub fn object() -> (r: IRKind)
        ensures
            r == IRKind(Some(ObjKindIdent::Object)),
    {
        IRKind(Some(ObjKindIdent::Object))
    }

    pub fn scalar() -> (r: IRKind)
        ensures
            r == IRKind(Some(ObjKindIdent::Scalar)),
    {
        IRKind(Some(ObjKindIdent::Scalar))
    }

    pub fn link() -> (r: IRKind)
        ensures
            r == IRKind(Some(ObjKindIdent::Link)),
    {
        IRKind(Some(ObjKindIdent::Link))
    }

    pub fn tuple() -> (r: IRKind)
        ensures
            r == IRKind(Some(ObjKindIdent::Tuple)),
    {
        IRKind(Some(ObjKindIdent::Tuple))
    }

    pub fn none() -> (r: IRKind)
        ensures
            r == IRKind(None),
    {
        IRKind(None)
    }

    /// Maps a raw textual tag to its kind.
    pub fn classify(s: &str) -> (r: IRKind)
        ensures
            r == kind_of(s@),
    {
        if str_eq(s, "property") {
            IRKind(Some(ObjKindIdent::Property))
        } else if str_eq(s, "object") {
            IRKind(Some(ObjKindIdent::Object))
        } else if str_eq(s, "scalar") {
            IRKind(Some(ObjKindIdent::Scalar))
        } else if str_eq(s, "link") {
            IRKind(Some(ObjKindIdent::Link))
        } else if str_eq(s, "tuple") {
            IRKind(Some(ObjKindIdent::Tuple))
        } else {
            IRKind(None)
        }
    }
}

impl From<&str> for IRKind {
    fn from(string: &str) -> (r: Self) {
        IRKind::classify(string)
    }
}

impl vstd::std_specs::convert::FromSpecImpl<&str> for IRKind {
    open spec fn obeys_from_spec() -> bool {
        true
    }

    open spec fn from_spec(s: &str) -> IRKind {
        kind_of(s@)
    }
}

impl From<Option<&str>> for IRKind {
    fn from(string: Option<&str>) -> (r: Self) {
        match string {
            Some(s) => IRKind::classify(s),
            None => IRKind(None),
        }
    }
}

impl vstd::std_specs::convert::FromSpecImpl<Option<&str>> for IRKind {
    open spec fn obeys_from_spec() -> bool {
        true
    }

    open spec fn from_spec(s: Option<&str>) -> IRKind {
        match s {
            Some(t) => kind_of(t@),
            None => IRKind(None),
        }
    }
}

/// A stable introspection identifier, if one is known.
#[derive(Debug, Clone, PartialEq, Eq)]
pub struct IRId(pub Option<String>);

/// How many values a pointer may carry.
#[derive(Debug, Clone, Copy, PartialEq, Eq, Structural)]
pub enum IRCardinalityKind {
    Any,
    Many,
    One,
}

/// A cardinality tag, if one is known.
#[derive(Debug, Clone, Copy, PartialEq, Eq, Structural)]
pub struct IRCardinality(pub Option<IRCardinalityKind>);

/// A declared name, if one is known.
#[derive(Debug, Clone, PartialEq, Eq)]
pub struct IRName(pub Option<String>);

/// Whether the record is abstract, if known.
#[derive(Debug, Clone, Copy, PartialEq, Eq, Structural)]
pub struct IRIsAbstract(pub Option<bool>);

/// The values of an enumerated scalar, if known.
#[derive(Debug, Clone, PartialEq, Eq)]
pub struct IREnumValues(pub Option<Vec<String>>);

/// The materialized identifier, if one is known.
#[derive(Debug, Clone, PartialEq, Eq)]
pub struct IRMaterialId(pub Option<String>);

/// The direct bases, by introspection identifier, without duplicates.
#[derive(Debug, Clone, PartialEq, Eq)]
pub struct IRBases(pub Vec<IRId>);

/// The full ancestor closure, by introspection identifier, without
/// duplicates.
#[derive(Debug, Clone, PartialEq, Eq)]
pub struct IRAncestors(pub Vec<IRId>);

/// The operands of a union type, without duplicates.
#[derive(Debug, Clone, PartialEq, Eq)]
pub struct IRUnionOf(pub Vec<IRId>);

/// The operands of an intersection type, without duplicates.
#[derive(Debug, Clone, PartialEq, Eq)]
pub struct IRIntersectionOf(pub Vec<IRId>);

/// The typed view over one resolved arena record.
///
/// The graph fields are filled from resolution; the introspection-only
/// fields (identifiers assigned by a live catalog, cardinality, enum
/// values) stay explicitly unset until such a catalog supplies them.
#[derive(Debug, Clone, PartialEq, Eq)]
pub struct IRObject {
    pub id: IRId,
    pub cardinality: IRCardinality,
    pub name: IRName,
    pub is_abstract: IRIsAbstract,
    pub enum_values: IREnumValues,
    pub material_id: IRMaterialId,
    pub bases: IRBases,
    pub ancestors: IRAncestors,
    pub union_of: IRUnionOf,
    pub intersection_of: IRIntersectionOf,
    pub kind: IRKind,
    pub array_element_id: Option<u32>,
    pub target_id: Option<String>,
}

/// The declared names of the listed entries, in order.
fn ids_to_names(arena: &Arena, v: &Vec<Id>) -> (r: Option<Vec<IRId>>)
    ensures
        match r {
            Some(names) => names@.len() == v@.len() && forall|t: int|
                0 <= t < v@.len() ==> live(arena@, (#[trigger] v@[t]).index as int) && names@[t].0
                    is Some && names@[t].0->Some_0@ == arena@[v@[t].index as int].decl.ident,
            None => exists|t: int|
                0 <= t < v@.len() && !live(arena@, (#[trigger] v@[t]).index as int),
        },
{
    let mut out: Vec<IRId> = Vec::new();
    let mut t: usize = 0;
    while t < v.len()
        invariant
            t <= v@.len(),
            out@.len() == t,
            forall|m: int|
                0 <= m < t ==> live(arena@, (#[trigger] v@[m]).index as int) && out@[m].0 is Some
                    && out@[m].0->Some_0@ == arena@[v@[m].index as int].decl.ident,
        decreases v@.len() - t,
    {
        match arena.get(v[t]) {
            Some(d) => {
                out.push(IRId(Some(d.ident.clone())));
            },
            None => {
                return None;
            },
        }
        t = t + 1;
    }
    Some(out)
}

impl IRObject {
    /// The typed view of a resolved node, naming every related entry
    /// through the store. Returns `Some` exactly when the node and
    /// every identity it lists are still live; `None` means some
    /// listed identity has been superseded since resolution.
    pub fn from_resolved(arena: &Arena, node: &ResolvedNode) -> (r: Option<IRObject>)
        ensures
            match r {
                Some(o) => {
                    &&& live(arena@, node.id.index as int)
                    &&& o.name.0 is Some && o.name.0->Some_0@ == arena@[node.id.index as int].decl.ident
                    &&& o.kind == arena@[node.id.index as int].decl.kind
                    &&& o.is_abstract.0 == Some(arena@[node.id.index as int].decl.is_abstract)
                    &&& o.bases.0@.len() == node.direct_bases@.len()
                    &&& o.ancestors.0@.len() == node.ancestors@.len()
                    &&& o.union_of.0@.len() == node.union_of@.len()
                    &&& o.intersection_of.0@.len() == node.intersection_of@.len()
                    &&& forall|t: int|
                        0 <= t < node.direct_bases@.len() ==> live(
                            arena@,
                            (#[trigger] node.direct_bases@[t]).index as int,
                        ) && o.bases.0@[t].0 is Some && o.bases.0@[t].0->Some_0@ == arena@[node.direct_bases@[t].index as int].decl.ident
                    &&& forall|t: int|
                        0 <= t < node.ancestors@.len() ==> live(
                            arena@,
                            (#[trigger] node.ancestors@[t]).index as int,
                        ) && o.ancestors.0@[t].0 is Some && o.ancestors.0@[t].0->Some_0@
                            == arena@[node.ancestors@[t].index as int].decl.ident
                    &&& forall|t: int|
                        0 <= t < node.union_of@.len() ==> live(
                            arena@,
                            (#[trigger] node.union_of@[t]).index as int,
                        ) && o.union_of.0@[t].0 is Some && o.union_of.0@[t].0->Some_0@ == arena@[node.union_of@[t].index as int].decl.ident
                    &&& forall|t: int|
                        0 <= t < node.intersection_of@.len() ==> live(
                            arena@,
                            (#[trigger] node.intersection_of@[t]).index as int,
                        ) && o.intersection_of.0@[t].0 is Some && o.intersection_of.0@[t].0->Some_0@
                            == arena@[node.intersection_of@[t].index as int].decl.ident
                    &&& o.id.0 is None && o.cardinality.0 is None && o.enum_values.0 is None
                    &&& o.material_id.0 is None && o.array_element_id is None && o.target_id
                        is None
                },
                None => !live(arena@, node.id.index as int) || (exists|t: int|
                    0 <= t < node.direct_bases@.len() && !live(
                        arena@,
                        (#[trigger] node.direct_bases@[t]).index as int,
                    )) || (exists|t: int|
                    0 <= t < node.ancestors@.len() && !live(
                        arena@,
                        (#[trigger] node.ancestors@[t]).index as int,
                    )) || (exists|t: int|
                    0 <= t < node.union_of@.len() && !live(
                        arena@,
                        (#[trigger] node.union_of@[t]).index as int,
                    )) || (exists|t: int|
                    0 <= t < node.intersection_of@.len() && !live(
                        arena@,
                        (#[trigger] node.intersection_of@[t]).index as int,
                    )),
            },
    {
        let decl = match arena.get(node.id) {
            Some(d) => d,
            None => {
                return None;
            },
        };
        let name = IRName(Some(decl.ident.clone()));
        let kind = decl.kind;
        let is_abstract = IRIsAbstract(Some(decl.is_abstract));
        let bases = match ids_to_names(arena, &node.direct_bases) {
            Some(v) => IRBases(v),
            None => {
                return None;
            },
        };
        let ancestors = match ids_to_names(arena, &node.ancestors) {
            Some(v) => IRAncestors(v),
            None => {
                return None;
            },
        };
        let union_of = match ids_to_names(arena, &node.union_of) {
            Some(v) => IRUnionOf(v),
            None => {
                return None;
            },
        };
        let intersection_of = match ids_to_names(arena, &node.intersection_of) {
            Some(v) => IRIntersectionOf(v),
            None => {
                return None;
            },
        };
        Some(
            IRObject {
                id: IRId(None),
                cardinality: IRCardinality(None),
                name,
                is_abstract,
                enum_values: IREnumValues(None),
                material_id: IRMaterialId(None),
                bases,
                ancestors,
                union_of,
                intersection_of,
                kind,
                array_element_id: None,
                target_id: None,
            },
        )
    }
}

} // verus!
