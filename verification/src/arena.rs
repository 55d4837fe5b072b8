//! The declaration store: an arena that owns every declaration under a
//! stable integer identity.
//!
//! Identities are never reused: superseding an entry marks the old
//! identity dead and hands out a fresh one, so a stale `Id` can be
//! detected instead of silently naming a different record.

use vstd::prelude::*;
use crate::Id;
use crate::ir::IRKind;
use crate::text::str_eq;

verus! {

/// A flat declaration record, the input to the store and the resolver.
///
/// Cross references are carried by name (`extends`, the operand lists,
/// `module`), never by memory reference; the resolver turns names into
/// identities against a store snapshot. Member lists hold identities of
/// previously inserted member declarations.
pub struct Declaration {
    pub ident: String,
    pub module: Option<String>,
    pub kind: IRKind,
    pub extends: Vec<String>,
    pub union_operands: Vec<String>,
    pub intersection_operands: Vec<String>,
    pub properties: Vec<Id>,
    pub links: Vec<Id>,
    pub constraints: Vec<Id>,
    pub annotations: Vec<Id>,
    pub indices: Vec<Id>,
    pub is_abstract: bool,
    pub is_scalar: bool,
}

/// The mathematical image of a declaration record.
pub struct DeclarationView {
    pub ident: Seq<char>,
    pub module: Option<Seq<char>>,
    pub kind: IRKind,
    pub extends: Seq<Seq<char>>,
    pub union_operands: Seq<Seq<char>>,
    pub intersection_operands: Seq<Seq<char>>,
    pub properties: Seq<Id>,
    pub links: Seq<Id>,
    pub constraints: Seq<Id>,
    pub annotations: Seq<Id>,
    pub indices: Seq<Id>,
    pub is_abstract: bool,
    pub is_scalar: bool,
}

impl View for Declaration {
    type V = DeclarationView;

    open spec fn view(&self) -> DeclarationView {
        DeclarationView {
            ident: self.ident@,
            module: self.module.deep_view(),
            kind: self.kind,
            extends: self.extends.deep_view(),
            union_operands: self.union_operands.deep_view(),
            intersection_operands: self.intersection_operands.deep_view(),
            properties: self.properties@,
            links: self.links@,
            constraints: self.constraints@,
            annotations: self.annotations@,
            indices: self.indices@,
            is_abstract: self.is_abstract,
            is_scalar: self.is_scalar,
        }
    }
}

impl Declaration {
    /// A minimal record: a name and a kind, everything else not set.
    pub fn new(ident: String, kind: IRKind) -> (d: Declaration)
        ensures
            d@.ident == ident@,
            d@.kind == kind,
            d@.module is None,
            d@.extends == Seq::<Seq<char>>::empty(),
            d@.union_operands == Seq::<Seq<char>>::empty(),
            d@.intersection_operands == Seq::<Seq<char>>::empty(),
            d@.properties == Seq::<Id>::empty(),
            d@.links == Seq::<Id>::empty(),
            d@.constraints == Seq::<Id>::empty(),
            d@.annotations == Seq::<Id>::empty(),
            d@.indices == Seq::<Id>::empty(),
            !d@.is_abstract,
            !d@.is_scalar,
    {
        let d = Declaration {
            ident,
            module: None,
            kind,
            extends: Vec::new(),
            union_operands: Vec::new(),
            intersection_operands: Vec::new(),
            properties: Vec::new(),
            links: Vec::new(),
            constraints: Vec::new(),
            annotations: Vec::new(),
            indices: Vec::new(),
            is_abstract: false,
            is_scalar: false,
        };
        proof {
            assert(d.extends.deep_view() =~= Seq::<Seq<char>>::empty());
            assert(d.union_operands.deep_view() =~= Seq::<Seq<char>>::empty());
            assert(d.intersection_operands.deep_view() =~= Seq::<Seq<char>>::empty());
        }
        d
    }
}

/// One slot of the store: a declaration and whether its identity is
/// still the current one.
struct Entry {
    decl: Declaration,
    alive: bool,
}

/// The mathematical image of a slot.
pub struct EntryView {
    pub decl: DeclarationView,
    pub alive: bool,
}

/// The store. Slots are only ever appended; superseding flips the old
/// slot dead in place.
pub struct Arena {
    entries: Vec<Entry>,
}

impl View for Arena {
    type V = Seq<EntryView>;

    closed spec fn view(&self) -> Seq<EntryView> {
        self.entries@.map_values(|e: Entry| EntryView { decl: e.decl@, alive: e.alive })
    }
}

/// The identity, if any, that a name denotes: the most recently
/// inserted live entry with that declared name.
pub open spec fn lookup_spec(a: Seq<EntryView>, name: Seq<char>) -> Option<Id>
    decreases a.len(),
{
    if a.len() == 0 {
        None
    } else if a.last().alive && a.last().decl.ident == name {
        Some(Id { index: (a.len() - 1) as usize })
    } else {
        lookup_spec(a.drop_last(), name)
    }
}

impl Arena {
    /// An empty store.
    pub fn new() -> (a: Arena)
        ensures
            a@ == Seq::<EntryView>::empty(),
    {
        let a = Arena { entries: Vec::new() };
        proof {
            assert(a@ =~= Seq::<EntryView>::empty());
        }
        a
    }

    /// How many slots the store has handed out, dead ones included.
    pub fn len(&self) -> (n: usize)
        ensures
            n == self@.len(),
    {
        self.entries.len()
    }

    /// Inserts a declaration and assigns it a fresh identity.
    pub fn insert(&mut self, decl: Declaration) -> (id: Id)
        ensures
            final(self)@ == old(self)@.push(EntryView { decl: decl@, alive: true }),
            id.index == old(self)@.len(),
    {
        let id = Id { index: self.entries.len() };
        let ghost d = decl@;
        self.entries.push(Entry { decl, alive: true });
        proof {
            assert(self@ =~= old(self)@.push(EntryView { decl: d, alive: true }));
        }
        id
    }

    /// The declaration under `id`, or `None` when the identity is
    /// unknown or superseded. Never panics.
    pub fn get(&self, id: Id) -> (r: Option<&Declaration>)
        ensures
            match r {
                Some(d) => id.index < self@.len() && self@[id.index as int].alive && d@
                    == self@[id.index as int].decl,
                None => !(id.index < self@.len() && self@[id.index as int].alive),
            },
    {
        if id.index < self.entries.len() {
            let e = &self.entries[id.index];
            if e.alive {
                Some(&e.decl)
            } else {
                None
            }
        } else {
            None
        }
    }

    /// Marks `old_id` dead and inserts `decl` under a fresh identity.
    /// Callers must re-resolve anything cached against `old_id`.
    pub fn supersede(&mut self, old_id: Id, decl: Declaration) -> (id: Id)
        requires
            old_id.index < old(self)@.len(),
        ensures
            final(self)@ == old(self)@.update(
                old_id.index as int,
                EntryView { decl: old(self)@[old_id.index as int].decl, alive: false },
            ).push(EntryView { decl: decl@, alive: true }),
            id.index == old(self)@.len(),
    {
        let ghost d = decl@;
        let slot = &mut self.entries[old_id.index];
        slot.alive = false;
        let id = Id { index: self.entries.len() };
        self.entries.push(Entry { decl, alive: true });
        proof {
            assert(self@ =~= old(self)@.update(
                old_id.index as int,
                EntryView { decl: old(self)@[old_id.index as int].decl, alive: false },
            ).push(EntryView { decl: d, alive: true }));
        }
        id
    }

    /// Resolves a name to the identity of its current declaration.
    pub fn lookup(&self, name: &str) -> (r: Option<Id>)
        ensures
            r == lookup_spec(self@, name@),
    {
        let n = self.entries.len();
        let mut i: usize = n;
        proof {
            assert(self@.take(n as int) =~= self@);
        }
        while i > 0
            invariant
                i <= n,
                n == self@.len(),
                lookup_spec(self@, name@) == lookup_spec(self@.take(i as int), name@),
            decreases i,
        {
            i = i - 1;
            let e = &self.entries[i];
            if e.alive && str_eq(e.decl.ident.as_str(), name) {
                proof {
                    let t = self@.take(i + 1);
                    assert(t.last() == self@[i as int]);
                    assert(lookup_spec(self@, name@) == Some(Id { index: i }));
                }
                return Some(Id { index: i });
            }
            proof {
                let t = self@.take(i + 1);
                assert(t.last() == self@[i as int]);
                assert(t.drop_last() =~= self@.take(i as int));
            }
        }
        proof {
            assert(self@.take(0) =~= Seq::<EntryView>::empty());
        }
        None
    }
}

} // verus!
