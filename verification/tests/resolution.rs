use edgemorph::arena::{Arena, Declaration};
use edgemorph::ir::IRKind;
use edgemorph::resolver::{resolve_all, resolve_node, ResolutionError};
use edgemorph::Id;

fn insert(arena: &mut Arena, name: &str, bases: &[&str]) -> Id {
    let mut d = Declaration::new(name.to_string(), IRKind::object());
    d.extends = bases.iter().map(|b| b.to_string()).collect();
    arena.insert(d)
}

fn idx(ids: &[Id]) -> Vec<usize> {
    ids.iter().map(|i| i.index).collect()
}

#[test]
fn diamond_collapses() {
    let mut arena = Arena::new();
    let a = insert(&mut arena, "A", &[]);
    let b = insert(&mut arena, "B", &["A"]);
    let c = insert(&mut arena, "C", &["A"]);
    let d = insert(&mut arena, "D", &["B", "C"]);

    let node = resolve_node(&arena, d).unwrap();
    assert_eq!(idx(&node.ancestors), vec![a.index, b.index, c.index]);
    assert_eq!(idx(&node.direct_bases), vec![b.index, c.index]);

    let occurrences = node
        .linearization
        .iter()
        .filter(|x| x.index == a.index)
        .count();
    assert_eq!(occurrences, 1);
    // Without declared operands the composite sets stay empty.
    assert!(node.union_of.is_empty());
    assert!(node.intersection_of.is_empty());
    assert_eq!(
        idx(&node.linearization),
        vec![d.index, b.index, c.index, a.index]
    );
}

#[test]
fn cycle_is_rejected_per_node() {
    let mut arena = Arena::new();
    let x = insert(&mut arena, "X", &["Y"]);
    let y = insert(&mut arena, "Y", &["X"]);
    let z = insert(&mut arena, "Z", &[]);

    match resolve_node(&arena, x) {
        Err(ResolutionError::CycleError { members }) => {
            assert_eq!(idx(&members), vec![x.index, y.index]);
        }
        other => panic!("expected a cycle error, got {:?}", other),
    }
    match resolve_node(&arena, y) {
        Err(ResolutionError::CycleError { .. }) => {}
        other => panic!("expected a cycle error, got {:?}", other),
    }
    // An unrelated node still resolves.
    let node = resolve_node(&arena, z).unwrap();
    assert!(node.ancestors.is_empty());
    assert_eq!(idx(&node.linearization), vec![z.index]);
}

#[test]
fn descendant_of_cycle_is_rejected_too() {
    let mut arena = Arena::new();
    let x = insert(&mut arena, "X", &["Y"]);
    let y = insert(&mut arena, "Y", &["X"]);
    let w = insert(&mut arena, "W", &["X"]);
    let _ = y;
    match resolve_node(&arena, w) {
        Err(ResolutionError::CycleError { members }) => {
            assert_eq!(idx(&members), vec![x.index, y.index]);
        }
        other => panic!("expected a cycle error, got {:?}", other),
    }
}

#[test]
fn conflicting_override_orders_are_ambiguous() {
    let mut arena = Arena::new();
    let _m1 = insert(&mut arena, "M1", &[]);
    let _m2 = insert(&mut arena, "M2", &[]);
    let _b = insert(&mut arena, "B", &["M1", "M2"]);
    let _c = insert(&mut arena, "C", &["M2", "M1"]);
    let d = insert(&mut arena, "D", &["B", "C"]);

    match resolve_node(&arena, d) {
        Err(ResolutionError::AmbiguousInheritanceError { conflicting_bases }) => {
            assert!(!conflicting_bases.is_empty());
        }
        other => panic!("expected an ambiguity error, got {:?}", other),
    }
}

#[test]
fn names_resolve_across_declaration_order() {
    let mut arena = Arena::new();
    // "Person" extends a base that is only declared afterwards.
    let person = insert(&mut arena, "Person", &["Named"]);
    let named = insert(&mut arena, "Named", &[]);

    let node = resolve_node(&arena, person).unwrap();
    assert_eq!(idx(&node.ancestors), vec![named.index]);
}

#[test]
fn unknown_base_is_reported_by_name() {
    let mut arena = Arena::new();
    let d = insert(&mut arena, "D", &["Nope"]);
    match resolve_node(&arena, d) {
        Err(ResolutionError::UnknownBaseReference { ident }) => {
            assert_eq!(ident, "Nope");
        }
        other => panic!("expected an unknown-base error, got {:?}", other),
    }
}

#[test]
fn unknown_base_of_ancestor_is_reported() {
    let mut arena = Arena::new();
    let _b = insert(&mut arena, "B", &["Gone"]);
    let d = insert(&mut arena, "D", &["B"]);
    match resolve_node(&arena, d) {
        Err(ResolutionError::UnknownBaseReference { ident }) => {
            assert_eq!(ident, "Gone");
        }
        other => panic!("expected an unknown-base error, got {:?}", other),
    }
}

#[test]
fn resolving_twice_yields_identical_reports() {
    let mut arena = Arena::new();
    insert(&mut arena, "A", &[]);
    insert(&mut arena, "B", &["A"]);
    insert(&mut arena, "C", &["A"]);
    insert(&mut arena, "D", &["B", "C"]);
    insert(&mut arena, "X", &["Y"]);
    insert(&mut arena, "Y", &["X"]);

    let first = resolve_all(&arena);
    let second = resolve_all(&arena);
    assert_eq!(first, second);
}

#[test]
fn batch_reports_every_live_entry() {
    let mut arena = Arena::new();
    let a = insert(&mut arena, "A", &[]);
    let b = insert(&mut arena, "B", &["A"]);
    let report = resolve_all(&arena);
    assert_eq!(report.len(), 2);
    assert_eq!(report[0].0, a);
    assert_eq!(report[1].0, b);
    assert!(report.iter().all(|(_, r)| r.is_ok()));
}

#[test]
fn superseded_entries_drop_out() {
    let mut arena = Arena::new();
    let old = insert(&mut arena, "A", &[]);
    let mut d2 = Declaration::new("A".to_string(), IRKind::scalar());
    d2.is_scalar = true;
    let fresh = arena.supersede(old, d2);

    assert!(arena.get(old).is_none());
    assert!(arena.get(fresh).is_some());
    assert_eq!(arena.lookup("A"), Some(fresh));
    assert_ne!(old, fresh);

    // Only the fresh entry appears in the batch.
    let report = resolve_all(&arena);
    assert_eq!(report.len(), 1);
    assert_eq!(report[0].0, fresh);
}

#[test]
fn union_and_intersection_are_set_algebra_over_closures() {
    let mut arena = Arena::new();
    let a = insert(&mut arena, "A", &[]);
    let b = insert(&mut arena, "B", &["A"]);
    let c = insert(&mut arena, "C", &["A"]);
    let mut d = Declaration::new("U".to_string(), IRKind::object());
    d.union_operands = vec!["B".to_string(), "C".to_string()];
    d.intersection_operands = vec!["B".to_string(), "C".to_string()];
    let u = arena.insert(d);

    let node = resolve_node(&arena, u).unwrap();
    assert_eq!(idx(&node.union_of), vec![a.index, b.index, c.index]);
    assert_eq!(idx(&node.intersection_of), vec![a.index]);
}

#[test]
fn self_extension_is_a_cycle() {
    let mut arena = Arena::new();
    let s = insert(&mut arena, "S", &["S"]);
    match resolve_node(&arena, s) {
        Err(ResolutionError::CycleError { members }) => {
            assert_eq!(idx(&members), vec![s.index]);
        }
        other => panic!("expected a cycle error, got {:?}", other),
    }
}

#[test]
fn result_sets_are_ordered_by_name_then_identity() {
    let mut arena = Arena::new();
    // Declaration order deliberately disagrees with name order.
    let zed = insert(&mut arena, "Zed", &[]);
    let alpha = insert(&mut arena, "Alpha", &[]);
    let d = insert(&mut arena, "D", &["Zed", "Alpha"]);

    let node = resolve_node(&arena, d).unwrap();
    assert_eq!(idx(&node.direct_bases), vec![alpha.index, zed.index]);
    assert_eq!(idx(&node.ancestors), vec![alpha.index, zed.index]);
    // The linearization keeps the declared override order instead.
    assert_eq!(
        idx(&node.linearization),
        vec![d.index, zed.index, alpha.index]
    );
}

#[test]
fn no_node_is_its_own_ancestor() {
    let mut arena = Arena::new();
    insert(&mut arena, "A", &[]);
    insert(&mut arena, "B", &["A"]);
    insert(&mut arena, "C", &["B", "A"]);
    for (id, r) in resolve_all(&arena) {
        let node = r.unwrap();
        assert!(node.ancestors.iter().all(|x| *x != id));
    }
}
