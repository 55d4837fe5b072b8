use edgemorph::arena::Arena;
use edgemorph::datastructures::{PropertyBuilder, PropertyKind, TypeBuilder};
use edgemorph::ir::{IRKind, IRObject};
use edgemorph::resolver::resolve_node;

#[test]
fn type_declarations_feed_the_store() {
    let base = TypeBuilder::default().ident("Named").build().unwrap();
    let person = TypeBuilder::default()
        .ident("Person")
        .extends(vec!["Named".to_string()])
        .build()
        .unwrap();

    let mut arena = Arena::new();
    let named_id = arena.insert(base.to_declaration());
    let person_id = arena.insert(person.to_declaration());

    let d = arena.get(person_id).unwrap();
    assert_eq!(d.ident, "Person");
    assert_eq!(d.kind, IRKind::object());
    assert_eq!(d.extends, vec!["Named".to_string()]);

    let node = resolve_node(&arena, person_id).unwrap();
    assert_eq!(node.ancestors, vec![named_id]);
}

#[test]
fn scalar_types_carry_the_scalar_kind() {
    let t = TypeBuilder::default().ident("Byte").scalar(true).build().unwrap();
    let d = t.to_declaration();
    assert_eq!(d.kind, IRKind::scalar());
    assert!(d.is_scalar);
}

#[test]
fn property_declarations_carry_their_module() {
    let p = PropertyBuilder::default()
        .ident("name")
        .kind(PropertyKind::Concrete)
        .module("default")
        .build()
        .unwrap();
    let d = p.to_declaration();
    assert_eq!(d.kind, IRKind::property());
    assert_eq!(d.module.as_deref(), Some("default"));
}

#[test]
fn ir_objects_name_their_relatives() {
    let mut arena = Arena::new();
    let named = TypeBuilder::default().ident("Named").build().unwrap();
    let person = TypeBuilder::default()
        .ident("Person")
        .extends(vec!["Named".to_string()])
        .build()
        .unwrap();
    arena.insert(named.to_declaration());
    let person_id = arena.insert(person.to_declaration());

    let node = resolve_node(&arena, person_id).unwrap();
    let ir = IRObject::from_resolved(&arena, &node).unwrap();
    assert_eq!(ir.name.0.as_deref(), Some("Person"));
    assert_eq!(ir.kind, IRKind::object());
    assert_eq!(ir.is_abstract.0, Some(false));
    assert_eq!(ir.bases.0.len(), 1);
    assert_eq!(ir.bases.0[0].0.as_deref(), Some("Named"));
    assert_eq!(ir.ancestors.0[0].0.as_deref(), Some("Named"));
    assert!(ir.id.0.is_none());
}
