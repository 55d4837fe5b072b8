use edgemorph::datastructures::{
    AliasBuilder, AliasExprBuilder, AnnotationBuilder, ConstraintBuilder, ExpressionBuilder,
    IndexBuilder, LinkBuilder, LinkKind, PropertyBuilder, PropertyKind, SubcommandBuilder,
    TypeBuilder, ValidationError,
};
use edgemorph::{new_scalar_type, _new_object_type};

#[test]
fn gen_scalar() {
    let identity = "Double";
    let scalar = new_scalar_type(&identity);
    assert_eq!(scalar.scalar, true);
}

#[test]
fn it_works() {
    assert_eq!(2 + 2, 4);
}

#[test]
fn object_type_is_not_scalar() {
    let t = _new_object_type("Person");
    assert_eq!(t.scalar, false);
    assert_eq!(t.ident, "Person");
}

#[test]
fn type_builder_rejects_empty_identifier() {
    let r = TypeBuilder::default().ident("").build();
    assert_eq!(r.unwrap_err(), ValidationError::EmptyIdentifier);
}

#[test]
fn type_builder_rejects_unset_identifier() {
    let r = TypeBuilder::default().scalar(true).build();
    assert_eq!(r.unwrap_err(), ValidationError::UninitializedField);
}

#[test]
fn type_builder_defaults_flags_to_false() {
    let t = TypeBuilder::default().ident("Thing").build().unwrap();
    assert!(!t.abs);
    assert!(!t.scalar);
    assert!(t.extends.is_none());
}

#[test]
fn annotation_builder_round_trip() {
    let a = AnnotationBuilder::default()
        .ident("title")
        .value("A title")
        .build()
        .unwrap();
    assert_eq!(a.ident, "title");
    assert_eq!(a.value, "A title");
}

#[test]
fn annotation_builder_requires_value() {
    let r = AnnotationBuilder::default().ident("title").build();
    assert_eq!(r.unwrap_err(), ValidationError::UninitializedField);
}

#[test]
fn annotation_builder_rejects_empty_identifier() {
    let r = AnnotationBuilder::default().ident("").value("v").build();
    assert_eq!(r.unwrap_err(), ValidationError::EmptyIdentifier);
}

#[test]
fn alias_builder_validates() {
    let body = AliasExprBuilder::default().sdl("select 1").build().unwrap();
    let a = AliasBuilder::default()
        .ident("One")
        .alias_expr(body)
        .build()
        .unwrap();
    assert_eq!(a.ident, "One");
    assert_eq!(a.alias_expr.sdl.as_deref(), Some("select 1"));
    assert!(a.alias_expr.ddl.is_none());

    let empty = AliasExprBuilder::default().build().unwrap();
    let r = AliasBuilder::default().ident("").alias_expr(empty).build();
    assert_eq!(r.unwrap_err(), ValidationError::EmptyIdentifier);
}

#[test]
fn property_builder_rejects_conflicting_flags() {
    let r = PropertyBuilder::default()
        .ident("name")
        .kind(PropertyKind::Abstract)
        .build();
    assert_eq!(r.unwrap_err(), ValidationError::ConflictingFlags);

    let r2 = PropertyBuilder::default()
        .ident("name")
        .kind(PropertyKind::Concrete)
        .abs(true)
        .build();
    assert_eq!(r2.unwrap_err(), ValidationError::ConflictingFlags);
}

#[test]
fn property_builder_accepts_consistent_flags() {
    let p = PropertyBuilder::default()
        .ident("name")
        .kind(PropertyKind::Abstract)
        .abs(true)
        .build()
        .unwrap();
    assert!(p.abs);
    assert_eq!(p.kind, PropertyKind::Abstract);
    assert!(p.default.is_none());

    let q = PropertyBuilder::default()
        .ident("age")
        .kind(PropertyKind::Concrete)
        .required(true)
        .build()
        .unwrap();
    assert!(q.required);
    assert!(!q.multi);
}

#[test]
fn link_builder_mirrors_property_rules() {
    let l = LinkBuilder::default()
        .ident("friends")
        .kind(LinkKind::Concrete)
        .multi(true)
        .build()
        .unwrap();
    assert!(l.multi);
    assert_eq!(l.kind, LinkKind::Concrete);

    let r = LinkBuilder::default()
        .ident("friends")
        .kind(LinkKind::Abstract)
        .build();
    assert_eq!(r.unwrap_err(), ValidationError::ConflictingFlags);
}

#[test]
fn constraint_and_leaf_builders() {
    let e = ExpressionBuilder::default().ident("__subject__ > 0").build().unwrap();
    let s = SubcommandBuilder::default()
        .using(e)
        .err_message("must be positive")
        .build()
        .unwrap();
    assert_eq!(s.err_message.as_deref(), Some("must be positive"));

    let c = ConstraintBuilder::default()
        .ident("positive")
        .delegated(true)
        .build()
        .unwrap();
    assert!(c.delegated);
    assert!(c.extends.is_none());

    let i = IndexBuilder::default().ident("by_name").build().unwrap();
    assert_eq!(i.ident, "by_name");

    let r = ExpressionBuilder::default().ident("").build();
    assert_eq!(r.unwrap_err(), ValidationError::EmptyIdentifier);
}
