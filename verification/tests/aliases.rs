use edgemorph::compiler::{AliasGenerator, CompilerContext};
use edgemorph::ir::{IRKind, ObjKindIdent};

#[test]
fn alias_without_hint_is_fixed() {
    let mut g = AliasGenerator::new();
    assert_eq!(g.get(None), "v~1");
    assert_eq!(g.get(None), "v~1");
}

#[test]
fn alias_hint_with_counter_suffix_is_keyed_by_the_suffix() {
    let mut g = AliasGenerator::new();
    // The suffix "~7" is extracted; the leading text is dropped.
    assert_eq!(g.get(Some("x~7")), "~7~1");
    // The same suffix through a different hint shares the counter.
    assert_eq!(g.get(Some("y~7")), "~7~2");
}

#[test]
fn alias_hint_without_suffix_is_kept_whole() {
    let mut g = AliasGenerator::new();
    assert_eq!(g.get(Some("plain")), "plain~1");
    // Plain hints share one counter, keyed by the empty string.
    assert_eq!(g.get(Some("other")), "other~2");
}

#[test]
fn suffix_extraction_takes_the_longest_digit_tail() {
    let mut g = AliasGenerator::new();
    // The suffix starts at the leftmost tilde whose whole tail is
    // digits; an earlier tilde with a tilde in its tail does not count.
    assert_eq!(g.get(Some("a~01~23")), "~23~1");
    // A tilde followed by non-digits does not count as a suffix.
    assert_eq!(g.get(Some("a~x1")), "a~x1~1");
}

#[test]
fn counter_values_render_in_decimal() {
    let mut g = AliasGenerator::new();
    for expected in 1..=12u32 {
        let alias = g.get(Some("v~0"));
        assert_eq!(alias, format!("~0~{}", expected));
    }
}

#[test]
fn next_val_counts_per_name() {
    let mut g = AliasGenerator::new();
    assert_eq!(g.next_val("a"), 1);
    assert_eq!(g.next_val("a"), 2);
    assert_eq!(g.next_val("b"), 1);
    assert_eq!(g.next_val("a"), 3);
}

#[test]
fn compiler_context_starts_fresh() {
    let mut ctx = CompilerContext::new();
    assert_eq!(ctx.aliases.next_val("q"), 1);
}

#[test]
fn kinds_classify_from_tags() {
    assert_eq!(IRKind::classify("property"), IRKind::property());
    assert_eq!(IRKind::classify("object"), IRKind::object());
    assert_eq!(IRKind::classify("scalar"), IRKind::scalar());
    assert_eq!(IRKind::classify("link"), IRKind::link());
    assert_eq!(IRKind::classify("tuple"), IRKind::tuple());
    assert_eq!(IRKind::classify("mystery"), IRKind::none());

    assert_eq!(IRKind::from("object"), IRKind(Some(ObjKindIdent::Object)));
    assert_eq!(IRKind::from(Some("link")), IRKind(Some(ObjKindIdent::Link)));
    assert_eq!(IRKind::from(None::<&str>), IRKind(None));
}
