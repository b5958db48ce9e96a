use kermlc::diagnostic::DiagnosticSink;
use kermlc::interner::StringInterner;
use kermlc::lower::lower_ast;
use kermlc::parser::Parser;
use kermlc::resolve::{emit_unresolved_errors, resolve_pass};
use kermlc::serial::{build_elements, element_id_text, BoundValue, Element};
use kermlc::source_map::SourceMap;
use kermlc::typeck::typecheck_pass;

fn compile_to_elements(input: &str) -> Vec<Element> {
    let mut interner = StringInterner::new();
    let mut source_map = SourceMap::new();
    let mut sink = DiagnosticSink::new();
    let file_id = source_map.add_file("test.kerml".into(), input.into());
    let parse = Parser::parse(input, file_id, &mut interner, &mut sink);
    let mut model = lower_ast(&parse, &mut interner, &mut sink);

    for _ in 0..10 {
        let r = resolve_pass(&mut model, &interner, &mut sink);
        let t = typecheck_pass(&mut model, &interner, &mut sink);
        if !r && !t {
            break;
        }
    }
    emit_unresolved_errors(&model, &interner, &mut sink);

    build_elements(&model, &interner)
}

fn named<'a>(elements: &'a [Element], name: &str) -> &'a Element {
    elements.iter().find(|e| e.name == name).unwrap()
}

#[test]
fn serialize_simple_package() {
    let value = compile_to_elements("package Foo { type Bar {} }");
    assert!(!value.is_empty());
    assert_eq!(value[0].at_type, "Package");
    assert_eq!(value[0].name, "Foo");
}

#[test]
fn serialize_type_with_specialization() {
    let value = compile_to_elements("package P { type A {} type B :> A {} }");

    let b_elem = named(&value, "B");
    assert_eq!(b_elem.at_type, "Type");
    assert!(!b_elem.owned_specializations.is_empty());
}

#[test]
fn serialize_feature_with_typing() {
    let value = compile_to_elements("package P { type A {} type B { feature x : A [0..1]; } }");

    let x_elem = named(&value, "x");
    assert_eq!(x_elem.at_type, "Feature");
    assert!(x_elem.owned_typing.is_some());
    assert!(x_elem.owned_multiplicity.is_some());
}

#[test]
fn serialize_feature_direction() {
    let value = compile_to_elements("package P { type T { in feature f : T; out feature g : T; } }");

    let f_elem = named(&value, "f");
    assert_eq!(f_elem.direction.as_deref(), Some("in"));

    let g_elem = named(&value, "g");
    assert_eq!(g_elem.direction.as_deref(), Some("out"));
}

#[test]
fn serialize_inherited_features_with_conjugation() {
    let value = compile_to_elements(
        r#"package P {
            type A {
                in feature f : A;
                out feature g : A;
            }
            type B ~ A {}
        }"#,
    );

    let b_elem = named(&value, "B");
    let inherited = &b_elem.inherited_features;
    assert!(!inherited.is_empty(), "B should have inheritedFeature");
    assert_eq!(inherited.len(), 2);

    for inh in inherited {
        assert!(inh.direction.is_some());
    }
}

#[test]
fn output_is_valid_json() {
    let value = compile_to_elements("package P { type A { feature f : A; } }");
    assert_eq!(value.len(), 3);
    for (i, e) in value.iter().enumerate() {
        let prefix = e.at_type.to_lowercase();
        assert_eq!(e.id, format!("{}-{}", prefix, i));
    }
}

#[test]
fn serialize_multiplicity_with_feature_ref() {
    let value = compile_to_elements("package P { type T { feature n : T; feature x : T [1..n]; } }");

    let x_elem = named(&value, "x");
    let (lower, upper) = x_elem.owned_multiplicity.as_ref().unwrap();
    assert!(matches!(lower, BoundValue::Count(1)));
    assert!(
        matches!(upper, BoundValue::Reference(Some(name)) if name == "n"),
        "upper bound should serialize as FeatureReferenceExpression"
    );
}

#[test]
fn element_ids_and_owners() {
    let value = compile_to_elements("package P { type A { feature f : A; } }");
    assert_eq!(value[0].id, "package-0");
    assert_eq!(value[1].id, "type-1");
    assert_eq!(value[2].id, "feature-2");
    assert_eq!(value[0].owned_members, vec!["type-1".to_string()]);
    assert_eq!(value[1].owned_members, vec!["feature-2".to_string()]);
    assert_eq!(value[0].owner, None);
    assert_eq!(value[1].owner.as_deref(), Some("package-0"));
    assert_eq!(value[2].owner.as_deref(), Some("type-1"));
    assert_eq!(value[2].owned_typing.as_deref(), Some("type-1"));
}

#[test]
fn specialization_and_conjugation_targets() {
    let value = compile_to_elements("package P { type A {} type B :> A {} type C ~ A {} }");
    let b = named(&value, "B");
    assert_eq!(b.owned_specializations, vec!["type-1".to_string()]);
    assert_eq!(b.owned_conjugator, None);
    let c = named(&value, "C");
    assert_eq!(c.owned_conjugator.as_deref(), Some("type-1"));
    assert!(c.owned_specializations.is_empty());
}

#[test]
fn unbounded_and_unresolved_bounds() {
    let value = compile_to_elements("package P { type T { feature x : T [0..*]; feature y : T [2..m]; } }");
    let x = named(&value, "x");
    let (lo, hi) = x.owned_multiplicity.as_ref().unwrap();
    assert!(matches!(lo, BoundValue::Count(0)));
    assert!(matches!(hi, BoundValue::Many));
    let y = named(&value, "y");
    let (lo, hi) = y.owned_multiplicity.as_ref().unwrap();
    assert!(matches!(lo, BoundValue::Count(2)));
    assert!(matches!(hi, BoundValue::Reference(None)));
}

#[test]
fn types_carry_no_feature_fields() {
    let value = compile_to_elements("package P { type T {} }");
    let t = named(&value, "T");
    assert!(t.owned_typing.is_none());
    assert!(t.owned_multiplicity.is_none());
    assert!(t.direction.is_none());
    assert!(t.owned_feature_chaining.is_empty());
    assert!(t.inherited_features.is_empty());
}

#[test]
fn element_id_text_writes_decimal() {
    assert_eq!(element_id_text("type", 0), "type-0");
    assert_eq!(element_id_text("feature", 1234), "feature-1234");
    assert_eq!(element_id_text("package", u32::MAX), "package-4294967295");
}

#[test]
fn json_serialization_produces_valid_json() {
    let result = kermlc::compile_source("package Foo { type Bar {} }", "test.kerml").unwrap();
    assert!(!result.sink.has_errors());

    let elements = build_elements(&result.model, &result.interner);
    assert!(!elements.is_empty());
    assert_eq!(elements.len(), result.model.defs.len());
    assert_eq!(elements[0].id, "package-0");
    assert_eq!(elements[1].owned_specializations, vec!["type-2".to_string()]);
}
