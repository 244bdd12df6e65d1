use dioxus_sugar::class::{
    class_attribute_position, impl_display_for_struct, ArgumentKind, ClassError, Field,
    FieldAttribute, ItemStruct,
};
use dioxus_sugar::meta::{MetaList, MetaNameValue, MetaPath, NestedMeta};

fn path(segments: &[&str]) -> MetaPath {
    MetaPath {
        leading_colon: false,
        segments: segments.iter().map(|s| s.to_string()).collect(),
        text: segments.join(" :: "),
    }
}

fn arg(name: &str) -> NestedMeta {
    NestedMeta::Path(path(&[name]))
}

fn attribute(name: &str) -> FieldAttribute {
    FieldAttribute { first_segment: Some(name.to_string()) }
}

fn field(name: &str, attrs: &[&str]) -> Field {
    Field { ident: Some(name.to_string()), attrs: attrs.iter().map(|a| attribute(a)).collect() }
}

fn item(name: &str, fields: Vec<Field>) -> ItemStruct {
    ItemStruct { ident: name.to_string(), fields }
}

fn values(v: &[&str]) -> Vec<String> {
    v.iter().map(|s| s.to_string()).collect()
}

#[test]
fn given_a_struct_with_fields_listed_in_classes_attr_should_display_fields() {
    let mut sut = item("Sut", vec![field("_field_one", &[]), field("other_field", &[])]);
    let display = impl_display_for_struct(&mut sut, &vec![arg("other_field")]).unwrap();

    assert_eq!(display.struct_name, "Sut");
    assert_eq!(display.fields, values(&["other_field"]));
    assert_eq!(display.format, "{}");
    assert_eq!("jk1", display.render(&values(&["jk1"])));
}

#[test]
fn given_a_struct_with_fields_decorated_with_class_attr_should_display_fields() {
    let mut sut = item("Sut", vec![field("_field_one", &[]), field("other_field", &["class"])]);
    let display = impl_display_for_struct(&mut sut, &vec![]).unwrap();

    assert_eq!(display.fields, values(&["other_field"]));
    assert_eq!("jk1", display.render(&values(&["jk1"])));
    assert!(sut.fields[1].attrs.is_empty());
}

#[test]
fn given_a_struct_with_class_fields_and_classes_attr_should_display_fields() {
    let mut sut = item("Sut", vec![field("field_one", &[]), field("other_field", &["class"])]);
    let display = impl_display_for_struct(&mut sut, &vec![arg("field_one")]).unwrap();

    assert_eq!(display.fields, values(&["field_one", "other_field"]));
    assert_eq!(display.format, "{} {}");
    assert_eq!("Jack jk1", display.render(&values(&["Jack", "jk1"])));
}

#[test]
fn duplicate_class_declarations_are_refused_and_listed_sorted() {
    let mut multiple = item("PropsMultipleDupes", vec![field("name", &["class"]), field("id", &["class"])]);
    match impl_display_for_struct(&mut multiple, &vec![arg("name"), arg("id")]) {
        Err(ClassError::DuplicateClasses { names }) => assert_eq!(names, values(&["id", "name"])),
        other => panic!("unexpected {:?}", other),
    }

    let mut single = item("PropsSingleDupe", vec![field("name", &["class"]), field("id", &["class"])]);
    match impl_display_for_struct(&mut single, &vec![arg("name")]) {
        Err(ClassError::DuplicateClasses { names }) => assert_eq!(names, values(&["name"])),
        other => panic!("unexpected {:?}", other),
    }
}

#[test]
fn a_struct_without_selected_fields_is_refused() {
    let mut sut = item("Props", vec![field("name", &["other"])]);
    match impl_display_for_struct(&mut sut, &vec![]) {
        Err(ClassError::NoClassFields { struct_name }) => assert_eq!(struct_name, "Props"),
        other => panic!("unexpected {:?}", other),
    }
}

#[test]
fn unsupported_arguments_are_refused_without_touching_the_struct() {
    let cases = vec![
        (NestedMeta::Path(path(&["a", "b"])), ArgumentKind::Paths, "paths"),
        (NestedMeta::List(MetaList { path: path(&["a"]), nested: vec![] }), ArgumentKind::Lists, "lists"),
        (
            NestedMeta::NameValue(MetaNameValue { path: path(&["a"]), lit: "1".to_string() }),
            ArgumentKind::NamedValues,
            "named values",
        ),
        (NestedMeta::Lit("\"a\"".to_string()), ArgumentKind::Literals, "literals"),
    ];
    for (bad, kind, description) in cases {
        let mut sut = item("Sut", vec![field("one", &["class"])]);
        match impl_display_for_struct(&mut sut, &vec![arg("one"), bad]) {
            Err(ClassError::UnsupportedArgument { arg, kind: k }) => {
                assert_eq!(arg, 1);
                assert_eq!(k, kind);
                assert_eq!(k.description(), description);
            }
            other => panic!("unexpected {:?}", other),
        }
        assert_eq!(sut.fields[0].attrs.len(), 1);
    }
}

#[test]
fn only_the_first_class_attribute_of_a_field_is_removed() {
    let mut sut = item("Sut", vec![field("one", &["doc", "class", "class"])]);
    assert_eq!(class_attribute_position(&sut.fields[0].attrs), Some(1));
    let display = impl_display_for_struct(&mut sut, &vec![]).unwrap();
    assert_eq!(display.fields, values(&["one"]));
    let remaining: Vec<Option<String>> = sut.fields[0].attrs.iter().map(|a| a.first_segment.clone()).collect();
    assert_eq!(remaining, vec![Some("doc".to_string()), Some("class".to_string())]);
}

#[test]
fn unnamed_fields_marked_class_lose_the_attribute_but_are_not_written() {
    let mut sut = item(
        "Sut",
        vec![Field { ident: None, attrs: vec![attribute("class")] }, field("two", &["class"])],
    );
    let display = impl_display_for_struct(&mut sut, &vec![]).unwrap();
    assert_eq!(display.fields, values(&["two"]));
    assert!(sut.fields[0].attrs.is_empty());
}

#[test]
fn three_fields_render_with_single_spaces() {
    let mut sut = item("Sut", vec![field("a", &["class"]), field("b", &["class"]), field("c", &["class"])]);
    let display = impl_display_for_struct(&mut sut, &vec![]).unwrap();
    assert_eq!(display.format, "{} {} {}");
    assert_eq!(display.render(&values(&["x", "", "z"])), "x  z");
}
