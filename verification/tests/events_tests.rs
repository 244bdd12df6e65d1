use dioxus_sugar::extend::checks::extend_struct_events;
use dioxus_sugar::extend::events::{extract_event_extensions, input_struct};
use dioxus_sugar::extend::{ExtendError, ExtensionKind, FieldType, FieldsKind};
use dioxus_sugar::meta::{MetaList, MetaPath, NestedItem, NestedMeta};
use dioxus_sugar::specs::{Event, EventCategory, HtmlSpecs};

fn event(name: &str, object: &str) -> Event {
    Event { name: name.to_string(), event_object: object.to_string() }
}

fn html_specs() -> HtmlSpecs {
    let keyboard = vec![event("keydown", "KeyboardEvent"), event("keypress", "KeyboardEvent"), event("keyup", "KeyboardEvent")];
    let form = vec![event("submit", "FormEvent"), event("reset", "FormEvent")];
    let mut events = vec![event("click", "MouseEvent")];
    events.extend(keyboard.clone());
    events.extend(form.clone());
    HtmlSpecs {
        attributes: vec![],
        global_attributes: vec![],
        tags: vec![],
        tag_categories: vec![],
        events,
        event_categories: vec![
            EventCategory { name: "keyboard".to_string(), events: keyboard },
            EventCategory { name: "form_events".to_string(), events: form },
        ],
    }
}

fn path(name: &str) -> MetaPath {
    MetaPath { leading_colon: false, segments: vec![name.to_string()], text: name.to_string() }
}

fn arg(name: &str) -> NestedMeta {
    NestedMeta::Path(path(name))
}

fn exclude(items: &[&str]) -> NestedMeta {
    NestedMeta::List(MetaList { path: path("exclude"), nested: items.iter().map(|i| NestedItem::Path(path(i))).collect() })
}

#[test]
fn given_a_struct_with_event_extensions_it_should_extend_struct() {
    let specs = html_specs();
    let plan = input_struct(&specs, FieldsKind::Unit, &vec![], &vec![arg("click"), arg("keypress")]).unwrap();
    let mut names: Vec<String> = plan.fields.iter().map(|f| f.name.clone()).collect();
    names.sort();
    assert_eq!(names, vec!["click".to_string(), "keypress".to_string()]);
    for f in &plan.fields {
        let expected = if f.name == "click" { "MouseEvent" } else { "KeyboardEvent" };
        assert!(matches!(&f.ty, FieldType::Event(t) if t == expected));
    }
    assert!(plan.generics.life_time.is_none());
}

#[test]
fn given_a_struct_with_event_extensions_and_excludes_listed_it_should_extend_struct_within_limits() {
    let specs = html_specs();
    let plan = input_struct(&specs, FieldsKind::Unit, &vec![], &vec![arg("keyboard"), exclude(&["keypress"])]).unwrap();
    let mut names: Vec<String> = plan.fields.iter().map(|f| f.name.clone()).collect();
    names.sort();
    assert_eq!(names, vec!["keydown".to_string(), "keyup".to_string()]);
}

#[test]
fn expected_events_compile_failures() {
    let specs = html_specs();
    for args in [vec![arg("onclik")], vec![arg("keyboard"), exclude(&["onkyprss"])]] {
        assert!(matches!(
            input_struct(&specs, FieldsKind::Named, &vec![], &args),
            Err(ExtendError::InvalidExtension { kind: ExtensionKind::Event, .. })
        ));
    }
    for args in [vec![NestedMeta::Lit("42".to_string())], vec![NestedMeta::Lit("\"onclick\"".to_string())]] {
        assert!(matches!(
            input_struct(&specs, FieldsKind::Named, &vec![], &args),
            Err(ExtendError::InvalidArgument { arg: 0, kind: ExtensionKind::Event })
        ));
    }
    for args in [vec![arg("form_events"), exclude(&["form_events"])], vec![exclude(&["form_events"])]] {
        assert!(matches!(
            input_struct(&specs, FieldsKind::Named, &vec![], &args),
            Err(ExtendError::NoNetExtensions { kind: ExtensionKind::Event })
        ));
    }
}

#[test]
fn event_lists_do_not_take_optional_or_defaults() {
    let specs = html_specs();
    let optional = NestedMeta::List(MetaList { path: path("optional"), nested: vec![NestedItem::Path(path("click"))] });
    assert!(matches!(
        extract_event_extensions(&specs, &vec![optional]),
        Err(ExtendError::InvalidList { arg: 0, kind: ExtensionKind::Event })
    ));
}

#[test]
fn event_checks_without_fields() {
    let specs = html_specs();
    assert!(extend_struct_events(&specs, &vec![arg("keyboard"), exclude(&["keypress"])]).is_ok());
    assert!(matches!(
        extend_struct_events(&specs, &vec![arg("form_events"), exclude(&["form_events"])]),
        Err(ExtendError::NoNetExtensions { kind: ExtensionKind::Event })
    ));
    assert!(matches!(
        extend_struct_events(&specs, &vec![]),
        Err(ExtendError::NoExtensions { kind: ExtensionKind::Event })
    ));
    let optional = NestedMeta::List(MetaList { path: path("optional"), nested: vec![NestedItem::Path(path("click"))] });
    assert!(matches!(
        extend_struct_events(&specs, &vec![arg("keyboard"), optional]),
        Err(ExtendError::InvalidArgument { arg: 1, kind: ExtensionKind::Event })
    ));
}
