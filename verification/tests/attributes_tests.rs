use dioxus_sugar::extend::attributes::{extract_attribute_extensions, input_struct};
use dioxus_sugar::extend::checks::extend_struct_attributes;
use dioxus_sugar::extend::{
    ExtendError, ExtendedStruct, ExtensionKind, FieldType, FieldsKind, GenericParam,
    PropsAttribute,
};
use dioxus_sugar::meta::{MetaList, MetaNameValue, MetaPath, NestedItem, NestedMeta};
use dioxus_sugar::specs::{Attribute, AttributeValue, HtmlSpecs, Tag, TagCategory};

const GLOBALS: [&str; 14] = [
    "accesskey", "class", "contenteditable", "data-*", "dir", "draggable", "hidden", "id", "lang",
    "spellcheck", "style", "tabindex", "title", "translate",
];

fn attribute(name: &str, values: AttributeValue) -> Attribute {
    Attribute { name: name.to_string(), values }
}

fn tag(name: &str, attributes: &[&str]) -> Tag {
    Tag {
        name: name.to_string(),
        attributes: attributes.iter().map(|s| s.to_string()).collect(),
        optional_attributes: vec![],
        global_attributes: true,
    }
}

fn html_specs() -> HtmlSpecs {
    let globals: Vec<Attribute> = GLOBALS.iter().map(|n| attribute(n, AttributeValue::Other)).collect();
    let mut attributes = globals.clone();
    attributes.push(attribute("href", AttributeValue::Other));
    attributes.push(attribute("disabled", AttributeValue::Boolean));
    attributes.push(attribute("ping", AttributeValue::UrlList));
    attributes.push(attribute("autocomplete", AttributeValue::OnOff));
    attributes.push(attribute("itemscope", AttributeValue::YesNo));
    HtmlSpecs {
        attributes,
        global_attributes: globals,
        tags: vec![tag("div", &[]), tag("button", &[]), tag("a", &["href", "ping"])],
        tag_categories: vec![TagCategory { name: "interactive".to_string(), tags: vec![tag("a", &["href", "ping"])] }],
        events: vec![],
        event_categories: vec![],
    }
}

fn path(name: &str) -> MetaPath {
    MetaPath { leading_colon: false, segments: vec![name.to_string()], text: name.to_string() }
}

fn arg(name: &str) -> NestedMeta {
    NestedMeta::Path(path(name))
}

fn list(name: &str, items: &[&str]) -> NestedMeta {
    NestedMeta::List(MetaList {
        path: path(name),
        nested: items.iter().map(|i| NestedItem::Path(path(i))).collect(),
    })
}

fn sorted_names(plan: &ExtendedStruct) -> Vec<String> {
    let mut names: Vec<String> = plan.fields.iter().map(|f| f.name.clone()).collect();
    names.sort();
    names
}

fn sorted(v: &[&str]) -> Vec<String> {
    let mut names: Vec<String> = v.iter().map(|s| s.to_string()).collect();
    names.sort();
    names
}

fn field<'a>(plan: &'a ExtendedStruct, name: &str) -> &'a dioxus_sugar::extend::FieldDecl {
    plan.fields.iter().find(|f| f.name == name).unwrap()
}

#[test]
fn given_a_struct_with_attribute_extensions_it_should_extend_struct() {
    let specs = html_specs();
    let plan = input_struct(&specs, FieldsKind::Unit, &vec![], &vec![arg("href"), arg("hidden"), arg("disabled")]).unwrap();

    assert_eq!(sorted_names(&plan), sorted(&["href", "hidden", "disabled"]));
    assert!(matches!(field(&plan, "href").ty, FieldType::Str));
    assert!(matches!(field(&plan, "hidden").ty, FieldType::Str));
    assert!(matches!(field(&plan, "disabled").ty, FieldType::Bool));
    assert_eq!(plan.generics.life_time.as_deref(), Some("'a"));
    assert!(plan.generics.inserted);
}

#[test]
fn given_a_struct_with_attribute_extensions_and_existing_fields_it_should_extend_struct() {
    let specs = html_specs();
    let generics = vec![GenericParam::Lifetime("'x".to_string()), GenericParam::Type("T".to_string())];
    let plan = input_struct(&specs, FieldsKind::Named, &generics, &vec![arg("href"), arg("hidden"), arg("disabled")]).unwrap();

    assert_eq!(sorted_names(&plan), sorted(&["href", "hidden", "disabled"]));
    assert_eq!(plan.generics.life_time.as_deref(), Some("'x"));
    assert!(!plan.generics.inserted);
}

#[test]
fn given_a_struct_with_attribute_and_tag_extensions_it_should_extend_struct() {
    let specs = html_specs();
    let plan = input_struct(&specs, FieldsKind::Named, &vec![], &vec![arg("href"), arg("hidden"), arg("disabled"), arg("div")]).unwrap();

    assert_eq!(
        sorted_names(&plan),
        sorted(&[
            "id", "class", "style", "draggable", "lang", "href", "spellcheck", "title", "tabindex",
            "translate", "hidden", "dir", "contenteditable", "accesskey", "disabled",
        ])
    );
}

#[test]
fn given_a_struct_with_attribute_and_tag_extensions_and_exclude_listed_it_should_extend_struct_within_limits() {
    let specs = html_specs();
    let args = vec![arg("href"), arg("disabled"), arg("div"), list("exclude", &["id", "class", "style"])];
    let plan = input_struct(&specs, FieldsKind::Named, &vec![], &args).unwrap();

    assert_eq!(
        sorted_names(&plan),
        sorted(&[
            "draggable", "lang", "href", "spellcheck", "title", "tabindex", "translate", "hidden",
            "dir", "contenteditable", "accesskey", "disabled",
        ])
    );
}

#[test]
fn given_a_struct_with_default_attribute_extensions_it_should_extend_struct() {
    let specs = html_specs();
    let args = vec![NestedMeta::List(MetaList {
        path: path("default"),
        nested: vec![
            NestedItem::Path(path("href")),
            NestedItem::Path(path("hidden")),
            NestedItem::NameValue(MetaNameValue { path: path("disabled"), lit: "true".to_string() }),
        ],
    })];
    let plan = input_struct(&specs, FieldsKind::Unit, &vec![], &args).unwrap();

    assert_eq!(sorted_names(&plan), sorted(&["href", "hidden", "disabled"]));
    assert!(matches!(field(&plan, "href").props, PropsAttribute::Plain));
    assert!(matches!(&field(&plan, "disabled").props, PropsAttribute::DefaultValue(v) if v == "true"));
    assert!(!field(&plan, "disabled").optional);
}

#[test]
fn given_a_struct_with_optional_attribute_extensions_it_should_extend_struct() {
    let specs = html_specs();
    let plan = input_struct(&specs, FieldsKind::Unit, &vec![], &vec![list("optional", &["href", "hidden", "disabled"])]).unwrap();

    assert_eq!(sorted_names(&plan), sorted(&["href", "hidden", "disabled"]));
    for f in &plan.fields {
        assert!(f.optional);
        assert!(matches!(f.props, PropsAttribute::Optional));
    }
    assert!(matches!(field(&plan, "disabled").ty, FieldType::Bool));
}

#[test]
fn given_a_struct_with_tag_extensions_it_should_extend_struct() {
    let specs = html_specs();
    let plan = input_struct(&specs, FieldsKind::Named, &vec![], &vec![arg("button"), arg("div")]).unwrap();

    assert_eq!(
        sorted_names(&plan),
        sorted(&[
            "accesskey", "class", "contenteditable", "dir", "draggable", "hidden", "id", "lang",
            "spellcheck", "style", "tabindex", "title", "translate",
        ])
    );
}

#[test]
fn expected_attributes_compile_failures() {
    let specs = html_specs();
    for args in [
        vec![arg("divv")],
        vec![arg("div"), list("exclude", &["hrf"])],
        vec![arg("div"), list("default", &["hrf"])],
        vec![arg("div"), list("optional", &["hrf"])],
    ] {
        assert!(matches!(
            input_struct(&specs, FieldsKind::Named, &vec![], &args),
            Err(ExtendError::InvalidExtension { kind: ExtensionKind::Attribute, .. })
        ));
    }
    for args in [
        vec![arg("href"), arg("div"), list("exclude", &["href", "div", "class"])],
        vec![list("exclude", &["href", "div", "class"])],
        vec![arg("global"), list("exclude", &GLOBALS)],
    ] {
        assert!(matches!(
            input_struct(&specs, FieldsKind::Named, &vec![], &args),
            Err(ExtendError::NoNetExtensions { kind: ExtensionKind::Attribute })
        ));
    }
}

#[test]
fn an_invalid_name_is_reported_with_its_place() {
    let specs = html_specs();
    match extract_attribute_extensions(&specs, &vec![arg("div"), list("exclude", &["id", "hrf"])]) {
        Err(ExtendError::InvalidExtension { arg, item, text, .. }) => {
            assert_eq!(arg, 1);
            assert_eq!(item, Some(1));
            assert_eq!(text, "hrf");
        }
        other => panic!("unexpected {:?}", other),
    }
}

#[test]
fn lists_other_than_exclude_optional_and_default_are_refused() {
    let specs = html_specs();
    assert!(matches!(
        extract_attribute_extensions(&specs, &vec![list("only", &["href"])]),
        Err(ExtendError::InvalidList { arg: 0, kind: ExtensionKind::Attribute })
    ));
    assert!(matches!(
        extract_attribute_extensions(&specs, &vec![NestedMeta::Lit("1".to_string())]),
        Err(ExtendError::InvalidArgument { arg: 0, .. })
    ));
    assert!(matches!(
        extract_attribute_extensions(&specs, &vec![]),
        Err(ExtendError::NoExtensions { kind: ExtensionKind::Attribute })
    ));
}

#[test]
fn tuple_structs_are_refused() {
    let specs = html_specs();
    assert!(matches!(
        input_struct(&specs, FieldsKind::Unnamed, &vec![], &vec![arg("href")]),
        Err(ExtendError::UnnamedFields)
    ));
}

#[test]
fn boolean_and_yes_no_attributes_alone_need_no_lifetime() {
    let specs = html_specs();
    let plan = input_struct(&specs, FieldsKind::Named, &vec![], &vec![arg("disabled"), arg("itemscope")]).unwrap();
    assert!(matches!(field(&plan, "disabled").ty, FieldType::Bool));
    assert!(matches!(field(&plan, "itemscope").ty, FieldType::Str));
    assert!(plan.generics.life_time.is_none());
    assert!(!plan.generics.inserted);
    let on_off = input_struct(&specs, FieldsKind::Named, &vec![], &vec![arg("autocomplete")]).unwrap();
    assert!(matches!(on_off.fields[0].ty, FieldType::Bool));
    assert_eq!(on_off.generics.life_time.as_deref(), Some("'a"));
    assert!(on_off.generics.inserted);
}

#[test]
fn url_lists_and_tag_categories_expand() {
    let specs = html_specs();
    let plan = input_struct(&specs, FieldsKind::Named, &vec![], &vec![arg("interactive"), list("exclude", &["global"])]).unwrap();
    assert_eq!(sorted_names(&plan), sorted(&["href", "ping"]));
    assert!(matches!(field(&plan, "ping").ty, FieldType::StrList));
}

#[test]
fn a_later_listing_of_the_same_name_replaces_an_earlier_one() {
    let specs = html_specs();
    let args = vec![arg("href"), list("optional", &["href"])];
    let extensions = extract_attribute_extensions(&specs, &args).unwrap();
    assert_eq!(extensions.len(), 1);
    assert!(extensions[0].optional);
}

#[test]
fn argument_checks_without_fields() {
    let specs = html_specs();
    assert!(extend_struct_attributes(&specs, &vec![arg("href"), arg("global")]).is_ok());
    assert!(matches!(
        extend_struct_attributes(&specs, &vec![arg("global"), list("exclude", &["accesskey", "class", "contenteditable", "data", "dir", "draggable", "hidden", "id", "lang", "spellcheck", "style", "tabindex", "title", "translate"])]),
        Err(ExtendError::InvalidExtension { .. })
    ));
    assert!(matches!(
        extend_struct_attributes(&specs, &vec![arg("interactive"), list("exclude", &["a"])]),
        Err(ExtendError::NoNetExtensions { .. })
    ));
    assert!(matches!(
        extend_struct_attributes(&specs, &vec![list("default", &["a"])]),
        Err(ExtendError::InvalidArgument { arg: 0, kind: ExtensionKind::Attribute })
    ));
}

#[test]
fn argument_checks_trim_pattern_names() {
    let mut specs = html_specs();
    specs.attributes.push(attribute("data", AttributeValue::Other));
    let all_globals = ["accesskey", "class", "contenteditable", "data", "dir", "draggable", "hidden", "id", "lang", "spellcheck", "style", "tabindex", "title", "translate"];
    assert!(matches!(
        extend_struct_attributes(&specs, &vec![arg("global"), list("exclude", &all_globals)]),
        Err(ExtendError::NoNetExtensions { kind: ExtensionKind::Attribute })
    ));
    assert!(extend_struct_attributes(&specs, &vec![arg("global"), list("exclude", &all_globals[1..])]).is_ok());
}

fn extension_names(args: &Vec<NestedMeta>) -> Result<Vec<String>, ExtendError> {
    let specs = html_specs();
    extract_attribute_extensions(&specs, args).map(|v| {
        let mut names: Vec<String> = v.iter().map(|e| e.name.clone()).collect();
        names.sort();
        names
    })
}

#[test]
fn argument_order_does_not_change_the_extensions() {
    let forward = vec![arg("a"), list("exclude", &["ping", "global"]), arg("hidden"), arg("disabled")];
    let backward = vec![arg("disabled"), arg("hidden"), list("exclude", &["global", "ping"]), arg("a"), arg("a")];
    let names = extension_names(&forward).unwrap();
    assert_eq!(names, sorted(&["disabled", "href"]));
    assert_eq!(extension_names(&backward).unwrap(), names);
}

#[test]
fn argument_order_does_not_change_refusals() {
    let forward = vec![arg("href"), list("exclude", &["href"])];
    let backward = vec![list("exclude", &["href"]), arg("href")];
    assert!(matches!(extension_names(&forward), Err(ExtendError::NoNetExtensions { kind: ExtensionKind::Attribute })));
    assert!(matches!(extension_names(&backward), Err(ExtendError::NoNetExtensions { kind: ExtensionKind::Attribute })));
}
