use std::cmp::Ordering;

use dioxus_sugar::apply::attributes::{
    expand_all_attributes, filter_attribute, item_kind, parse_attributes, valid_attribute, ApplyAttributes,
    ApplyError, ApplyItem, ItemKind, Property,
};
use dioxus_sugar::common::attributes_of_tag;
use dioxus_sugar::specs::{Attribute, AttributeValue, HtmlSpecs, Tag, TagCategory};

fn attribute(name: &str) -> Attribute {
    Attribute { name: name.to_string(), values: AttributeValue::Other }
}

fn html_specs() -> HtmlSpecs {
    let globals: Vec<Attribute> = ["accesskey", "class", "data-*", "id", "title"].iter().map(|n| attribute(n)).collect();
    let mut attributes = globals.clone();
    attributes.push(attribute("href"));
    attributes.push(attribute("target"));
    let a = Tag {
        name: "a".to_string(),
        attributes: vec!["href".to_string(), "unknown".to_string()],
        optional_attributes: vec!["target".to_string()],
        global_attributes: true,
    };
    let span = Tag { name: "span".to_string(), attributes: vec![], optional_attributes: vec![], global_attributes: false };
    HtmlSpecs {
        attributes,
        global_attributes: globals,
        tags: vec![a, span],
        tag_categories: vec![TagCategory {
            name: "phrasing".to_string(),
            tags: vec![Tag { name: "span".to_string(), attributes: vec!["title".to_string()], optional_attributes: vec![], global_attributes: false }],
        }],
        events: vec![],
        event_categories: vec![],
    }
}

fn s(v: &str) -> String {
    v.to_string()
}

fn names(props: &[Property]) -> Vec<(bool, String)> {
    props.iter().map(|p| (matches!(p, Property::Optional(_)), p.as_ref().to_string())).collect()
}

#[test]
fn remap_keeps_the_variant() {
    let optional = Property::Optional(s("a")).remap(s("b"));
    assert!(matches!(optional, Property::Optional(ref v) if v == "b"));
    let required = Property::Required(s("a")).remap(s("c"));
    assert!(matches!(required, Property::Required(ref v) if v == "c"));
}

#[test]
fn properties_order_by_name_alone() {
    let a = Property::Optional(s("alpha"));
    let b = Property::Required(s("beta"));
    assert_eq!(a.cmp(&b), Ordering::Less);
    assert_eq!(b.cmp(&a), Ordering::Greater);
    assert_eq!(a.cmp(&Property::Required(s("alpha"))), Ordering::Equal);
    assert_eq!(a.partial_cmp(&b), Some(Ordering::Less));
    assert!(!a.same_as(&Property::Required(s("alpha"))));
    assert!(a.same_as(&Property::Optional(s("alpha"))));
    assert_eq!(a.format_parameter(), "{:?}");
    assert_eq!(b.format_parameter(), "{}");
}

#[test]
fn a_tag_takes_its_own_then_optional_then_global_attributes() {
    let specs = html_specs();
    let attrs = attributes_of_tag(&specs, &specs.tags[0]);
    let names: Vec<&str> = attrs.iter().map(|a| a.name.as_str()).collect();
    assert_eq!(names, vec!["href", "target", "accesskey", "class", "data-*", "id", "title"]);
    assert!(attributes_of_tag(&specs, &specs.tags[1]).is_empty());
}

#[test]
fn data_attributes_are_filtered() {
    assert_eq!(filter_attribute(&attribute("data-*")), None);
    assert_eq!(filter_attribute(&attribute("title")), Some(s("title")));
}

#[test]
fn validity_of_names() {
    let specs = html_specs();
    for good in ["global", "href", "a", "phrasing"] {
        assert!(valid_attribute(&specs, &s(good)));
    }
    assert!(!valid_attribute(&specs, &s("hrf")));
}

#[test]
fn expansion_is_a_set() {
    let specs = html_specs();
    let expanded = expand_all_attributes(&specs, &vec![Property::Required(s("a")), Property::Required(s("href")), Property::Optional(s("href"))]);
    let mut n = names(&expanded);
    n.sort();
    assert_eq!(
        n,
        vec![
            (false, s("accesskey")),
            (false, s("class")),
            (false, s("href")),
            (false, s("id")),
            (false, s("target")),
            (false, s("title")),
            (true, s("href")),
        ]
    );
}

#[test]
fn attribute_lists_are_expanded_excluded_and_sorted() {
    let specs = html_specs();
    let items = vec![
        ApplyItem::Name(s("a")),
        ApplyItem::Optional(vec![s("phrasing")]),
        ApplyItem::Exclude(vec![s("class"), s("title")]),
    ];
    let attributes = parse_attributes(&specs, &items).unwrap();
    assert_eq!(
        names(&attributes),
        vec![(false, s("accesskey")), (false, s("href")), (false, s("id")), (false, s("target"))]
    );

    let apply = ApplyAttributes::parse(&specs, s("div"), &vec![ApplyItem::Name(s("global")), ApplyItem::Exclude(vec![s("id")])]).unwrap();
    assert_eq!(apply.element, "div");
    assert_eq!(names(&apply.attributes), vec![(false, s("accesskey")), (false, s("class")), (false, s("title"))]);
}

#[test]
fn an_invalid_name_refuses_the_list() {
    let specs = html_specs();
    let items = vec![ApplyItem::Name(s("a")), ApplyItem::Exclude(vec![s("id"), s("hrf")]), ApplyItem::Name(s("zzz"))];
    match parse_attributes(&specs, &items) {
        Err(ApplyError::InvalidAttribute { name }) => assert_eq!(name, "hrf"),
        other => panic!("unexpected {:?}", other),
    }
}

#[test]
fn item_kinds_are_told_by_their_path() {
    assert_eq!(item_kind("exclude"), ItemKind::Exclude);
    assert_eq!(item_kind("optional"), ItemKind::Optional);
    assert_eq!(item_kind("href"), ItemKind::Name);
    assert_eq!(item_kind("excluded"), ItemKind::Name);
}
