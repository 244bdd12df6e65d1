//! The `attributes` macro: extends a properties struct with one field per HTML
//! attribute listed by name, by tag, by tag category or as `global`.
use vstd::prelude::*;

use crate::common::{attributes_of_tag, tag_attributes};
use crate::extend::{
    excluded_name, lemma_deduplicated, lemma_net_membership, same_key,
    deduplicate_extensions, deduplicated, extend_input_struct, extension_fields, net_extensions,
    net_of, nothing_net, parse_arguments, parse_extensions_args, plans_generics, validate_extension,
    ExtendError, ExtendedStruct, Extension, ExtensionKind, FieldDecl, FieldType, FieldsKind, GenericParam,
};
use crate::extend::listings::{
    has_listing, lemma_listings_concat, lemma_listings_push, lemma_netting_by_listings, lemma_same_arguments_parse,
    same_arguments, same_listings,
};
use crate::meta::{MetaPath, NestedMeta};
use crate::named::{find_first, has_name};
use crate::specs::{Attribute, AttributeValue, HtmlSpecs, Tag};
use crate::text::{copy_optional, has_prefix, starts_with, text_equal};

verus! {

/// A `data-*` attribute, which is never added through a tag, a category or `global`.
pub open spec fn is_data_attribute(a: Attribute) -> bool {
    has_prefix(a.name@, "data-"@)
}

/// One extension per attribute of `attrs` that is not a `data-*` one, carrying
/// the flags and default of `e`.
pub open spec fn attribute_extensions(attrs: Seq<Attribute>, e: Extension) -> Seq<Extension>
    decreases attrs.len(),
{
    if attrs.len() == 0 {
        seq![]
    } else {
        let prefix = attribute_extensions(attrs.drop_last(), e);
        let a = attrs.last();
        if is_data_attribute(a) {
            prefix
        } else {
            prefix.push(Extension { name: a.name, exclude: e.exclude, optional: e.optional, default: e.default })
        }
    }
}

/// The attributes of the tags of a category, tag after tag.
pub open spec fn category_attributes(specs: HtmlSpecs, tags: Seq<Tag>) -> Seq<Attribute>
    decreases tags.len(),
{
    if tags.len() == 0 {
        seq![]
    } else {
        category_attributes(specs, tags.drop_last()) + tag_attributes(specs, tags.last())
    }
}

/// What one listed name stands for: `global` for the global attributes, an
/// attribute for itself, a tag for its attributes, a tag category for the
/// attributes of its tags. A name that is none of these (which checked
/// arguments never hold) stands for nothing.
pub open spec fn expand_attribute_extension(specs: HtmlSpecs, e: Extension) -> Seq<Extension> {
    if e.name@ == "global"@ {
        attribute_extensions(specs.global_attributes@, e)
    } else if has_name(specs.attributes@, e.name@) {
        seq![e]
    } else {
        match find_first(specs.tags@, e.name@) {
            Some(t) => attribute_extensions(tag_attributes(specs, t), e),
            None => match find_first(specs.tag_categories@, e.name@) {
                Some(c) => attribute_extensions(category_attributes(specs, c.tags@), e),
                None => seq![],
            },
        }
    }
}

/// What the listed names stand for, in order.
pub open spec fn expand_attribute_extensions(specs: HtmlSpecs, s: Seq<Extension>) -> Seq<Extension>
    decreases s.len(),
{
    if s.len() == 0 {
        seq![]
    } else {
        expand_attribute_extensions(specs, s.drop_last()) + expand_attribute_extension(specs, s.last())
    }
}

/// The attribute extensions the arguments call for: parsed, expanded, one per
/// (name, exclusion) with the last listing winning, and netted.
pub open spec fn extracted_attribute_extensions(specs: HtmlSpecs, args: Seq<NestedMeta>) -> Result<Seq<Extension>, ExtendError> {
    match parse_arguments(specs, ExtensionKind::Attribute, true, args) {
        Err(e) => Err(e),
        Ok(parsed) => {
            let d = deduplicated(expand_attribute_extensions(specs, parsed), true);
            if d.len() == 0 {
                Err(ExtendError::NoExtensions { kind: ExtensionKind::Attribute })
            } else if nothing_net(d) {
                Err(ExtendError::NoNetExtensions { kind: ExtensionKind::Attribute })
            } else {
                Ok(net_of(d, d))
            }
        },
    }
}

/// The values of the attribute are `true`/`false` or `yes`/`no`: attributes
/// of these kinds alone call for no lifetime.
pub open spec fn is_flag_attribute(a: Attribute) -> bool {
    a.values == AttributeValue::Boolean || a.values == AttributeValue::YesNo
}

/// Whether the fields for `s` need a lifetime: yes at the first extension whose
/// attribute takes neither `true`/`false` nor `yes`/`no`; an error at an
/// earlier extension with no attribute.
pub open spec fn lifetime_required(specs: HtmlSpecs, s: Seq<Extension>) -> Result<bool, ExtendError>
    decreases s.len(),
{
    if s.len() == 0 {
        Ok(false)
    } else {
        match find_first(specs.attributes@, s[0].name@) {
            None => Err(ExtendError::AttributeNotFound { name: s[0].name }),
            Some(a) => if is_flag_attribute(a) {
                lifetime_required(specs, s.drop_first())
            } else {
                Ok(true)
            },
        }
    }
}

/// Expanding a concatenation expands each part.
proof fn lemma_attribute_extensions_append(a: Seq<Attribute>, b: Seq<Attribute>, e: Extension)
    ensures
        attribute_extensions(a + b, e) == attribute_extensions(a, e) + attribute_extensions(b, e),
    decreases b.len(),
{
    if b.len() == 0 {
        assert(a + b =~= a);
        assert(attribute_extensions(a, e) + attribute_extensions(b, e) =~= attribute_extensions(a, e));
    } else {
        assert((a + b).drop_last() =~= a + b.drop_last());
        lemma_attribute_extensions_append(a, b.drop_last(), e);
        assert((a + b).last() == b.last());
        assert(attribute_extensions(a, e) + attribute_extensions(b.drop_last(), e).push(
            Extension { name: b.last().name, exclude: e.exclude, optional: e.optional, default: e.default },
        ) =~= (attribute_extensions(a, e) + attribute_extensions(b.drop_last(), e)).push(
            Extension { name: b.last().name, exclude: e.exclude, optional: e.optional, default: e.default },
        ));
    }
}

/// Whether the name is a valid attribute, tag, `global` or tag category.
pub fn validate_attribute_extension(specs: &HtmlSpecs, path: &MetaPath) -> (r: bool)
    ensures
        r == crate::extend::is_valid_extension(*specs, ExtensionKind::Attribute, path.text@),
{
    validate_extension(specs, ExtensionKind::Attribute, &path.text)
}

/// The extension for `attr` carrying the flags and default of `ext`, unless
/// `attr` is a `data-*` attribute.
pub fn filter_attribute_key_value(ext: &Extension, attr: &Attribute) -> (r: Option<Extension>)
    ensures
        is_data_attribute(*attr) ==> r is None,
        !is_data_attribute(*attr) ==> r == Some(
            Extension { name: attr.name, exclude: ext.exclude, optional: ext.optional, default: ext.default },
        ),
{
    if starts_with(attr.name.as_str(), "data-") {
        None
    } else {
        Some(
            Extension {
                name: attr.name.clone(),
                exclude: ext.exclude,
                optional: ext.optional,
                default: copy_optional(&ext.default),
            },
        )
    }
}

/// Appends to `out` the extensions for the attributes `attrs`.
fn push_attribute_extensions(attrs: &Vec<Attribute>, e: &Extension, out: &mut Vec<Extension>)
    ensures
        final(out)@ == old(out)@ + attribute_extensions(attrs@, *e),
{
    let ghost base = out@;
    let mut i: usize = 0;
    assert(attrs@.take(0) =~= Seq::<Attribute>::empty());
    assert(base + Seq::<Extension>::empty() =~= base);
    while i < attrs.len()
        invariant
            i <= attrs.len(),
            out@ == base + attribute_extensions(attrs@.take(i as int), *e),
        decreases attrs.len() - i,
    {
        assert(attrs@.take(i + 1).drop_last() =~= attrs@.take(i as int));
        match filter_attribute_key_value(e, &attrs[i]) {
            Some(x) => {
                out.push(x);
                assert(out@ =~= base + attribute_extensions(attrs@.take(i + 1), *e));
            },
            None => {},
        }
        i = i + 1;
    }
    assert(attrs@.take(attrs.len() as int) =~= attrs@);
}

/// Appends to `out` what one listed name stands for.
fn push_expansion(specs: &HtmlSpecs, e: &Extension, out: &mut Vec<Extension>)
    ensures
        final(out)@ == old(out)@ + expand_attribute_extension(*specs, *e),
{
    if text_equal(e.name.as_str(), "global") {
        push_attribute_extensions(&specs.global_attributes, e, out);
    } else if specs.is_valid_attribute(&e.name) {
        out.push(e.clone());
    } else if let Some(tag) = specs.get_tag(&e.name) {
        let attrs = attributes_of_tag(specs, tag);
        push_attribute_extensions(&attrs, e, out);
    } else if let Some(category) = specs.get_tag_category(&e.name) {
        let ghost base = out@;
        let mut i: usize = 0;
        assert(category.tags@.take(0) =~= Seq::<Tag>::empty());
        assert(base + Seq::<Extension>::empty() =~= base);
        while i < category.tags.len()
            invariant
                i <= category.tags.len(),
                out@ == base + attribute_extensions(category_attributes(*specs, category.tags@.take(i as int)), *e),
            decreases category.tags.len() - i,
        {
            let ghost prev = category.tags@.take(i as int);
            assert(category.tags@.take(i + 1).drop_last() =~= prev);
            let attrs = attributes_of_tag(specs, &category.tags[i]);
            let ghost before = out@;
            push_attribute_extensions(&attrs, e, out);
            proof {
                lemma_attribute_extensions_append(
                    category_attributes(*specs, prev),
                    tag_attributes(*specs, category.tags@[i as int]),
                    *e,
                );
            }
            assert(out@ =~= base + attribute_extensions(category_attributes(*specs, category.tags@.take(i + 1)), *e));
            i = i + 1;
        }
        assert(category.tags@.take(category.tags.len() as int) =~= category.tags@);
    } else {
        assert(out@ + Seq::<Extension>::empty() =~= out@);
    }
}

/// The attribute extensions the arguments call for: the listed names (checked
/// against `specs`) expanded to attributes, one per (name, exclusion) with the
/// last listing winning, then netted. Refused when nothing is listed or when
/// everything listed is excluded.
pub fn extract_attribute_extensions(specs: &HtmlSpecs, args: &Vec<NestedMeta>) -> (r: Result<Vec<Extension>, ExtendError>)
    ensures
        match extracted_attribute_extensions(*specs, args@) {
            Ok(s) => r matches Ok(v) && v@ == s,
            Err(e) => r matches Err(x) && x == e,
        },
{
    let parsed = match parse_extensions_args(specs, args, ExtensionKind::Attribute, true) {
        Ok(v) => v,
        Err(e) => return Err(e),
    };
    let mut expanded: Vec<Extension> = Vec::new();
    let mut i: usize = 0;
    assert(parsed@.take(0) =~= Seq::<Extension>::empty());
    while i < parsed.len()
        invariant
            i <= parsed.len(),
            expanded@ == expand_attribute_extensions(*specs, parsed@.take(i as int)),
        decreases parsed.len() - i,
    {
        assert(parsed@.take(i + 1).drop_last() =~= parsed@.take(i as int));
        push_expansion(specs, &parsed[i], &mut expanded);
        i = i + 1;
    }
    assert(parsed@.take(parsed.len() as int) =~= parsed@);
    let unique = deduplicate_extensions(&expanded, true);
    if unique.len() == 0 {
        return Err(ExtendError::NoExtensions { kind: ExtensionKind::Attribute });
    }
    net_extensions(unique, ExtensionKind::Attribute)
}

/// Whether the fields for `extensions` need a lifetime.
fn requires_lifetime(specs: &HtmlSpecs, extensions: &Vec<Extension>) -> (r: Result<bool, ExtendError>)
    ensures
        match lifetime_required(*specs, extensions@) {
            Ok(b) => r == Ok::<bool, ExtendError>(b),
            Err(e) => r matches Err(x) && x == e,
        },
{
    let mut i: usize = 0;
    assert(extensions@.skip(0) =~= extensions@);
    while i < extensions.len()
        invariant
            i <= extensions.len(),
            lifetime_required(*specs, extensions@) == lifetime_required(*specs, extensions@.skip(i as int)),
        decreases extensions.len() - i,
    {
        match specs.get_attribute(&extensions[i].name) {
            None => return Err(ExtendError::AttributeNotFound { name: extensions[i].name.clone() }),
            Some(a) => {
                if !(a.values == AttributeValue::Boolean || a.values == AttributeValue::YesNo) {
                    return Ok(true);
                }
            },
        }
        assert(extensions@.skip(i as int).drop_first() =~= extensions@.skip(i + 1));
        i = i + 1;
    }
    Ok(false)
}

/// The `attributes` macro on a struct whose fields are of kind `fields` and
/// whose generic parameters are `generics`: the fields to add for the
/// arguments, and the lifetime they borrow with (required unless every
/// attribute takes `true`/`false` or `yes`/`no`).
pub fn input_struct(
    specs: &HtmlSpecs,
    fields: FieldsKind,
    generics: &Vec<GenericParam>,
    args: &Vec<NestedMeta>,
) -> (r: Result<ExtendedStruct, ExtendError>)
    ensures
        match extracted_attribute_extensions(*specs, args@) {
            Err(e) => r matches Err(x) && x == e,
            Ok(s) => match lifetime_required(*specs, s) {
                Err(e) => r matches Err(x) && x == e,
                Ok(needs) => if fields == FieldsKind::Unnamed {
                    r matches Err(x) && x == ExtendError::UnnamedFields
                } else {
                    match extension_fields(*specs, ExtensionKind::Attribute, s) {
                        Err(e) => r matches Err(x) && x == e,
                        Ok(fs) => r matches Ok(x) && x.fields@ == fs && plans_generics(generics@, needs, x.generics),
                    }
                },
            },
        },
{
    let extensions = match extract_attribute_extensions(specs, args) {
        Ok(v) => v,
        Err(e) => return Err(e),
    };
    let needs = match requires_lifetime(specs, &extensions) {
        Ok(b) => b,
        Err(e) => return Err(e),
    };
    extend_input_struct(specs, fields, generics, &extensions, needs, ExtensionKind::Attribute)
}


/// Whenever the attribute extensions are accepted, there is at least one, none is
/// an exclusion, and no listing excludes the name of one.
pub proof fn lemma_attribute_extensions_net(specs: HtmlSpecs, args: Seq<NestedMeta>)
    ensures
        extracted_attribute_extensions(specs, args) matches Ok(s) ==> s.len() > 0 && forall|i: int| 0 <= i < s.len() ==> !(#[trigger] s[i]).exclude
            && !excluded_name(deduplicated(expand_attribute_extensions(specs, parse_arguments(specs, ExtensionKind::Attribute, true, args)->Ok_0), true), s[i].name@),
{
    if let Ok(s) = extracted_attribute_extensions(specs, args) {
        let d = deduplicated(expand_attribute_extensions(specs, parse_arguments(specs, ExtensionKind::Attribute, true, args)->Ok_0), true);
        assert(!nothing_net(d));
        let k = choose|k: int| 0 <= k < d.len() && !(#[trigger] d[k]).exclude && !excluded_name(d, d[k].name@);
        lemma_net_membership(d, d, d[k]);
        assert(d.contains(d[k]));
        assert forall|i: int| 0 <= i < s.len() implies !(#[trigger] s[i]).exclude && !excluded_name(d, s[i].name@) by {
            assert(s.contains(s[i]));
            lemma_net_membership(d, d, s[i]);
        }
    }
}


/// The field type borrows text, and so needs the struct's lifetime.
pub open spec fn borrows(ty: FieldType) -> bool {
    ty is Str || ty is StrList
}

/// With every attribute found, a lifetime is required exactly when some
/// attribute is not a flag.
proof fn lemma_lifetime_required_found(specs: HtmlSpecs, s: Seq<Extension>)
    requires
        forall|i: int| 0 <= i < s.len() ==> find_first(specs.attributes@, (#[trigger] s[i]).name@) is Some,
    ensures
        lifetime_required(specs, s) == Ok::<bool, ExtendError>(
            exists|i: int| 0 <= i < s.len() && !is_flag_attribute(find_first(specs.attributes@, (#[trigger] s[i]).name@)->Some_0),
        ),
    decreases s.len(),
{
    if s.len() > 0 {
        let rest = s.drop_first();
        assert forall|i: int| 0 <= i < rest.len() implies find_first(specs.attributes@, (#[trigger] rest[i]).name@) is Some by {
            assert(rest[i] == s[i + 1]);
        }
        lemma_lifetime_required_found(specs, rest);
        assert(find_first(specs.attributes@, s[0].name@) is Some);
        if exists|i: int| 0 <= i < rest.len() && !is_flag_attribute(find_first(specs.attributes@, (#[trigger] rest[i]).name@)->Some_0) {
            let i = choose|i: int| 0 <= i < rest.len() && !is_flag_attribute(find_first(specs.attributes@, (#[trigger] rest[i]).name@)->Some_0);
            assert(rest[i] == s[i + 1]);
        }
        if exists|i: int| 0 <= i < s.len() && !is_flag_attribute(find_first(specs.attributes@, (#[trigger] s[i]).name@)->Some_0) {
            let i = choose|i: int| 0 <= i < s.len() && !is_flag_attribute(find_first(specs.attributes@, (#[trigger] s[i]).name@)->Some_0);
            if i > 0 {
                assert(rest[i - 1] == s[i]);
            }
        }
    }
}

/// Accepted fields are one per extension, each the field of its extension.
proof fn lemma_extension_fields_each(specs: HtmlSpecs, kind: ExtensionKind, s: Seq<Extension>)
    ensures
        extension_fields(specs, kind, s) matches Ok(fs) ==> fs.len() == s.len()
            && forall|i: int| 0 <= i < s.len() ==> crate::extend::extension_field(specs, kind, #[trigger] s[i]) == Ok::<FieldDecl, ExtendError>(fs[i]),
    decreases s.len(),
{
    if s.len() > 0 {
        lemma_extension_fields_each(specs, kind, s.drop_last());
        if let Ok(fs) = extension_fields(specs, kind, s) {
            let prefix = extension_fields(specs, kind, s.drop_last())->Ok_0;
            assert forall|i: int| 0 <= i < s.len() implies crate::extend::extension_field(specs, kind, #[trigger] s[i]) == Ok::<FieldDecl, ExtendError>(fs[i]) by {
                if i < s.len() - 1 {
                    assert(s.drop_last()[i] == s[i]);
                    assert(fs[i] == prefix[i]);
                }
            }
        }
    }
}

/// No extension names an attribute whose values are `yes`/`no` or `on`/`off`.
pub open spec fn no_yes_no_or_on_off(specs: HtmlSpecs, s: Seq<Extension>) -> bool {
    forall|i: int| 0 <= i < s.len() ==> (find_first(specs.attributes@, (#[trigger] s[i]).name@) matches Some(a)
        ==> a.values != AttributeValue::YesNo && a.values != AttributeValue::OnOff)
}

/// When the attribute fields are accepted and no attribute takes `yes`/`no` or
/// `on`/`off`, the struct gets a lifetime exactly when some added field borrows
/// text: `true`/`false` attributes become `bool` and need none, every other
/// kind of value becomes borrowed text. (A `yes`/`no` attribute becomes
/// borrowed text yet calls for no lifetime, and an `on`/`off` one becomes a
/// `bool` yet calls for one.)
pub proof fn lemma_lifetime_iff_borrowing(specs: HtmlSpecs, s: Seq<Extension>)
    requires
        no_yes_no_or_on_off(specs, s),
    ensures
        extension_fields(specs, ExtensionKind::Attribute, s) matches Ok(fs) ==> lifetime_required(specs, s)
            == Ok::<bool, ExtendError>(exists|i: int| 0 <= i < fs.len() && borrows((#[trigger] fs[i]).ty)),
{
    lemma_extension_fields_each(specs, ExtensionKind::Attribute, s);
    if let Ok(fs) = extension_fields(specs, ExtensionKind::Attribute, s) {
        assert forall|i: int| 0 <= i < s.len() implies find_first(specs.attributes@, (#[trigger] s[i]).name@) is Some by {
            assert(crate::extend::extension_field(specs, ExtensionKind::Attribute, s[i]) is Ok);
        }
        lemma_lifetime_required_found(specs, s);
        let a = exists|i: int| 0 <= i < s.len() && !is_flag_attribute(find_first(specs.attributes@, (#[trigger] s[i]).name@)->Some_0);
        let b = exists|i: int| 0 <= i < fs.len() && borrows((#[trigger] fs[i]).ty);
        if a {
            let i = choose|i: int| 0 <= i < s.len() && !is_flag_attribute(find_first(specs.attributes@, (#[trigger] s[i]).name@)->Some_0);
            assert(crate::extend::extension_field(specs, ExtensionKind::Attribute, s[i]) == Ok::<FieldDecl, ExtendError>(fs[i]));
            assert(borrows(fs[i].ty));
        }
        if b {
            let i = choose|i: int| 0 <= i < fs.len() && borrows((#[trigger] fs[i]).ty);
            assert(crate::extend::extension_field(specs, ExtensionKind::Attribute, s[i]) == Ok::<FieldDecl, ExtendError>(fs[i]));
            assert(!is_flag_attribute(find_first(specs.attributes@, s[i].name@)->Some_0));
        }
    }
}

/// Attribute extensions carrying the same exclusion hold the same listings.
proof fn lemma_attribute_extensions_listings(attrs: Seq<Attribute>, e1: Extension, e2: Extension)
    requires
        e1.exclude == e2.exclude,
    ensures
        same_listings(attribute_extensions(attrs, e1), attribute_extensions(attrs, e2)),
    decreases attrs.len(),
{
    if attrs.len() > 0 {
        let shorter = attrs.drop_last();
        let a = attrs.last();
        lemma_attribute_extensions_listings(shorter, e1, e2);
        let p1 = attribute_extensions(shorter, e1);
        let p2 = attribute_extensions(shorter, e2);
        if !is_data_attribute(a) {
            let x1 = Extension { name: a.name, exclude: e1.exclude, optional: e1.optional, default: e1.default };
            let x2 = Extension { name: a.name, exclude: e2.exclude, optional: e2.optional, default: e2.default };
            lemma_listings_push(p1, x1);
            lemma_listings_push(p2, x2);
            assert(attribute_extensions(attrs, e1) == p1.push(x1));
            assert(attribute_extensions(attrs, e2) == p2.push(x2));
            assert forall|n: Seq<char>, x: bool| has_listing(p1.push(x1), n, x) <==> has_listing(p2.push(x2), n, x) by {
                assert(has_listing(p1, n, x) <==> has_listing(p2, n, x));
            }
        } else {
            assert(attribute_extensions(attrs, e1) == p1);
            assert(attribute_extensions(attrs, e2) == p2);
        }
    }
}

/// Two listings of one name with one exclusion stand for the same listings.
proof fn lemma_expansion_listings(specs: HtmlSpecs, e1: Extension, e2: Extension)
    requires
        e1.name@ == e2.name@,
        e1.exclude == e2.exclude,
    ensures
        same_listings(expand_attribute_extension(specs, e1), expand_attribute_extension(specs, e2)),
{
    if e1.name@ == "global"@ {
        lemma_attribute_extensions_listings(specs.global_attributes@, e1, e2);
    } else if has_name(specs.attributes@, e1.name@) {
        assert forall|n: Seq<char>, x: bool| has_listing(seq![e1], n, x) <==> has_listing(seq![e2], n, x) by {
            if has_listing(seq![e1], n, x) {
                assert(seq![e2][0] == e2);
            }
            if has_listing(seq![e2], n, x) {
                assert(seq![e1][0] == e1);
            }
        }
    } else if let Some(t) = find_first(specs.tags@, e1.name@) {
        lemma_attribute_extensions_listings(tag_attributes(specs, t), e1, e2);
    } else if let Some(c) = find_first(specs.tag_categories@, e1.name@) {
        lemma_attribute_extensions_listings(category_attributes(specs, c.tags@), e1, e2);
    }
}

/// The expansion of `e` lists the name `n`, excluded when `x`.
spec fn expansion_lists(specs: HtmlSpecs, e: Extension, n: Seq<char>, x: bool) -> bool {
    has_listing(expand_attribute_extension(specs, e), n, x)
}

/// The expansion of a sequence lists what the expansions of its elements list.
proof fn lemma_expansions_listings(specs: HtmlSpecs, s: Seq<Extension>)
    ensures
        forall|n: Seq<char>, x: bool| has_listing(expand_attribute_extensions(specs, s), n, x) <==> exists|i: int|
            0 <= i < s.len() && #[trigger] expansion_lists(specs, s[i], n, x),
    decreases s.len(),
{
    if s.len() > 0 {
        let shorter = s.drop_last();
        let k = s.len() - 1;
        lemma_expansions_listings(specs, shorter);
        lemma_listings_concat(expand_attribute_extensions(specs, shorter), expand_attribute_extension(specs, s.last()));
        assert forall|n: Seq<char>, x: bool| has_listing(expand_attribute_extensions(specs, s), n, x) <==> exists|i: int|
            0 <= i < s.len() && #[trigger] expansion_lists(specs, s[i], n, x) by {
            if has_listing(expand_attribute_extensions(specs, shorter), n, x) {
                let i = choose|i: int| 0 <= i < shorter.len() && #[trigger] expansion_lists(specs, shorter[i], n, x);
                assert(shorter[i] == s[i]);
                assert(expansion_lists(specs, s[i], n, x));
            }
            if expansion_lists(specs, s.last(), n, x) {
                assert(expansion_lists(specs, s[k], n, x));
            }
            if exists|i: int| 0 <= i < s.len() && #[trigger] expansion_lists(specs, s[i], n, x) {
                let i = choose|i: int| 0 <= i < s.len() && #[trigger] expansion_lists(specs, s[i], n, x);
                if i < k {
                    assert(shorter[i] == s[i]);
                    assert(expansion_lists(specs, shorter[i], n, x));
                }
            }
        }
    }
}

/// Sequences with the same listings expand to the same listings.
proof fn lemma_expansions_by_listings(specs: HtmlSpecs, a: Seq<Extension>, b: Seq<Extension>)
    requires
        same_listings(a, b),
    ensures
        same_listings(expand_attribute_extensions(specs, a), expand_attribute_extensions(specs, b)),
{
    lemma_expansions_listings(specs, a);
    lemma_expansions_listings(specs, b);
    let ea = expand_attribute_extensions(specs, a);
    let eb = expand_attribute_extensions(specs, b);
    assert forall|n: Seq<char>, x: bool| has_listing(ea, n, x) <==> has_listing(eb, n, x) by {
        if has_listing(ea, n, x) {
            let i = choose|i: int| 0 <= i < a.len() && #[trigger] expansion_lists(specs, a[i], n, x);
            assert(has_listing(a, a[i].name@, a[i].exclude));
            assert(has_listing(b, a[i].name@, a[i].exclude));
            let j = choose|j: int| 0 <= j < b.len() && (#[trigger] b[j]).name@ == a[i].name@ && b[j].exclude == a[i].exclude;
            lemma_expansion_listings(specs, a[i], b[j]);
            assert(expansion_lists(specs, b[j], n, x));
        }
        if has_listing(eb, n, x) {
            let j = choose|j: int| 0 <= j < b.len() && #[trigger] expansion_lists(specs, b[j], n, x);
            assert(has_listing(b, b[j].name@, b[j].exclude));
            assert(has_listing(a, b[j].name@, b[j].exclude));
            let i = choose|i: int| 0 <= i < a.len() && (#[trigger] a[i]).name@ == b[j].name@ && a[i].exclude == b[j].exclude;
            lemma_expansion_listings(specs, a[i], b[j]);
            assert(expansion_lists(specs, a[i], n, x));
        }
    }
}

/// The `attributes` macro does not depend on the order of its arguments, nor
/// on the order of the names inside a list, nor on repeating them: given the
/// same arguments, the arguments are refused alike; once they are accepted,
/// both calls are refused alike (nothing listed, or everything excluded) or
/// both succeed, adding fields for the same names.
pub proof fn lemma_attribute_arguments_unordered(specs: HtmlSpecs, a: Seq<NestedMeta>, b: Seq<NestedMeta>)
    requires
        same_arguments(a, b),
    ensures
        parse_arguments(specs, ExtensionKind::Attribute, true, a) is Ok == parse_arguments(
            specs,
            ExtensionKind::Attribute,
            true,
            b,
        ) is Ok,
        extracted_attribute_extensions(specs, a) is Ok == extracted_attribute_extensions(specs, b) is Ok,
        parse_arguments(specs, ExtensionKind::Attribute, true, a) is Ok && extracted_attribute_extensions(specs, a) is Err
            ==> extracted_attribute_extensions(specs, b) == extracted_attribute_extensions(specs, a),
        extracted_attribute_extensions(specs, a) is Ok ==> forall|n: Seq<char>|
            has_name(extracted_attribute_extensions(specs, a)->Ok_0, n) <==> has_name(
                extracted_attribute_extensions(specs, b)->Ok_0,
                n,
            ),
{
    lemma_same_arguments_parse(specs, ExtensionKind::Attribute, true, a, b);
    if parse_arguments(specs, ExtensionKind::Attribute, true, a) is Ok {
        let pa = parse_arguments(specs, ExtensionKind::Attribute, true, a)->Ok_0;
        let pb = parse_arguments(specs, ExtensionKind::Attribute, true, b)->Ok_0;
        lemma_expansions_by_listings(specs, pa, pb);
        lemma_netting_by_listings(expand_attribute_extensions(specs, pa), expand_attribute_extensions(specs, pb));
    }
}

/// The extension that the attribute `a` stands for when it comes from
/// expanding the listing `e`: the attribute's name, with the exclusion, the
/// optionality and the default of the listing.
pub open spec fn derived_extension(a: Attribute, e: Extension) -> Extension {
    Extension { name: a.name, exclude: e.exclude, optional: e.optional, default: e.default }
}

/// The attributes of the tags of a category are those of each of its tags.
pub proof fn lemma_category_attributes_members(specs: HtmlSpecs, tags: Seq<Tag>)
    ensures
        forall|a: Attribute| #[trigger] category_attributes(specs, tags).contains(a) <==> exists|t: Tag|
            #[trigger] tags.contains(t) && tag_attributes(specs, t).contains(a),
    decreases tags.len(),
{
    if tags.len() > 0 {
        let shorter = tags.drop_last();
        let last = tags.last();
        lemma_category_attributes_members(specs, shorter);
        let p = category_attributes(specs, shorter);
        let q = tag_attributes(specs, last);
        assert forall|a: Attribute| #[trigger] category_attributes(specs, tags).contains(a) <==> exists|t: Tag|
            #[trigger] tags.contains(t) && tag_attributes(specs, t).contains(a) by {
            assert(category_attributes(specs, tags) == p + q);
            assert(tags[tags.len() - 1] == last);
            assert(tags.contains(last));
            if (p + q).contains(a) {
                let i = choose|i: int| 0 <= i < (p + q).len() && (p + q)[i] == a;
                if i < p.len() {
                    assert(p[i] == a);
                    assert(p.contains(a));
                    let t = choose|t: Tag| #[trigger] shorter.contains(t) && tag_attributes(specs, t).contains(a);
                    let k = choose|k: int| 0 <= k < shorter.len() && shorter[k] == t;
                    assert(tags[k] == t);
                    assert(tags.contains(t));
                } else {
                    assert(q[i - p.len()] == a);
                    assert(q.contains(a));
                }
            }
            if exists|t: Tag| #[trigger] tags.contains(t) && tag_attributes(specs, t).contains(a) {
                let t = choose|t: Tag| #[trigger] tags.contains(t) && tag_attributes(specs, t).contains(a);
                let k = choose|k: int| 0 <= k < tags.len() && tags[k] == t;
                if k < tags.len() - 1 {
                    assert(shorter[k] == t);
                    assert(shorter.contains(t));
                    assert(p.contains(a));
                    let i = choose|i: int| 0 <= i < p.len() && p[i] == a;
                    assert((p + q)[i] == a);
                } else {
                    assert(q.contains(a));
                    let i = choose|i: int| 0 <= i < q.len() && q[i] == a;
                    assert((p + q)[i + p.len()] == a);
                }
            }
        }
    }
}

/// Expanding a listing into attributes yields, for every attribute that is
/// not a `data-*` one, that attribute carrying the listing's exclusion,
/// optionality and default, and nothing else.
pub proof fn lemma_attribute_extensions_members(attrs: Seq<Attribute>, e: Extension)
    ensures
        forall|x: Extension| #[trigger] attribute_extensions(attrs, e).contains(x) <==> exists|a: Attribute|
            #[trigger] attrs.contains(a) && !is_data_attribute(a) && x == derived_extension(a, e),
    decreases attrs.len(),
{
    if attrs.len() > 0 {
        let shorter = attrs.drop_last();
        let last = attrs.last();
        lemma_attribute_extensions_members(shorter, e);
        let p = attribute_extensions(shorter, e);
        let d = derived_extension(last, e);
        assert(attrs[attrs.len() - 1] == last);
        assert(attrs.contains(last));
        assert forall|x: Extension| #[trigger] attribute_extensions(attrs, e).contains(x) <==> exists|a: Attribute|
            #[trigger] attrs.contains(a) && !is_data_attribute(a) && x == derived_extension(a, e) by {
            let r = attribute_extensions(attrs, e);
            if r.contains(x) {
                if !is_data_attribute(last) && x == d {
                } else {
                    let i = choose|i: int| 0 <= i < r.len() && r[i] == x;
                    if !is_data_attribute(last) {
                        assert(r == p.push(d));
                        assert(i < p.len());
                        assert(p[i] == x);
                    } else {
                        assert(r == p);
                    }
                    assert(p.contains(x));
                    let a = choose|a: Attribute| #[trigger] shorter.contains(a) && !is_data_attribute(a) && x == derived_extension(a, e);
                    let k = choose|k: int| 0 <= k < shorter.len() && shorter[k] == a;
                    assert(attrs[k] == a);
                    assert(attrs.contains(a));
                }
            }
            if exists|a: Attribute| #[trigger] attrs.contains(a) && !is_data_attribute(a) && x == derived_extension(a, e) {
                let a = choose|a: Attribute| #[trigger] attrs.contains(a) && !is_data_attribute(a) && x == derived_extension(a, e);
                let k = choose|k: int| 0 <= k < attrs.len() && attrs[k] == a;
                if k < attrs.len() - 1 {
                    assert(shorter[k] == a);
                    assert(shorter.contains(a));
                    assert(p.contains(x));
                    let i = choose|i: int| 0 <= i < p.len() && p[i] == x;
                    if !is_data_attribute(last) {
                        assert(r == p.push(d));
                        assert(r[i] == x);
                    } else {
                        assert(r == p);
                    }
                } else {
                    assert(a == last);
                    assert(r == p.push(d));
                    assert(r[p.len() as int] == x);
                }
            }
        }
    }
}

/// What a listed name stands for, element by element: `global` stands for
/// every global attribute, a name that is an attribute for that attribute
/// alone (even where a tag has the same name), a tag for every attribute the
/// tag takes, a tag category for every attribute of every one of its tags;
/// the `data-*` attributes are left out, and every attribute carries the
/// exclusion, the optionality and the default of the listing.
pub proof fn lemma_expansion_members(specs: HtmlSpecs, e: Extension)
    ensures
        forall|x: Extension| #[trigger] expand_attribute_extension(specs, e).contains(x) <==> if e.name@ == "global"@ {
            exists|a: Attribute| #[trigger] specs.global_attributes@.contains(a) && !is_data_attribute(a) && x == derived_extension(a, e)
        } else if has_name(specs.attributes@, e.name@) {
            x == e
        } else {
            match find_first(specs.tags@, e.name@) {
                Some(t) => exists|a: Attribute| #![trigger derived_extension(a, e)] tag_attributes(specs, t).contains(a)
                    && !is_data_attribute(a) && x == derived_extension(a, e),
                None => match find_first(specs.tag_categories@, e.name@) {
                    Some(c) => exists|t: Tag, a: Attribute| #![trigger tag_attributes(specs, t).contains(a)] c.tags@.contains(t)
                        && tag_attributes(specs, t).contains(a) && !is_data_attribute(a) && x == derived_extension(a, e),
                    None => false,
                },
            }
        },
        e.name@ != "global"@ && has_name(specs.attributes@, e.name@) ==> expand_attribute_extension(specs, e) == seq![e],
        forall|x: Extension| #[trigger] expand_attribute_extension(specs, e).contains(x) ==> x.exclude == e.exclude
            && x.optional == e.optional && x.default == e.default,
{
    if e.name@ == "global"@ {
        lemma_attribute_extensions_members(specs.global_attributes@, e);
    } else if has_name(specs.attributes@, e.name@) {
        assert forall|x: Extension| #[trigger] seq![e].contains(x) <==> x == e by {
            assert(seq![e][0] == e);
        }
    } else if let Some(t) = find_first(specs.tags@, e.name@) {
        lemma_attribute_extensions_members(tag_attributes(specs, t), e);
    } else if let Some(c) = find_first(specs.tag_categories@, e.name@) {
        let all = category_attributes(specs, c.tags@);
        lemma_attribute_extensions_members(all, e);
        lemma_category_attributes_members(specs, c.tags@);
        assert forall|x: Extension| #[trigger] expand_attribute_extension(specs, e).contains(x) <==> exists|t: Tag, a: Attribute|
            #![trigger tag_attributes(specs, t).contains(a)] c.tags@.contains(t) && tag_attributes(specs, t).contains(a) && !is_data_attribute(a)
                && x == derived_extension(a, e) by {
            if expand_attribute_extension(specs, e).contains(x) {
                let a = choose|a: Attribute| #[trigger] all.contains(a) && !is_data_attribute(a) && x == derived_extension(a, e);
                let t = choose|t: Tag| #[trigger] c.tags@.contains(t) && tag_attributes(specs, t).contains(a);
                assert(c.tags@.contains(t) && tag_attributes(specs, t).contains(a));
            }
            if exists|t: Tag, a: Attribute| #![trigger tag_attributes(specs, t).contains(a)] c.tags@.contains(t) && tag_attributes(specs, t).contains(a)
                && !is_data_attribute(a) && x == derived_extension(a, e) {
                let (t, a) = choose|t: Tag, a: Attribute| #![trigger tag_attributes(specs, t).contains(a)] c.tags@.contains(t) && tag_attributes(specs, t).contains(a)
                    && !is_data_attribute(a) && x == derived_extension(a, e);
                assert(all.contains(a));
            }
        }
    }
}

/// The expansion of several listed names holds what the expansion of each holds.
pub proof fn lemma_expansions_members(specs: HtmlSpecs, s: Seq<Extension>)
    ensures
        forall|x: Extension| #[trigger] expand_attribute_extensions(specs, s).contains(x) <==> exists|i: int|
            0 <= i < s.len() && #[trigger] expand_attribute_extension(specs, s[i]).contains(x),
    decreases s.len(),
{
    if s.len() > 0 {
        let shorter = s.drop_last();
        let k = s.len() - 1;
        lemma_expansions_members(specs, shorter);
        let p = expand_attribute_extensions(specs, shorter);
        let q = expand_attribute_extension(specs, s.last());
        assert(expand_attribute_extensions(specs, s) == p + q);
        assert(s[k] == s.last());
        assert forall|x: Extension| #[trigger] expand_attribute_extensions(specs, s).contains(x) <==> exists|i: int|
            0 <= i < s.len() && #[trigger] expand_attribute_extension(specs, s[i]).contains(x) by {
            if (p + q).contains(x) {
                let j = choose|j: int| 0 <= j < (p + q).len() && (p + q)[j] == x;
                if j < p.len() {
                    assert(p[j] == x);
                    assert(p.contains(x));
                    let i = choose|i: int| 0 <= i < shorter.len() && #[trigger] expand_attribute_extension(specs, shorter[i]).contains(x);
                    assert(shorter[i] == s[i]);
                    assert(expand_attribute_extension(specs, s[i]).contains(x));
                } else {
                    assert(q[j - p.len()] == x);
                    assert(expand_attribute_extension(specs, s[k]).contains(x));
                }
            }
            if exists|i: int| 0 <= i < s.len() && #[trigger] expand_attribute_extension(specs, s[i]).contains(x) {
                let i = choose|i: int| 0 <= i < s.len() && #[trigger] expand_attribute_extension(specs, s[i]).contains(x);
                if i < k {
                    assert(shorter[i] == s[i]);
                    assert(expand_attribute_extension(specs, shorter[i]).contains(x));
                    assert(p.contains(x));
                    let j = choose|j: int| 0 <= j < p.len() && p[j] == x;
                    assert((p + q)[j] == x);
                } else {
                    let j = choose|j: int| 0 <= j < q.len() && q[j] == x;
                    assert((p + q)[j + p.len()] == x);
                }
            }
        }
    }
}

/// Every extension that `attributes` adds a field for comes from expanding one
/// of the listed names (the one at the position returned), and so is an
/// inclusion carrying that listing's optionality and default (see
/// `lemma_expansion_members`): listing a tag, a tag category or `global` under
/// `optional(...)` makes every field it stands for optional.
pub proof fn lemma_extracted_from_listings(specs: HtmlSpecs, args: Seq<NestedMeta>, k: int) -> (i: int)
    requires
        extracted_attribute_extensions(specs, args) is Ok,
        0 <= k < extracted_attribute_extensions(specs, args)->Ok_0.len(),
    ensures
        0 <= i < parse_arguments(specs, ExtensionKind::Attribute, true, args)->Ok_0.len(),
        expand_attribute_extension(specs, parse_arguments(specs, ExtensionKind::Attribute, true, args)->Ok_0[i]).contains(
            extracted_attribute_extensions(specs, args)->Ok_0[k],
        ),
        !extracted_attribute_extensions(specs, args)->Ok_0[k].exclude,
        parse_arguments(specs, ExtensionKind::Attribute, true, args)->Ok_0[i].optional
            == extracted_attribute_extensions(specs, args)->Ok_0[k].optional,
        parse_arguments(specs, ExtensionKind::Attribute, true, args)->Ok_0[i].default
            == extracted_attribute_extensions(specs, args)->Ok_0[k].default,
{
    let s = extracted_attribute_extensions(specs, args)->Ok_0;
    let parsed = parse_arguments(specs, ExtensionKind::Attribute, true, args)->Ok_0;
    let expanded = expand_attribute_extensions(specs, parsed);
    let d = deduplicated(expanded, true);
    assert(s == net_of(d, d));
    let x = s[k];
    assert(s.contains(x));
    lemma_net_membership(d, d, x);
    let m = choose|m: int| 0 <= m < d.len() && d[m] == x;
    lemma_deduplicated(expanded, true);
    let j = choose|j: int| 0 <= j < expanded.len() && expanded[j] == #[trigger] d[m] && forall|j2: int| j < j2 < expanded.len()
        ==> !same_key(expanded[j2], d[m], true);
    assert(expanded.contains(x));
    lemma_expansions_members(specs, parsed);
    let i = choose|i: int| 0 <= i < parsed.len() && #[trigger] expand_attribute_extension(specs, parsed[i]).contains(x);
    lemma_expansion_flags(specs, parsed[i], x);
    i
}

/// An extension from expanding a listing carries the listing's flags.
proof fn lemma_expansion_flags(specs: HtmlSpecs, e: Extension, x: Extension)
    requires
        expand_attribute_extension(specs, e).contains(x),
    ensures
        x.exclude == e.exclude && x.optional == e.optional && x.default == e.default,
{
    lemma_expansion_members(specs, e);
}

} // verus!
