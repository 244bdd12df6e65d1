//! The `events` macro: extends a properties struct with one handler field per
//! DOM event listed by name or by event category.
use vstd::prelude::*;

use crate::extend::{
    excluded_name, lemma_net_membership,
    deduplicate_extensions, deduplicated, extend_input_struct, extension_fields, net_extensions,
    net_of, nothing_net, parse_arguments, parse_extensions_args, plans_generics, validate_extension,
    ExtendError, ExtendedStruct, Extension, ExtensionKind, FieldsKind, GenericParam,
};
use crate::meta::{MetaPath, NestedMeta};
use crate::named::find_first;
use crate::specs::{Event, HtmlSpecs};
use crate::text::copy_optional;

verus! {

/// One extension per event of `events`, carrying the flags of `e`.
pub open spec fn event_extensions(events: Seq<Event>, e: Extension) -> Seq<Extension>
    decreases events.len(),
{
    if events.len() == 0 {
        seq![]
    } else {
        event_extensions(events.drop_last(), e).push(
            Extension { name: events.last().name, exclude: e.exclude, optional: e.optional, default: e.default },
        )
    }
}

/// What one listed name stands for: an event category for its events, any other
/// name for itself.
pub open spec fn expand_event_extension(specs: HtmlSpecs, e: Extension) -> Seq<Extension> {
    match find_first(specs.event_categories@, e.name@) {
        Some(c) => event_extensions(c.events@, e),
        None => seq![e],
    }
}

/// What the listed names stand for, in order.
pub open spec fn expand_event_extensions(specs: HtmlSpecs, s: Seq<Extension>) -> Seq<Extension>
    decreases s.len(),
{
    if s.len() == 0 {
        seq![]
    } else {
        expand_event_extensions(specs, s.drop_last()) + expand_event_extension(specs, s.last())
    }
}

/// The event extensions the arguments call for: parsed, expanded, one per name
/// with the last listing winning, and netted.
pub open spec fn extracted_event_extensions(specs: HtmlSpecs, args: Seq<NestedMeta>) -> Result<Seq<Extension>, ExtendError> {
    match parse_arguments(specs, ExtensionKind::Event, false, args) {
        Err(e) => Err(e),
        Ok(parsed) => {
            let d = deduplicated(expand_event_extensions(specs, parsed), false);
            if d.len() == 0 {
                Err(ExtendError::NoExtensions { kind: ExtensionKind::Event })
            } else if nothing_net(d) {
                Err(ExtendError::NoNetExtensions { kind: ExtensionKind::Event })
            } else {
                Ok(net_of(d, d))
            }
        },
    }
}

/// Whether the name is a valid event or event category.
pub fn validate_event_extension(specs: &HtmlSpecs, path: &MetaPath) -> (r: bool)
    ensures
        r == crate::extend::is_valid_extension(*specs, ExtensionKind::Event, path.text@),
{
    validate_extension(specs, ExtensionKind::Event, &path.text)
}

/// Appends to `out` what one listed name stands for.
fn push_expansion(specs: &HtmlSpecs, e: &Extension, out: &mut Vec<Extension>)
    ensures
        final(out)@ == old(out)@ + expand_event_extension(*specs, *e),
{
    match specs.get_event_category(&e.name) {
        Some(category) => {
            let ghost base = out@;
            let mut i: usize = 0;
            assert(category.events@.take(0) =~= Seq::<Event>::empty());
            assert(base + Seq::<Extension>::empty() =~= base);
            while i < category.events.len()
                invariant
                    i <= category.events.len(),
                    out@ == base + event_extensions(category.events@.take(i as int), *e),
                decreases category.events.len() - i,
            {
                assert(category.events@.take(i + 1).drop_last() =~= category.events@.take(i as int));
                out.push(
                    Extension {
                        name: category.events[i].name.clone(),
                        exclude: e.exclude,
                        optional: e.optional,
                        default: copy_optional(&e.default),
                    },
                );
                assert(out@ =~= base + event_extensions(category.events@.take(i + 1), *e));
                i = i + 1;
            }
            assert(category.events@.take(category.events.len() as int) =~= category.events@);
        },
        None => {
            out.push(e.clone());
        },
    }
}

/// The event extensions the arguments call for: the listed names (checked
/// against `specs`), event categories expanded to their events, one per name
/// with the last listing winning, then netted. Refused when nothing is listed
/// or when everything listed is excluded.
pub fn extract_event_extensions(specs: &HtmlSpecs, args: &Vec<NestedMeta>) -> (r: Result<Vec<Extension>, ExtendError>)
    ensures
        match extracted_event_extensions(*specs, args@) {
            Ok(s) => r matches Ok(v) && v@ == s,
            Err(e) => r matches Err(x) && x == e,
        },
{
    let parsed = match parse_extensions_args(specs, args, ExtensionKind::Event, false) {
        Ok(v) => v,
        Err(e) => return Err(e),
    };
    let mut expanded: Vec<Extension> = Vec::new();
    let mut i: usize = 0;
    assert(parsed@.take(0) =~= Seq::<Extension>::empty());
    while i < parsed.len()
        invariant
            i <= parsed.len(),
            expanded@ == expand_event_extensions(*specs, parsed@.take(i as int)),
        decreases parsed.len() - i,
    {
        assert(parsed@.take(i + 1).drop_last() =~= parsed@.take(i as int));
        push_expansion(specs, &parsed[i], &mut expanded);
        i = i + 1;
    }
    assert(parsed@.take(parsed.len() as int) =~= parsed@);
    let unique = deduplicate_extensions(&expanded, false);
    if unique.len() == 0 {
        return Err(ExtendError::NoExtensions { kind: ExtensionKind::Event });
    }
    net_extensions(unique, ExtensionKind::Event)
}

/// The `events` macro on a struct whose fields are of kind `fields` and whose
/// generic parameters are `generics`: the handler fields to add for the
/// arguments (they borrow nothing, so no lifetime is added).
pub fn input_struct(
    specs: &HtmlSpecs,
    fields: FieldsKind,
    generics: &Vec<GenericParam>,
    args: &Vec<NestedMeta>,
) -> (r: Result<ExtendedStruct, ExtendError>)
    ensures
        match extracted_event_extensions(*specs, args@) {
            Err(e) => r matches Err(x) && x == e,
            Ok(s) => if fields == FieldsKind::Unnamed {
                r matches Err(x) && x == ExtendError::UnnamedFields
            } else {
                match extension_fields(*specs, ExtensionKind::Event, s) {
                    Err(e) => r matches Err(x) && x == e,
                    Ok(fs) => r matches Ok(x) && x.fields@ == fs && plans_generics(generics@, false, x.generics),
                }
            },
        },
{
    let extensions = match extract_event_extensions(specs, args) {
        Ok(v) => v,
        Err(e) => return Err(e),
    };
    extend_input_struct(specs, fields, generics, &extensions, false, ExtensionKind::Event)
}


/// Whenever the event extensions are accepted, there is at least one, none is
/// an exclusion, and no listing excludes the name of one.
pub proof fn lemma_event_extensions_net(specs: HtmlSpecs, args: Seq<NestedMeta>)
    ensures
        extracted_event_extensions(specs, args) matches Ok(s) ==> s.len() > 0 && forall|i: int| 0 <= i < s.len() ==> !(#[trigger] s[i]).exclude
            && !excluded_name(deduplicated(expand_event_extensions(specs, parse_arguments(specs, ExtensionKind::Event, false, args)->Ok_0), false), s[i].name@),
{
    if let Ok(s) = extracted_event_extensions(specs, args) {
        let d = deduplicated(expand_event_extensions(specs, parse_arguments(specs, ExtensionKind::Event, false, args)->Ok_0), false);
        assert(!nothing_net(d));
        let k = choose|k: int| 0 <= k < d.len() && !(#[trigger] d[k]).exclude && !excluded_name(d, d[k].name@);
        lemma_net_membership(d, d, d[k]);
        assert(d.contains(d[k]));
        assert forall|i: int| 0 <= i < s.len() implies !(#[trigger] s[i]).exclude && !excluded_name(d, s[i].name@) by {
            assert(s.contains(s[i]));
            lemma_net_membership(d, d, s[i]);
        }
    }
}

} // verus!
