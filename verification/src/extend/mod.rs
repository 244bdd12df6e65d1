//! Extending a properties struct with fields for HTML attributes or DOM events:
//! reading the macro's arguments, netting inclusions against exclusions, and
//! planning the fields to add.
use vstd::prelude::*;

use crate::meta::{MetaNameValue, MetaPath, NestedItem, NestedMeta};
use crate::named::{find_first, has_name, shifted, Named};
use crate::specs::{Attribute, AttributeValue, Event, HtmlSpecs};
use crate::text::{copy_optional, text_equal};
use vstd::string::{StrSliceExecFns, StringExecFns};

pub mod attributes;
pub mod checks;
pub mod events;
pub mod listings;

verus! {

/// One attribute, tag, category or event listed in the macro's arguments.
#[derive(Debug)]
pub struct Extension {
    /// The listed name.
    pub name: String,
    /// Listed under `exclude(...)`.
    pub exclude: bool,
    /// Listed under `optional(...)`: the field becomes an `Option`.
    pub optional: bool,
    /// The default value given as `name = literal` (the literal's text).
    pub default: Option<String>,
}

impl Clone for Extension {
    fn clone(&self) -> (r: Self)
        ensures
            r == *self,
    {
        Extension {
            name: self.name.clone(),
            exclude: self.exclude,
            optional: self.optional,
            default: copy_optional(&self.default),
        }
    }
}

impl Named for Extension {
    open spec fn name_view(&self) -> Seq<char> {
        self.name@
    }

    fn name(&self) -> (r: &String) {
        &self.name
    }
}

/// What a macro extends a struct with.
#[derive(Clone, Copy, Debug, PartialEq, Eq, Structural)]
pub enum ExtensionKind {
    /// HTML attributes (named directly, by tag, by tag category or `global`).
    Attribute,
    /// DOM events (named directly or by event category).
    Event,
}

impl ExtensionKind {
    /// How messages name what is listed.
    pub fn description(&self) -> (r: &'static str)
        ensures
            r@ == match self {
                ExtensionKind::Attribute => "attribute or tag"@,
                ExtensionKind::Event => "event"@,
            },
    {
        match self {
            ExtensionKind::Attribute => "attribute or tag",
            ExtensionKind::Event => "event",
        }
    }
}

/// Why an extending macro refuses its input.
#[derive(Debug)]
pub enum ExtendError {
    /// The name `text` in argument `arg` (item `item` of its list, if in one)
    /// is no known attribute, tag, category or event.
    InvalidExtension { arg: usize, item: Option<usize>, kind: ExtensionKind, text: String },
    /// Argument `arg` is a list of a name that is not accepted.
    InvalidList { arg: usize, kind: ExtensionKind },
    /// Argument `arg` (or one of the items of its list) has a form that is not accepted.
    InvalidArgument { arg: usize, kind: ExtensionKind },
    /// The arguments list nothing.
    NoExtensions { kind: ExtensionKind },
    /// Everything listed is excluded again.
    NoNetExtensions { kind: ExtensionKind },
    /// No attribute of that name is known.
    AttributeNotFound { name: String },
    /// No event of that name is known.
    EventNotFound { name: String },
    /// The struct is a tuple struct.
    UnnamedFields,
}

/// `text` names something of `kind` that may be listed: for attributes an
/// attribute, a tag, `global` or a tag category; for events an event or an
/// event category.
pub open spec fn is_valid_extension(specs: HtmlSpecs, kind: ExtensionKind, text: Seq<char>) -> bool {
    match kind {
        ExtensionKind::Attribute => has_name(specs.attributes@, text) || has_name(specs.tags@, text)
            || text == "global"@ || find_first(specs.tag_categories@, text) is Some,
        ExtensionKind::Event => has_name(specs.events@, text) || find_first(
            specs.event_categories@,
            text,
        ) is Some,
    }
}

/// The flags (exclude, optional) of a list named `list_name`, if the name is
/// accepted: `exclude`, and where defaults are supported `optional` and `default`.
pub open spec fn list_flags(supports_default: bool, list_name: Seq<char>) -> Option<(bool, bool)> {
    if list_name == "exclude"@ {
        Some((true, false))
    } else if supports_default && list_name == "optional"@ {
        Some((false, true))
    } else if supports_default && list_name == "default"@ {
        Some((false, false))
    } else {
        None
    }
}

/// One extension per segment of a `path = literal` item.
pub open spec fn named_value_extensions(segments: Seq<String>, lit: String, exclude: bool, optional: bool) -> Seq<Extension>
    decreases segments.len(),
{
    if segments.len() == 0 {
        seq![]
    } else {
        named_value_extensions(segments.drop_last(), lit, exclude, optional).push(
            Extension { name: segments.last(), exclude, optional, default: Some(lit) },
        )
    }
}

/// The extensions item `j` of the list in argument `i` lists.
pub open spec fn parse_item(
    specs: HtmlSpecs,
    kind: ExtensionKind,
    supports_default: bool,
    i: int,
    j: int,
    item: NestedItem,
    exclude: bool,
    optional: bool,
) -> Result<Seq<Extension>, ExtendError> {
    match item {
        NestedItem::Path(p) => if p.segments@.len() == 1 {
            if is_valid_extension(specs, kind, p.text@) {
                Ok(seq![Extension { name: p.segments@[0], exclude, optional, default: None }])
            } else {
                Err(ExtendError::InvalidExtension { arg: i as usize, item: Some(j as usize), kind, text: p.text })
            }
        } else {
            Err(ExtendError::InvalidArgument { arg: i as usize, kind })
        },
        NestedItem::NameValue(nv) => if supports_default {
            if is_valid_extension(specs, kind, nv.path.text@) {
                Ok(named_value_extensions(nv.path.segments@, nv.lit, exclude, optional))
            } else {
                Err(
                    ExtendError::InvalidExtension {
                        arg: i as usize,
                        item: Some(j as usize),
                        kind,
                        text: nv.path.text,
                    },
                )
            }
        } else {
            Err(ExtendError::InvalidArgument { arg: i as usize, kind })
        },
        NestedItem::Other => Err(ExtendError::InvalidArgument { arg: i as usize, kind }),
    }
}

/// The extensions the items of the list in argument `i` list, or the first error.
pub open spec fn parse_items(
    specs: HtmlSpecs,
    kind: ExtensionKind,
    supports_default: bool,
    i: int,
    items: Seq<NestedItem>,
    exclude: bool,
    optional: bool,
) -> Result<Seq<Extension>, ExtendError>
    decreases items.len(),
{
    if items.len() == 0 {
        Ok(seq![])
    } else {
        match parse_items(specs, kind, supports_default, i, items.drop_last(), exclude, optional) {
            Err(e) => Err(e),
            Ok(prefix) => match parse_item(
                specs,
                kind,
                supports_default,
                i,
                items.len() - 1,
                items.last(),
                exclude,
                optional,
            ) {
                Err(e) => Err(e),
                Ok(more) => Ok(prefix + more),
            },
        }
    }
}

/// The extensions argument `i` lists.
pub open spec fn parse_argument(
    specs: HtmlSpecs,
    kind: ExtensionKind,
    supports_default: bool,
    i: int,
    arg: NestedMeta,
) -> Result<Seq<Extension>, ExtendError> {
    match arg {
        NestedMeta::Path(p) => match p.ident_spec() {
            Some(id) => if is_valid_extension(specs, kind, p.text@) {
                Ok(seq![Extension { name: id, exclude: false, optional: false, default: None }])
            } else {
                Err(ExtendError::InvalidExtension { arg: i as usize, item: None, kind, text: p.text })
            },
            None => Err(ExtendError::InvalidArgument { arg: i as usize, kind }),
        },
        NestedMeta::List(l) => match list_flags(supports_default, l.path.text@) {
            Some((exclude, optional)) => parse_items(
                specs,
                kind,
                supports_default,
                i,
                l.nested@,
                exclude,
                optional,
            ),
            None => Err(ExtendError::InvalidList { arg: i as usize, kind }),
        },
        _ => Err(ExtendError::InvalidArgument { arg: i as usize, kind }),
    }
}

/// The extensions the arguments list, in order, or the first error.
pub open spec fn parse_arguments(
    specs: HtmlSpecs,
    kind: ExtensionKind,
    supports_default: bool,
    args: Seq<NestedMeta>,
) -> Result<Seq<Extension>, ExtendError>
    decreases args.len(),
{
    if args.len() == 0 {
        Ok(seq![])
    } else {
        match parse_arguments(specs, kind, supports_default, args.drop_last()) {
            Err(e) => Err(e),
            Ok(prefix) => match parse_argument(
                specs,
                kind,
                supports_default,
                args.len() - 1,
                args.last(),
            ) {
                Err(e) => Err(e),
                Ok(more) => Ok(prefix + more),
            },
        }
    }
}

/// A path that is one segment and prints as that segment.
pub open spec fn simple_path(p: MetaPath) -> bool {
    p.segments@.len() == 1 && p.text@ == p.segments@[0]@
}

/// Every path among the arguments is a simple one.
pub open spec fn simple_arguments(args: Seq<NestedMeta>) -> bool {
    forall|i: int| 0 <= i < args.len() ==> match #[trigger] args[i] {
        NestedMeta::Path(p) => simple_path(p),
        NestedMeta::List(l) => forall|j: int| 0 <= j < l.nested@.len() ==> match #[trigger] l.nested@[j] {
            NestedItem::Path(p) => simple_path(p),
            NestedItem::NameValue(nv) => simple_path(nv.path),
            NestedItem::Other => true,
        },
        NestedMeta::NameValue(nv) => simple_path(nv.path),
        NestedMeta::Lit(_) => true,
    }
}

/// Every name in `s` may be listed.
pub open spec fn all_valid(specs: HtmlSpecs, kind: ExtensionKind, s: Seq<Extension>) -> bool {
    forall|i: int| 0 <= i < s.len() ==> is_valid_extension(specs, kind, (#[trigger] s[i]).name@)
}

/// The items of a list parse to valid names when their paths are simple.
proof fn lemma_items_valid(
    specs: HtmlSpecs,
    kind: ExtensionKind,
    supports_default: bool,
    i: int,
    items: Seq<NestedItem>,
    exclude: bool,
    optional: bool,
)
    requires
        forall|j: int| 0 <= j < items.len() ==> match #[trigger] items[j] {
            NestedItem::Path(p) => simple_path(p),
            NestedItem::NameValue(nv) => simple_path(nv.path),
            NestedItem::Other => true,
        },
    ensures
        parse_items(specs, kind, supports_default, i, items, exclude, optional) matches Ok(s) ==> all_valid(specs, kind, s),
    decreases items.len(),
{
    if items.len() > 0 {
        let shorter = items.drop_last();
        assert forall|j: int| 0 <= j < shorter.len() implies match #[trigger] shorter[j] {
            NestedItem::Path(p) => simple_path(p),
            NestedItem::NameValue(nv) => simple_path(nv.path),
            NestedItem::Other => true,
        } by {
            assert(shorter[j] == items[j]);
        }
        lemma_items_valid(specs, kind, supports_default, i, shorter, exclude, optional);
        let last = items.last();
        assert(last == items[items.len() - 1]);
        if let Ok(s) = parse_items(specs, kind, supports_default, i, items, exclude, optional) {
            let prefix = parse_items(specs, kind, supports_default, i, shorter, exclude, optional)->Ok_0;
            let more = parse_item(specs, kind, supports_default, i, items.len() - 1, last, exclude, optional)->Ok_0;
            assert(s == prefix + more);
            match last {
                NestedItem::NameValue(nv) => {
                    lemma_named_values_named(nv.path.segments@, nv.lit, exclude, optional);
                },
                _ => {},
            }
            assert forall|k: int| 0 <= k < s.len() implies is_valid_extension(specs, kind, (#[trigger] s[k]).name@) by {
                if k < prefix.len() {
                    assert(s[k] == prefix[k]);
                } else {
                    assert(s[k] == more[k - prefix.len()]);
                }
            }
        }
    }
}

/// The extensions of `path = literal` are named by the path's segments.
proof fn lemma_named_values_named(segments: Seq<String>, lit: String, exclude: bool, optional: bool)
    ensures
        named_value_extensions(segments, lit, exclude, optional).len() == segments.len(),
        forall|k: int| 0 <= k < segments.len() ==> (#[trigger] named_value_extensions(segments, lit, exclude, optional)[k]).name
            == segments[k],
    decreases segments.len(),
{
    if segments.len() > 0 {
        lemma_named_values_named(segments.drop_last(), lit, exclude, optional);
    }
}

/// When every path among the arguments is a simple one, every name the
/// arguments list has been checked: each is an attribute, tag, tag category or
/// `global` (for attributes), or an event or event category (for events).
pub proof fn lemma_parsed_names_valid(specs: HtmlSpecs, kind: ExtensionKind, supports_default: bool, args: Seq<NestedMeta>)
    requires
        simple_arguments(args),
    ensures
        parse_arguments(specs, kind, supports_default, args) matches Ok(s) ==> all_valid(specs, kind, s),
    decreases args.len(),
{
    if args.len() > 0 {
        let shorter = args.drop_last();
        assert forall|i: int| 0 <= i < shorter.len() implies match #[trigger] shorter[i] {
            NestedMeta::Path(p) => simple_path(p),
            NestedMeta::List(l) => forall|j: int| 0 <= j < l.nested@.len() ==> match #[trigger] l.nested@[j] {
                NestedItem::Path(p) => simple_path(p),
                NestedItem::NameValue(nv) => simple_path(nv.path),
                NestedItem::Other => true,
            },
            NestedMeta::NameValue(nv) => simple_path(nv.path),
            NestedMeta::Lit(_) => true,
        } by {
            assert(shorter[i] == args[i]);
        }
        lemma_parsed_names_valid(specs, kind, supports_default, shorter);
        let last = args.last();
        assert(last == args[args.len() - 1]);
        if let Ok(s) = parse_arguments(specs, kind, supports_default, args) {
            let prefix = parse_arguments(specs, kind, supports_default, shorter)->Ok_0;
            let more = parse_argument(specs, kind, supports_default, args.len() - 1, last)->Ok_0;
            assert(s == prefix + more);
            match last {
                NestedMeta::List(l) => {
                    let (exclude, optional) = list_flags(supports_default, l.path.text@)->Some_0;
                    lemma_items_valid(specs, kind, supports_default, args.len() - 1, l.nested@, exclude, optional);
                },
                _ => {},
            }
            assert forall|k: int| 0 <= k < s.len() implies is_valid_extension(specs, kind, (#[trigger] s[k]).name@) by {
                if k < prefix.len() {
                    assert(s[k] == prefix[k]);
                } else {
                    assert(s[k] == more[k - prefix.len()]);
                }
            }
        }
    }
}

/// Whether `text` names something of `kind` that may be listed.
pub fn validate_extension(specs: &HtmlSpecs, kind: ExtensionKind, text: &String) -> (r: bool)
    ensures
        r == is_valid_extension(*specs, kind, text@),
{
    match kind {
        ExtensionKind::Attribute => specs.is_valid_attribute(text) || specs.is_valid_tag(text)
            || text_equal(text.as_str(), "global") || specs.is_tag_category(text),
        ExtensionKind::Event => specs.is_valid_event(text) || specs.is_event_category(text),
    }
}

/// Appends the extensions of a `path = literal` item to `out`.
fn push_named_value(nv: &MetaNameValue, exclude: bool, optional: bool, out: &mut Vec<Extension>)
    ensures
        final(out)@ == old(out)@ + named_value_extensions(nv.path.segments@, nv.lit, exclude, optional),
{
    let ghost base = out@;
    let mut k: usize = 0;
    assert(nv.path.segments@.take(0) =~= Seq::<String>::empty());
    assert(base + Seq::<Extension>::empty() =~= base);
    while k < nv.path.segments.len()
        invariant
            k <= nv.path.segments.len(),
            out@ == base + named_value_extensions(nv.path.segments@.take(k as int), nv.lit, exclude, optional),
        decreases nv.path.segments.len() - k,
    {
        let ghost prev = nv.path.segments@.take(k as int);
        assert(nv.path.segments@.take(k + 1).drop_last() =~= prev);
        out.push(
            Extension {
                name: nv.path.segments[k].clone(),
                exclude,
                optional,
                default: Some(nv.lit.clone()),
            },
        );
        assert(out@ =~= base + named_value_extensions(nv.path.segments@.take(k + 1), nv.lit, exclude, optional));
        k = k + 1;
    }
    assert(nv.path.segments@.take(nv.path.segments.len() as int) =~= nv.path.segments@);
}

/// The extensions argument `i` lists, appended to `out`.
fn parse_one_argument(
    specs: &HtmlSpecs,
    kind: ExtensionKind,
    supports_default: bool,
    i: usize,
    arg: &NestedMeta,
    out: &mut Vec<Extension>,
) -> (r: Result<(), ExtendError>)
    ensures
        match parse_argument(*specs, kind, supports_default, i as int, *arg) {
            Ok(more) => r is Ok && final(out)@ == old(out)@ + more,
            Err(e) => r == Err::<(), ExtendError>(e),
        },
{
    match arg {
        NestedMeta::Path(p) => match p.get_ident() {
            Some(id) => {
                if validate_extension(specs, kind, &p.text) {
                    out.push(Extension { name: id.clone(), exclude: false, optional: false, default: None });
                    Ok(())
                } else {
                    Err(ExtendError::InvalidExtension { arg: i, item: None, kind, text: p.text.clone() })
                }
            },
            None => Err(ExtendError::InvalidArgument { arg: i, kind }),
        },
        NestedMeta::List(l) => {
            let name = l.path.text.as_str();
            let (exclude, optional) = if text_equal(name, "exclude") {
                (true, false)
            } else if supports_default && text_equal(name, "optional") {
                (false, true)
            } else if supports_default && text_equal(name, "default") {
                (false, false)
            } else {
                return Err(ExtendError::InvalidList { arg: i, kind });
            };
            let ghost base = out@;
            let ghost whole = parse_argument(*specs, kind, supports_default, i as int, *arg);
            assert(whole == parse_items(*specs, kind, supports_default, i as int, l.nested@, exclude, optional));
            let mut j: usize = 0;
            assert(l.nested@.take(0) =~= Seq::<NestedItem>::empty());
            assert(base + Seq::<Extension>::empty() =~= base);
            while j < l.nested.len()
                invariant
                    j <= l.nested.len(),
                    base == old(out)@,
                    whole == parse_argument(*specs, kind, supports_default, i as int, *arg),
                    whole == parse_items(*specs, kind, supports_default, i as int, l.nested@, exclude, optional),
                    list_flags(supports_default, l.path.text@) == Some((exclude, optional)),
                    parse_items(*specs, kind, supports_default, i as int, l.nested@.take(j as int), exclude, optional)
                        matches Ok(done) && out@ == base + done,
                decreases l.nested.len() - j,
            {
                let ghost prefix = l.nested@.take(j as int);
                let ghost done = parse_items(*specs, kind, supports_default, i as int, prefix, exclude, optional)->Ok_0;
                assert(l.nested@.take(j + 1).drop_last() =~= prefix);
                let ghost step = parse_item(*specs, kind, supports_default, i as int, j as int, l.nested@[j as int], exclude, optional);
                match &l.nested[j] {
                    NestedItem::Path(p) => {
                        if p.segments.len() != 1 {
                            proof { lemma_items_error_persists(*specs, kind, supports_default, i as int, l.nested@, j as int + 1, exclude, optional); }
                            return Err(ExtendError::InvalidArgument { arg: i, kind });
                        }
                        if !validate_extension(specs, kind, &p.text) {
                            proof { lemma_items_error_persists(*specs, kind, supports_default, i as int, l.nested@, j as int + 1, exclude, optional); }
                            return Err(ExtendError::InvalidExtension { arg: i, item: Some(j), kind, text: p.text.clone() });
                        }
                        out.push(Extension { name: p.segments[0].clone(), exclude, optional, default: None });
                    },
                    NestedItem::NameValue(nv) => {
                        if !supports_default {
                            proof { lemma_items_error_persists(*specs, kind, supports_default, i as int, l.nested@, j as int + 1, exclude, optional); }
                            return Err(ExtendError::InvalidArgument { arg: i, kind });
                        }
                        if !validate_extension(specs, kind, &nv.path.text) {
                            proof { lemma_items_error_persists(*specs, kind, supports_default, i as int, l.nested@, j as int + 1, exclude, optional); }
                            return Err(ExtendError::InvalidExtension { arg: i, item: Some(j), kind, text: nv.path.text.clone() });
                        }
                        push_named_value(nv, exclude, optional, out);
                    },
                    NestedItem::Other => {
                        proof { lemma_items_error_persists(*specs, kind, supports_default, i as int, l.nested@, j as int + 1, exclude, optional); }
                        return Err(ExtendError::InvalidArgument { arg: i, kind });
                    },
                }
                assert(out@ =~= base + (done + step->Ok_0));
                j = j + 1;
            }
            assert(l.nested@.take(l.nested.len() as int) =~= l.nested@);
            Ok(())
        },
        _ => Err(ExtendError::InvalidArgument { arg: i, kind }),
    }
}

/// An error on an item stays the error of the whole list.
proof fn lemma_items_error_persists(
    specs: HtmlSpecs,
    kind: ExtensionKind,
    supports_default: bool,
    i: int,
    items: Seq<NestedItem>,
    n: int,
    exclude: bool,
    optional: bool,
)
    requires
        1 <= n <= items.len(),
        parse_items(specs, kind, supports_default, i, items.take(n - 1), exclude, optional) is Ok,
        parse_item(specs, kind, supports_default, i, n - 1, items[n - 1], exclude, optional) is Err,
    ensures
        parse_items(specs, kind, supports_default, i, items, exclude, optional) == Err::<Seq<Extension>, ExtendError>(
            parse_item(specs, kind, supports_default, i, n - 1, items[n - 1], exclude, optional)->Err_0,
        ),
    decreases items.len() - n,
{
    if n == items.len() {
        assert(items.drop_last() =~= items.take(n - 1));
    } else {
        let shorter = items.drop_last();
        assert(shorter.take(n - 1) =~= items.take(n - 1));
        lemma_items_error_persists(specs, kind, supports_default, i, shorter, n, exclude, optional);
    }
}

/// An error on an argument stays the error of all of them.
proof fn lemma_arguments_error_persists(
    specs: HtmlSpecs,
    kind: ExtensionKind,
    supports_default: bool,
    args: Seq<NestedMeta>,
    n: int,
)
    requires
        1 <= n <= args.len(),
        parse_arguments(specs, kind, supports_default, args.take(n - 1)) is Ok,
        parse_argument(specs, kind, supports_default, n - 1, args[n - 1]) is Err,
    ensures
        parse_arguments(specs, kind, supports_default, args) == Err::<Seq<Extension>, ExtendError>(
            parse_argument(specs, kind, supports_default, n - 1, args[n - 1])->Err_0,
        ),
    decreases args.len() - n,
{
    if n == args.len() {
        assert(args.drop_last() =~= args.take(n - 1));
    } else {
        let shorter = args.drop_last();
        assert(shorter.take(n - 1) =~= args.take(n - 1));
        lemma_arguments_error_persists(specs, kind, supports_default, shorter, n);
    }
}

/// The extensions that the macro's arguments list, in order: a name, or the
/// names inside `exclude(...)` (and, where defaults are supported, inside
/// `optional(...)` and `default(...)`, where `name = literal` gives a default).
/// Each name is checked against `specs`; the first refused argument is the error.
pub fn parse_extensions_args(
    specs: &HtmlSpecs,
    args: &Vec<NestedMeta>,
    kind: ExtensionKind,
    supports_default: bool,
) -> (r: Result<Vec<Extension>, ExtendError>)
    ensures
        match parse_arguments(*specs, kind, supports_default, args@) {
            Ok(s) => r matches Ok(v) && v@ == s,
            Err(e) => r matches Err(x) && x == e,
        },
{
    let mut out: Vec<Extension> = Vec::new();
    let mut i: usize = 0;
    assert(args@.take(0) =~= Seq::<NestedMeta>::empty());
    while i < args.len()
        invariant
            i <= args.len(),
            parse_arguments(*specs, kind, supports_default, args@.take(i as int)) == Ok::<Seq<Extension>, ExtendError>(out@),
        decreases args.len() - i,
    {
        assert(args@.take(i + 1).drop_last() =~= args@.take(i as int));
        let ghost before = out@;
        match parse_one_argument(specs, kind, supports_default, i, &args[i], &mut out) {
            Ok(()) => {},
            Err(e) => {
                proof {
                    lemma_arguments_error_persists(*specs, kind, supports_default, args@, i as int + 1);
                }
                return Err(e);
            },
        }
        i = i + 1;
    }
    assert(args@.take(args.len() as int) =~= args@);
    Ok(out)
}


/// `a` and `b` count as the same listing: the same name, and, when listings
/// are told apart by exclusion, the same exclusion.
pub open spec fn same_key(a: Extension, b: Extension, by_exclusion: bool) -> bool {
    a.name@ == b.name@ && (!by_exclusion || a.exclude == b.exclude)
}

/// The position of the first element of `r` that counts as the same listing as `e`.
pub open spec fn key_position(r: Seq<Extension>, e: Extension, by_exclusion: bool) -> Option<int>
    decreases r.len(),
{
    if r.len() == 0 {
        None
    } else if same_key(r[0], e, by_exclusion) {
        Some(0)
    } else {
        shifted(key_position(r.drop_first(), e, by_exclusion), 1)
    }
}

/// `s` with one element per listing: the last one listed, at the place where
/// the listing first appears.
pub open spec fn deduplicated(s: Seq<Extension>, by_exclusion: bool) -> Seq<Extension>
    decreases s.len(),
{
    if s.len() == 0 {
        seq![]
    } else {
        let r = deduplicated(s.drop_last(), by_exclusion);
        match key_position(r, s.last(), by_exclusion) {
            Some(k) => r.update(k, s.last()),
            None => r.push(s.last()),
        }
    }
}

/// The position found holds the same listing, and none before it does.
pub proof fn lemma_key_position(r: Seq<Extension>, e: Extension, by_exclusion: bool)
    ensures
        key_position(r, e, by_exclusion) matches Some(k) ==> 0 <= k < r.len() && same_key(r[k], e, by_exclusion)
            && forall|j: int| 0 <= j < k ==> !same_key(#[trigger] r[j], e, by_exclusion),
        key_position(r, e, by_exclusion) is None ==> forall|j: int| 0 <= j < r.len() ==> !same_key(#[trigger] r[j], e, by_exclusion),
    decreases r.len(),
{
    if r.len() > 0 {
        lemma_key_position(r.drop_first(), e, by_exclusion);
        if !same_key(r[0], e, by_exclusion) {
            assert forall|j: int| 0 < j < r.len() implies r[j] == r.drop_first()[j - 1] by {}
        }
    }
}

/// The position in `r` of the first listing the same as `e`.
fn find_key(r: &Vec<Extension>, e: &Extension, by_exclusion: bool) -> (p: Option<usize>)
    ensures
        match p {
            Some(k) => key_position(r@, *e, by_exclusion) == Some(k as int),
            None => key_position(r@, *e, by_exclusion) is None,
        },
{
    let mut i: usize = 0;
    assert(r@.skip(0) =~= r@);
    while i < r.len()
        invariant
            i <= r.len(),
            key_position(r@, *e, by_exclusion) == shifted(key_position(r@.skip(i as int), *e, by_exclusion), i as int),
        decreases r.len() - i,
    {
        if r[i].name == e.name && (!by_exclusion || r[i].exclude == e.exclude) {
            return Some(i);
        }
        assert(r@.skip(i as int).drop_first() =~= r@.skip(i + 1));
        i = i + 1;
    }
    None
}

/// One extension per listing (name, and exclusion when `by_exclusion`): the
/// last one listed wins.
pub fn deduplicate_extensions(s: &Vec<Extension>, by_exclusion: bool) -> (r: Vec<Extension>)
    ensures
        r@ == deduplicated(s@, by_exclusion),
{
    let mut out: Vec<Extension> = Vec::new();
    let mut i: usize = 0;
    assert(s@.take(0) =~= Seq::<Extension>::empty());
    while i < s.len()
        invariant
            i <= s.len(),
            out@ == deduplicated(s@.take(i as int), by_exclusion),
        decreases s.len() - i,
    {
        assert(s@.take(i + 1).drop_last() =~= s@.take(i as int));
        let e = &s[i];
        proof {
            lemma_key_position(out@, *e, by_exclusion);
        }
        match find_key(&out, e, by_exclusion) {
            Some(k) => {
                out.set(k, e.clone());
            },
            None => {
                out.push(e.clone());
            },
        }
        i = i + 1;
    }
    assert(s@.take(s.len() as int) =~= s@);
    out
}

/// Some listing in `s` excludes the name `n`.
pub open spec fn excluded_name(s: Seq<Extension>, n: Seq<char>) -> bool {
    exists|k: int| 0 <= k < s.len() && #[trigger] s[k].exclude && s[k].name@ == n
}

/// Every name listed for inclusion is also excluded (vacuously so when nothing
/// is included).
pub open spec fn nothing_net(s: Seq<Extension>) -> bool {
    forall|k: int| 0 <= k < s.len() && !#[trigger] s[k].exclude ==> excluded_name(s, s[k].name@)
}

/// The inclusions of `s` whose names `all` does not exclude, in order.
pub open spec fn net_of(s: Seq<Extension>, all: Seq<Extension>) -> Seq<Extension>
    decreases s.len(),
{
    if s.len() == 0 {
        seq![]
    } else {
        let r = net_of(s.drop_last(), all);
        if !s.last().exclude && !excluded_name(all, s.last().name@) {
            r.push(s.last())
        } else {
            r
        }
    }
}

/// Whether some listing in `s` excludes the name `n`.
fn is_excluded(s: &Vec<Extension>, n: &String) -> (r: bool)
    ensures
        r == excluded_name(s@, n@),
{
    let mut k: usize = 0;
    while k < s.len()
        invariant
            k <= s.len(),
            forall|m: int| 0 <= m < k ==> !(s@[m].exclude && s@[m].name@ == n@),
        decreases s.len() - k,
    {
        if s[k].exclude && s[k].name == *n {
            return true;
        }
        k = k + 1;
    }
    false
}

/// The extensions to add: the inclusions whose names are not excluded. Refused
/// when every included name is excluded.
pub fn net_extensions(extensions: Vec<Extension>, kind: ExtensionKind) -> (r: Result<Vec<Extension>, ExtendError>)
    ensures
        nothing_net(extensions@) ==> (r matches Err(e) && e == (ExtendError::NoNetExtensions { kind })),
        !nothing_net(extensions@) ==> (r matches Ok(v) && v@ == net_of(extensions@, extensions@)),
{
    let mut some_net = false;
    let mut k: usize = 0;
    while k < extensions.len()
        invariant
            k <= extensions.len(),
            some_net == (exists|m: int| 0 <= m < k && !extensions@[m].exclude && !excluded_name(extensions@, #[trigger] extensions@[m].name@)),
        decreases extensions.len() - k,
    {
        if !extensions[k].exclude && !is_excluded(&extensions, &extensions[k].name) {
            some_net = true;
        }
        k = k + 1;
    }
    if !some_net {
        return Err(ExtendError::NoNetExtensions { kind });
    }
    let mut out: Vec<Extension> = Vec::new();
    let mut i: usize = 0;
    assert(extensions@.take(0) =~= Seq::<Extension>::empty());
    while i < extensions.len()
        invariant
            i <= extensions.len(),
            out@ == net_of(extensions@.take(i as int), extensions@),
        decreases extensions.len() - i,
    {
        assert(extensions@.take(i + 1).drop_last() =~= extensions@.take(i as int));
        if !extensions[i].exclude && !is_excluded(&extensions, &extensions[i].name) {
            out.push(extensions[i].clone());
        }
        i = i + 1;
    }
    assert(extensions@.take(extensions.len() as int) =~= extensions@);
    Ok(out)
}

/// The net of a listing holds exactly its inclusions whose names nothing
/// excludes: whatever is excluded never gets a field, whatever is included and
/// not excluded does.
pub proof fn lemma_net_membership(s: Seq<Extension>, all: Seq<Extension>, x: Extension)
    ensures
        net_of(s, all).contains(x) <==> (s.contains(x) && !x.exclude && !excluded_name(all, x.name@)),
    decreases s.len(),
{
    if s.len() > 0 {
        let r = net_of(s.drop_last(), all);
        lemma_net_membership(s.drop_last(), all, x);
        assert(s =~= s.drop_last().push(s.last()));
        if s.contains(x) && x != s.last() {
            let i = choose|i: int| 0 <= i < s.len() && s[i] == x;
            assert(s.drop_last()[i] == x);
        }
        if s.drop_last().contains(x) {
            let i = choose|i: int| 0 <= i < s.drop_last().len() && s.drop_last()[i] == x;
            assert(s[i] == x);
        }
        if !s.last().exclude && !excluded_name(all, s.last().name@) {
            assert(r.push(s.last()).contains(x) <==> (r.contains(x) || x == s.last())) by {
                if r.push(s.last()).contains(x) {
                    let i = choose|i: int| 0 <= i < r.push(s.last()).len() && r.push(s.last())[i] == x;
                    if i < r.len() {
                        assert(r[i] == x);
                    }
                }
                if r.contains(x) {
                    let i = choose|i: int| 0 <= i < r.len() && r[i] == x;
                    assert(r.push(s.last())[i] == x);
                }
                if x == s.last() {
                    assert(r.push(s.last())[r.len() as int] == x);
                }
            }
        }
    }
}

/// No two elements of `r` count as the same listing.
pub open spec fn distinct_listings(r: Seq<Extension>, by_exclusion: bool) -> bool {
    forall|i: int, j: int| 0 <= i < j < r.len() ==> !same_key(#[trigger] r[i], #[trigger] r[j], by_exclusion)
}

/// Deduplication keeps no listing twice.
proof fn lemma_dedup_distinct(s: Seq<Extension>, by_exclusion: bool)
    ensures
        distinct_listings(deduplicated(s, by_exclusion), by_exclusion),
    decreases s.len(),
{
    if s.len() > 0 {
        let r = deduplicated(s.drop_last(), by_exclusion);
        let e = s.last();
        let d = deduplicated(s, by_exclusion);
        lemma_dedup_distinct(s.drop_last(), by_exclusion);
        lemma_key_position(r, e, by_exclusion);
        match key_position(r, e, by_exclusion) {
            Some(p) => {
                assert forall|i: int, j: int| 0 <= i < j < d.len() implies !same_key(#[trigger] d[i], #[trigger] d[j], by_exclusion) by {
                    assert(!same_key(r[i], r[j], by_exclusion));
                }
            },
            None => {
                assert forall|i: int, j: int| 0 <= i < j < d.len() implies !same_key(#[trigger] d[i], #[trigger] d[j], by_exclusion) by {
                    if j == r.len() {
                        assert(!same_key(r[i], e, by_exclusion));
                    } else {
                        assert(!same_key(r[i], r[j], by_exclusion));
                    }
                }
            },
        }
    }
}

/// Deduplication keeps every listing.
proof fn lemma_dedup_covers(s: Seq<Extension>, by_exclusion: bool)
    ensures
        forall|i: int| #![trigger s[i]] 0 <= i < s.len() ==> exists|k: int| 0 <= k < deduplicated(s, by_exclusion).len()
            && same_key(#[trigger] deduplicated(s, by_exclusion)[k], s[i], by_exclusion),
    decreases s.len(),
{
    if s.len() > 0 {
        let prev = s.drop_last();
        let r = deduplicated(prev, by_exclusion);
        let e = s.last();
        let n = s.len() - 1;
        let d = deduplicated(s, by_exclusion);
        lemma_dedup_covers(prev, by_exclusion);
        lemma_key_position(r, e, by_exclusion);
        assert forall|i: int| #![trigger s[i]] 0 <= i < s.len() implies exists|k: int| 0 <= k < d.len() && same_key(#[trigger] d[k], s[i], by_exclusion) by {
            if i == n {
                match key_position(r, e, by_exclusion) {
                    Some(p) => assert(same_key(d[p], s[i], by_exclusion)),
                    None => assert(same_key(d[r.len() as int], s[i], by_exclusion)),
                }
            } else {
                assert(prev[i] == s[i]);
                let k = choose|k: int| 0 <= k < r.len() && same_key(#[trigger] r[k], prev[i], by_exclusion);
                match key_position(r, e, by_exclusion) {
                    Some(p) => if k == p {
                        assert(same_key(d[p], s[i], by_exclusion));
                    } else {
                        assert(d[k] == r[k]);
                    },
                    None => assert(d[k] == r[k]),
                }
            }
        }
    }
}

/// What deduplication keeps is the last element of its listing.
proof fn lemma_dedup_last(s: Seq<Extension>, by_exclusion: bool)
    ensures
        forall|k: int| 0 <= k < deduplicated(s, by_exclusion).len() ==> exists|j: int| 0 <= j < s.len()
            && s[j] == #[trigger] deduplicated(s, by_exclusion)[k]
            && forall|j2: int| j < j2 < s.len() ==> !same_key(s[j2], deduplicated(s, by_exclusion)[k], by_exclusion),
    decreases s.len(),
{
    if s.len() > 0 {
        let prev = s.drop_last();
        let r = deduplicated(prev, by_exclusion);
        let e = s.last();
        let n = s.len() - 1;
        let d = deduplicated(s, by_exclusion);
        lemma_dedup_last(prev, by_exclusion);
        lemma_dedup_distinct(prev, by_exclusion);
        lemma_key_position(r, e, by_exclusion);
        assert forall|k: int| 0 <= k < d.len() implies exists|j: int| 0 <= j < s.len() && s[j] == #[trigger] d[k]
            && forall|j2: int| j < j2 < s.len() ==> !same_key(s[j2], d[k], by_exclusion) by {
            let is_new = match key_position(r, e, by_exclusion) {
                Some(p) => k == p,
                None => k == r.len(),
            };
            if is_new {
                assert(s[n] == d[k]);
            } else {
                assert(d[k] == r[k]);
                let j = choose|j: int| 0 <= j < prev.len() && prev[j] == #[trigger] r[k]
                    && forall|j2: int| j < j2 < prev.len() ==> !same_key(prev[j2], r[k], by_exclusion);
                assert(s[j] == d[k]);
                assert forall|j2: int| j < j2 < s.len() implies !same_key(s[j2], d[k], by_exclusion) by {
                    if j2 < n {
                        assert(s[j2] == prev[j2]);
                    } else {
                        match key_position(r, e, by_exclusion) {
                            Some(p) => if k < p {
                                assert(!same_key(r[k], r[p], by_exclusion));
                            } else {
                                assert(!same_key(r[p], r[k], by_exclusion));
                            },
                            None => assert(!same_key(r[k], e, by_exclusion)),
                        }
                    }
                }
            }
        }
    }
}

/// Deduplication keeps one element per listing, and the one it keeps is the
/// last of `s` with that listing: every listing of `s` is kept, none twice, and
/// no later element of `s` counts as the same listing as a kept one.
pub proof fn lemma_deduplicated(s: Seq<Extension>, by_exclusion: bool)
    ensures
        distinct_listings(deduplicated(s, by_exclusion), by_exclusion),
        forall|i: int| #![trigger s[i]] 0 <= i < s.len() ==> exists|k: int| 0 <= k < deduplicated(s, by_exclusion).len()
            && same_key(#[trigger] deduplicated(s, by_exclusion)[k], s[i], by_exclusion),
        forall|k: int| 0 <= k < deduplicated(s, by_exclusion).len() ==> exists|j: int| 0 <= j < s.len()
            && s[j] == #[trigger] deduplicated(s, by_exclusion)[k]
            && forall|j2: int| j < j2 < s.len() ==> !same_key(s[j2], deduplicated(s, by_exclusion)[k], by_exclusion),
{
    lemma_dedup_distinct(s, by_exclusion);
    lemma_dedup_covers(s, by_exclusion);
    lemma_dedup_last(s, by_exclusion);
}

/// A generic parameter of a struct.
#[derive(Debug)]
pub enum GenericParam {
    /// A lifetime such as `'a`.
    Lifetime(String),
    /// A type parameter.
    Type(String),
    /// A const parameter.
    Const(String),
}

/// The lifetime the added fields borrow with, and whether it is added to the
/// struct's generics.
#[derive(Debug)]
pub struct GenericsPlan {
    /// The lifetime of borrowed field types, if any.
    pub life_time: Option<String>,
    /// Whether that lifetime is new and goes first among the generics.
    pub inserted: bool,
}

/// The first lifetime parameter among `params`.
pub open spec fn first_lifetime(params: Seq<GenericParam>) -> Option<String>
    decreases params.len(),
{
    if params.len() == 0 {
        None
    } else {
        match params[0] {
            GenericParam::Lifetime(l) => Some(l),
            _ => first_lifetime(params.drop_first()),
        }
    }
}

/// `plan` is the lifetime plan for `params`: the struct's first lifetime if it
/// has one; otherwise a new `'a` when one is required; otherwise none.
pub open spec fn plans_generics(params: Seq<GenericParam>, requires_life_time: bool, plan: GenericsPlan) -> bool {
    match first_lifetime(params) {
        Some(l) => plan.life_time == Some(l) && !plan.inserted,
        None => if requires_life_time {
            plan.inserted && (plan.life_time matches Some(l) && l@ == "'a"@)
        } else {
            plan.life_time is None && !plan.inserted
        },
    }
}

/// The lifetime plan for a struct with generic parameters `params`.
pub fn parse_generics(params: &Vec<GenericParam>, requires_life_time: bool) -> (r: GenericsPlan)
    ensures
        plans_generics(params@, requires_life_time, r),
{
    let mut i: usize = 0;
    assert(params@.skip(0) =~= params@);
    while i < params.len()
        invariant
            i <= params.len(),
            first_lifetime(params@) == first_lifetime(params@.skip(i as int)),
        decreases params.len() - i,
    {
        match &params[i] {
            GenericParam::Lifetime(l) => {
                return GenericsPlan { life_time: Some(l.clone()), inserted: false };
            },
            _ => {},
        }
        assert(params@.skip(i as int).drop_first() =~= params@.skip(i + 1));
        i = i + 1;
    }
    if requires_life_time {
        GenericsPlan { life_time: Some(String::from_str("'a")), inserted: true }
    } else {
        GenericsPlan { life_time: None, inserted: false }
    }
}

/// The `#[props(...)]` attribute put on an added field.
#[derive(Debug)]
pub enum PropsAttribute {
    /// None.
    Plain,
    /// `#[props(optional)]`.
    Optional,
    /// `#[props(default)]`.
    Default,
    /// `#[props(default = literal)]`, with the literal's text.
    DefaultValue(String),
}

/// The type of an added field (before `Option` for optional fields); borrowed
/// texts borrow with the plan's lifetime.
#[derive(Debug)]
pub enum FieldType {
    /// `bool`.
    Bool,
    /// `&str`.
    Str,
    /// `Vec<&str>`.
    StrList,
    /// `dioxus::events::` followed by the named event type.
    Event(String),
}

/// A field added to the struct.
#[derive(Debug)]
pub struct FieldDecl {
    /// Its `#[props(...)]` attribute.
    pub props: PropsAttribute,
    /// Its name.
    pub name: String,
    /// Its type.
    pub ty: FieldType,
    /// Whether the type is wrapped in `Option`.
    pub optional: bool,
}

/// The kind of a struct's fields.
#[derive(Clone, Copy, Debug, PartialEq, Eq, Structural)]
pub enum FieldsKind {
    /// `{ a: A, ... }`.
    Named,
    /// `( A, ... )`.
    Unnamed,
    /// No fields.
    Unit,
}

/// The props attribute of an extension: its default if it has one (bare
/// `default` when the literal is empty), else `optional` for optional ones.
pub open spec fn props_attribute(e: Extension) -> PropsAttribute {
    match e.default {
        Some(l) => if l@.len() == 0 {
            PropsAttribute::Default
        } else {
            PropsAttribute::DefaultValue(l)
        },
        None => if e.optional {
            PropsAttribute::Optional
        } else {
            PropsAttribute::Plain
        },
    }
}

/// The field type for an attribute's kind of values.
pub open spec fn attribute_field_type(v: AttributeValue) -> FieldType {
    match v {
        AttributeValue::OnOff | AttributeValue::Boolean => FieldType::Bool,
        AttributeValue::UrlList => FieldType::StrList,
        _ => FieldType::Str,
    }
}

/// The field added for an attribute extension.
pub open spec fn attribute_field(specs: HtmlSpecs, e: Extension) -> Result<FieldDecl, ExtendError> {
    match find_first(specs.attributes@, e.name@) {
        Some(a) => Ok(
            FieldDecl { props: props_attribute(e), name: a.name, ty: attribute_field_type(a.values), optional: e.optional },
        ),
        None => Err(ExtendError::AttributeNotFound { name: e.name }),
    }
}

/// The field added for an event extension.
pub open spec fn event_field(specs: HtmlSpecs, e: Extension) -> Result<FieldDecl, ExtendError> {
    match find_first(specs.events@, e.name@) {
        Some(ev) => Ok(
            FieldDecl { props: PropsAttribute::Plain, name: ev.name, ty: FieldType::Event(ev.event_object), optional: false },
        ),
        None => Err(ExtendError::EventNotFound { name: e.name }),
    }
}

/// The field added for an extension of `kind`.
pub open spec fn extension_field(specs: HtmlSpecs, kind: ExtensionKind, e: Extension) -> Result<FieldDecl, ExtendError> {
    match kind {
        ExtensionKind::Attribute => attribute_field(specs, e),
        ExtensionKind::Event => event_field(specs, e),
    }
}

/// The fields added for `s`, in order, or the first error.
pub open spec fn extension_fields(specs: HtmlSpecs, kind: ExtensionKind, s: Seq<Extension>) -> Result<Seq<FieldDecl>, ExtendError>
    decreases s.len(),
{
    if s.len() == 0 {
        Ok(seq![])
    } else {
        match extension_fields(specs, kind, s.drop_last()) {
            Err(e) => Err(e),
            Ok(prefix) => match extension_field(specs, kind, s.last()) {
                Err(e) => Err(e),
                Ok(f) => Ok(prefix.push(f)),
            },
        }
    }
}

/// The field for an attribute: `bool` for on/off and boolean values, a list of
/// texts for URL lists, a text otherwise; wrapped in `Option` when optional.
pub fn write_attribute(attribute: &Attribute, optional: bool) -> (r: FieldDecl)
    ensures
        r == (FieldDecl {
            props: PropsAttribute::Plain,
            name: attribute.name,
            ty: attribute_field_type(attribute.values),
            optional,
        }),
{
    let ty = match attribute.values {
        AttributeValue::OnOff | AttributeValue::Boolean => FieldType::Bool,
        AttributeValue::UrlList => FieldType::StrList,
        _ => FieldType::Str,
    };
    FieldDecl { props: PropsAttribute::Plain, name: attribute.name.clone(), ty, optional }
}

/// The field added for an attribute extension, with its props attribute.
pub fn write_attribute_extension(specs: &HtmlSpecs, extension: &Extension) -> (r: Result<FieldDecl, ExtendError>)
    ensures
        r == attribute_field(*specs, *extension),
{
    let props = match &extension.default {
        Some(l) => if l.as_str().unicode_len() == 0 {
            PropsAttribute::Default
        } else {
            PropsAttribute::DefaultValue(l.clone())
        },
        None => if extension.optional {
            PropsAttribute::Optional
        } else {
            PropsAttribute::Plain
        },
    };
    match specs.get_attribute(&extension.name) {
        Some(a) => {
            let field = write_attribute(a, extension.optional);
            Ok(FieldDecl { props, name: field.name, ty: field.ty, optional: field.optional })
        },
        None => Err(ExtendError::AttributeNotFound { name: extension.name.clone() }),
    }
}

/// The field for an event: its handler type.
pub fn write_event(event: &Event) -> (r: FieldDecl)
    ensures
        r == (FieldDecl {
            props: PropsAttribute::Plain,
            name: event.name,
            ty: FieldType::Event(event.event_object),
            optional: false,
        }),
{
    FieldDecl {
        props: PropsAttribute::Plain,
        name: event.name.clone(),
        ty: FieldType::Event(event.event_object.clone()),
        optional: false,
    }
}

/// The field added for an event extension.
pub fn write_event_extension(specs: &HtmlSpecs, extension: &Extension) -> (r: Result<FieldDecl, ExtendError>)
    ensures
        r == event_field(*specs, *extension),
{
    match specs.get_event(&extension.name) {
        Some(ev) => Ok(write_event(ev)),
        None => Err(ExtendError::EventNotFound { name: extension.name.clone() }),
    }
}

/// The plan for the extended struct: its lifetime and the fields to add.
#[derive(Debug)]
pub struct ExtendedStruct {
    /// The lifetime plan.
    pub generics: GenericsPlan,
    /// The fields added after the struct's own, in order.
    pub fields: Vec<FieldDecl>,
}

/// The extended struct: refused for tuple structs; otherwise one field per
/// extension (the first extension with no entry in `specs` is the error), and
/// the lifetime plan.
pub fn extend_input_struct(
    specs: &HtmlSpecs,
    fields: FieldsKind,
    generics: &Vec<GenericParam>,
    extensions: &Vec<Extension>,
    requires_life_time: bool,
    kind: ExtensionKind,
) -> (r: Result<ExtendedStruct, ExtendError>)
    ensures
        fields == FieldsKind::Unnamed ==> (r matches Err(e) && e == ExtendError::UnnamedFields),
        fields != FieldsKind::Unnamed ==> match extension_fields(*specs, kind, extensions@) {
            Err(e) => r matches Err(x) && x == e,
            Ok(fs) => r matches Ok(x) && x.fields@ == fs && plans_generics(generics@, requires_life_time, x.generics),
        },
{
    let plan = parse_generics(generics, requires_life_time);
    if fields == FieldsKind::Unnamed {
        return Err(ExtendError::UnnamedFields);
    }
    let mut out: Vec<FieldDecl> = Vec::new();
    let mut i: usize = 0;
    assert(extensions@.take(0) =~= Seq::<Extension>::empty());
    while i < extensions.len()
        invariant
            i <= extensions.len(),
            fields != FieldsKind::Unnamed,
            extension_fields(*specs, kind, extensions@.take(i as int)) == Ok::<Seq<FieldDecl>, ExtendError>(out@),
        decreases extensions.len() - i,
    {
        assert(extensions@.take(i + 1).drop_last() =~= extensions@.take(i as int));
        let written = match kind {
            ExtensionKind::Attribute => write_attribute_extension(specs, &extensions[i]),
            ExtensionKind::Event => write_event_extension(specs, &extensions[i]),
        };
        match written {
            Ok(f) => out.push(f),
            Err(e) => {
                proof {
                    lemma_fields_error_persists(*specs, kind, extensions@, i as int + 1);
                }
                return Err(e);
            },
        }
        i = i + 1;
    }
    assert(extensions@.take(extensions.len() as int) =~= extensions@);
    Ok(ExtendedStruct { generics: plan, fields: out })
}

/// An error on an extension stays the error of all of them.
proof fn lemma_fields_error_persists(specs: HtmlSpecs, kind: ExtensionKind, s: Seq<Extension>, n: int)
    requires
        1 <= n <= s.len(),
        extension_fields(specs, kind, s.take(n - 1)) is Ok,
        extension_field(specs, kind, s[n - 1]) is Err,
    ensures
        extension_fields(specs, kind, s) == Err::<Seq<FieldDecl>, ExtendError>(extension_field(specs, kind, s[n - 1])->Err_0),
    decreases s.len() - n,
{
    if n == s.len() {
        assert(s.drop_last() =~= s.take(n - 1));
    } else {
        let shorter = s.drop_last();
        assert(shorter.take(n - 1) =~= s.take(n - 1));
        lemma_fields_error_persists(specs, kind, shorter, n);
    }
}

} // verus!
