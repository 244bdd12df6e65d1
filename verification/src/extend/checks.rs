//! Checks of the arguments of `attributes` and `events` that add no field: the
//! names must be known, something must be listed, and not everything listed
//! may be excluded again. Here `global` stands for the global attributes and a
//! tag category for the names of its tags, each without a trailing `-*`.
use vstd::prelude::*;

use crate::extend::{
    parse_arguments, parse_extensions_args, ExtendError, Extension, ExtensionKind,
};
use crate::meta::NestedMeta;
use crate::named::find_first;
use crate::specs::{Attribute, Event, HtmlSpecs, Tag};
use crate::text::{text_equal, trim_end_matches, trim_suffixes};

verus! {

/// A listing as the checks see it: a name and whether it is excluded.
pub open spec fn listing(e: Extension) -> (Seq<char>, bool) {
    (e.name@, e.exclude)
}

/// Listings of the global attributes' names (without a trailing `-*`).
pub open spec fn attribute_listings(attrs: Seq<Attribute>, exclude: bool) -> Seq<(Seq<char>, bool)>
    decreases attrs.len(),
{
    if attrs.len() == 0 {
        seq![]
    } else {
        attribute_listings(attrs.drop_last(), exclude).push((trim_suffixes(attrs.last().name@, "-*"@), exclude))
    }
}

/// Listings of the tags' names (without a trailing `-*`).
pub open spec fn tag_listings(tags: Seq<Tag>, exclude: bool) -> Seq<(Seq<char>, bool)>
    decreases tags.len(),
{
    if tags.len() == 0 {
        seq![]
    } else {
        tag_listings(tags.drop_last(), exclude).push((trim_suffixes(tags.last().name@, "-*"@), exclude))
    }
}

/// Listings of the events' names.
pub open spec fn event_listings(events: Seq<Event>, exclude: bool) -> Seq<(Seq<char>, bool)>
    decreases events.len(),
{
    if events.len() == 0 {
        seq![]
    } else {
        event_listings(events.drop_last(), exclude).push((events.last().name@, exclude))
    }
}

/// What one listed name stands for in the checks.
pub open spec fn listings_of(specs: HtmlSpecs, kind: ExtensionKind, e: Extension) -> Seq<(Seq<char>, bool)> {
    match kind {
        ExtensionKind::Attribute => if e.name@ == "global"@ {
            attribute_listings(specs.global_attributes@, e.exclude)
        } else {
            match find_first(specs.tag_categories@, e.name@) {
                Some(c) => tag_listings(c.tags@, e.exclude),
                None => seq![listing(e)],
            }
        },
        ExtensionKind::Event => match find_first(specs.event_categories@, e.name@) {
            Some(c) => event_listings(c.events@, e.exclude),
            None => seq![listing(e)],
        },
    }
}

/// What the listed names stand for, in order.
pub open spec fn all_listings(specs: HtmlSpecs, kind: ExtensionKind, s: Seq<Extension>) -> Seq<(Seq<char>, bool)>
    decreases s.len(),
{
    if s.len() == 0 {
        seq![]
    } else {
        all_listings(specs, kind, s.drop_last()) + listings_of(specs, kind, s.last())
    }
}

/// Every included name is also excluded.
pub open spec fn listings_nothing_net(l: Seq<(Seq<char>, bool)>) -> bool {
    forall|k: int| 0 <= k < l.len() && !(#[trigger] l[k]).1 ==> exists|m: int| 0 <= m < l.len() && l[m].1 && l[m].0 == l[k].0
}

/// How the checks report an argument refusal: a list of any name but
/// `exclude` is an argument of a form that is not accepted.
pub open spec fn check_error(e: ExtendError) -> ExtendError {
    match e {
        ExtendError::InvalidList { arg, kind } => ExtendError::InvalidArgument { arg, kind },
        _ => e,
    }
}

/// The outcome of checking the arguments.
pub open spec fn checked(specs: HtmlSpecs, kind: ExtensionKind, args: Seq<NestedMeta>) -> Result<(), ExtendError> {
    match parse_arguments(specs, kind, false, args) {
        Err(e) => Err(check_error(e)),
        Ok(parsed) => {
            let l = all_listings(specs, kind, parsed);
            if l.len() == 0 {
                Err(ExtendError::NoExtensions { kind })
            } else if listings_nothing_net(l) {
                Err(ExtendError::NoNetExtensions { kind })
            } else {
                Ok(())
            }
        },
    }
}

/// The listings of `s`.
pub open spec fn listings(s: Seq<Extension>) -> Seq<(Seq<char>, bool)> {
    s.map_values(|e: Extension| listing(e))
}

/// The listed names (a name, or names inside `exclude(...)`), each checked
/// against `specs`; the first refused argument is the error, and a list of
/// any name but `exclude` is an argument of a form that is not accepted.
pub fn extensions(specs: &HtmlSpecs, args: &Vec<NestedMeta>, kind: ExtensionKind) -> (r: Result<Vec<Extension>, ExtendError>)
    ensures
        match parse_arguments(*specs, kind, false, args@) {
            Ok(s) => r matches Ok(v) && v@ == s,
            Err(e) => r matches Err(x) && x == check_error(e),
        },
{
    match parse_extensions_args(specs, args, kind, false) {
        Ok(v) => Ok(v),
        Err(ExtendError::InvalidList { arg, kind }) => Err(ExtendError::InvalidArgument { arg, kind }),
        Err(e) => Err(e),
    }
}

/// Refuses listings in which every included name is also excluded.
pub fn check_net_extensions(extensions: &Vec<Extension>, kind: ExtensionKind) -> (r: Result<(), ExtendError>)
    ensures
        listings_nothing_net(listings(extensions@)) ==> (r matches Err(e) && e == (ExtendError::NoNetExtensions { kind })),
        !listings_nothing_net(listings(extensions@)) ==> r is Ok,
{
    let ghost l = listings(extensions@);
    let mut k: usize = 0;
    while k < extensions.len()
        invariant
            k <= extensions.len(),
            l == listings(extensions@),
            forall|j: int| 0 <= j < k && !(#[trigger] l[j]).1 ==> exists|m: int| 0 <= m < l.len() && l[m].1 && l[m].0 == l[j].0,
        decreases extensions.len() - k,
    {
        if !extensions[k].exclude {
            let mut found = false;
            let mut m: usize = 0;
            while m < extensions.len()
                invariant
                    m <= extensions.len(),
                    k < extensions.len(),
                    l == listings(extensions@),
                    found ==> exists|m2: int| 0 <= m2 < l.len() && l[m2].1 && l[m2].0 == l[k as int].0,
                    !found ==> forall|m2: int| 0 <= m2 < m ==> !(l[m2].1 && l[m2].0 == l[k as int].0),
                decreases extensions.len() - m,
            {
                assert(l[m as int] == listing(extensions@[m as int]));
                assert(l[k as int] == listing(extensions@[k as int]));
                if extensions[m].exclude && extensions[m].name == extensions[k].name {
                    found = true;
                }
                m = m + 1;
            }
            if !found {
                assert(!listings_nothing_net(l)) by {
                    assert(!l[k as int].1);
                }
                return Ok(());
            }
        }
        k = k + 1;
    }
    Err(ExtendError::NoNetExtensions { kind })
}

/// Appends to `out` what one listed name stands for.
fn push_listings(specs: &HtmlSpecs, kind: ExtensionKind, e: &Extension, out: &mut Vec<Extension>)
    ensures
        listings(final(out)@) == listings(old(out)@) + listings_of(*specs, kind, *e),
{
    let ghost base = listings(out@);
    match kind {
        ExtensionKind::Attribute => {
            if text_equal(e.name.as_str(), "global") {
                let mut i: usize = 0;
                assert(specs.global_attributes@.take(0) =~= Seq::<Attribute>::empty());
                assert(listings(out@) =~= base + attribute_listings(specs.global_attributes@.take(0), e.exclude));
                while i < specs.global_attributes.len()
                    invariant
                        i <= specs.global_attributes.len(),
                        listings(out@) == base + attribute_listings(specs.global_attributes@.take(i as int), e.exclude),
                    decreases specs.global_attributes.len() - i,
                {
                    assert(specs.global_attributes@.take(i + 1).drop_last() =~= specs.global_attributes@.take(i as int));
                    let name = trim_end_matches(specs.global_attributes[i].name.as_str(), "-*");
                    let ghost before = out@;
                    out.push(Extension { name, exclude: e.exclude, optional: false, default: None });
                    assert(listings(out@) =~= listings(before).push(listing(out@.last())));
                    assert(listings(out@) =~= base + attribute_listings(specs.global_attributes@.take(i + 1), e.exclude));
                    i = i + 1;
                }
                assert(specs.global_attributes@.take(specs.global_attributes.len() as int) =~= specs.global_attributes@);
            } else {
                match specs.get_tag_category(&e.name) {
                    Some(category) => {
                        let mut i: usize = 0;
                        assert(category.tags@.take(0) =~= Seq::<Tag>::empty());
                        assert(listings(out@) =~= base + tag_listings(category.tags@.take(0), e.exclude));
                        while i < category.tags.len()
                            invariant
                                i <= category.tags.len(),
                                listings(out@) == base + tag_listings(category.tags@.take(i as int), e.exclude),
                            decreases category.tags.len() - i,
                        {
                            assert(category.tags@.take(i + 1).drop_last() =~= category.tags@.take(i as int));
                            let name = trim_end_matches(category.tags[i].name.as_str(), "-*");
                            let ghost before = out@;
                            out.push(Extension { name, exclude: e.exclude, optional: false, default: None });
                            assert(listings(out@) =~= listings(before).push(listing(out@.last())));
                            assert(listings(out@) =~= base + tag_listings(category.tags@.take(i + 1), e.exclude));
                            i = i + 1;
                        }
                        assert(category.tags@.take(category.tags.len() as int) =~= category.tags@);
                    },
                    None => {
                        let ghost before = out@;
                        out.push(e.clone());
                        assert(listings(out@) =~= listings(before).push(listing(*e)));
                        assert(listings(out@) =~= base + seq![listing(*e)]);
                    },
                }
            }
        },
        ExtensionKind::Event => {
            match specs.get_event_category(&e.name) {
                Some(category) => {
                    let mut i: usize = 0;
                    assert(category.events@.take(0) =~= Seq::<Event>::empty());
                    assert(listings(out@) =~= base + event_listings(category.events@.take(0), e.exclude));
                    while i < category.events.len()
                        invariant
                            i <= category.events.len(),
                            listings(out@) == base + event_listings(category.events@.take(i as int), e.exclude),
                        decreases category.events.len() - i,
                    {
                        assert(category.events@.take(i + 1).drop_last() =~= category.events@.take(i as int));
                        let ghost before = out@;
                        out.push(Extension { name: category.events[i].name.clone(), exclude: e.exclude, optional: false, default: None });
                        assert(listings(out@) =~= listings(before).push(listing(out@.last())));
                        assert(listings(out@) =~= base + event_listings(category.events@.take(i + 1), e.exclude));
                        i = i + 1;
                    }
                    assert(category.events@.take(category.events.len() as int) =~= category.events@);
                },
                None => {
                    let ghost before = out@;
                    out.push(e.clone());
                    assert(listings(out@) =~= listings(before).push(listing(*e)));
                    assert(listings(out@) =~= base + seq![listing(*e)]);
                },
            }
        },
    }
}

/// Checks the arguments of a macro of `kind`.
fn check_arguments(specs: &HtmlSpecs, args: &Vec<NestedMeta>, kind: ExtensionKind) -> (r: Result<(), ExtendError>)
    ensures
        match checked(*specs, kind, args@) {
            Ok(()) => r is Ok,
            Err(e) => r matches Err(x) && x == e,
        },
{
    let parsed = match extensions(specs, args, kind) {
        Ok(v) => v,
        Err(e) => return Err(e),
    };
    let mut listed: Vec<Extension> = Vec::new();
    let mut i: usize = 0;
    assert(parsed@.take(0) =~= Seq::<Extension>::empty());
    assert(listings(listed@) =~= Seq::<(Seq<char>, bool)>::empty());
    while i < parsed.len()
        invariant
            i <= parsed.len(),
            listings(listed@) == all_listings(*specs, kind, parsed@.take(i as int)),
        decreases parsed.len() - i,
    {
        assert(parsed@.take(i + 1).drop_last() =~= parsed@.take(i as int));
        push_listings(specs, kind, &parsed[i], &mut listed);
        i = i + 1;
    }
    assert(parsed@.take(parsed.len() as int) =~= parsed@);
    if listed.len() == 0 {
        return Err(ExtendError::NoExtensions { kind });
    }
    check_net_extensions(&listed, kind)
}

/// Checks the arguments of `attributes`: each name an attribute, tag, tag
/// category or `global`; something listed; not everything excluded again.
pub fn extend_struct_attributes(specs: &HtmlSpecs, args: &Vec<NestedMeta>) -> (r: Result<(), ExtendError>)
    ensures
        match checked(*specs, ExtensionKind::Attribute, args@) {
            Ok(()) => r is Ok,
            Err(e) => r matches Err(x) && x == e,
        },
{
    check_arguments(specs, args, ExtensionKind::Attribute)
}

/// Checks the arguments of `events`: each name an event or event category;
/// something listed; not everything excluded again.
pub fn extend_struct_events(specs: &HtmlSpecs, args: &Vec<NestedMeta>) -> (r: Result<(), ExtendError>)
    ensures
        match checked(*specs, ExtensionKind::Event, args@) {
            Ok(()) => r is Ok,
            Err(e) => r matches Err(x) && x == e,
        },
{
    check_arguments(specs, args, ExtensionKind::Event)
}

/// The listings of attributes: one per attribute, its name without a trailing `-*`.
pub proof fn lemma_attribute_listings_members(s: Seq<Attribute>, exclude: bool)
    ensures
        forall|l: (Seq<char>, bool)| #[trigger] attribute_listings(s, exclude).contains(l) <==> l.1 == exclude && exists|a: Attribute|
            #[trigger] s.contains(a) && l.0 == trim_suffixes(a.name@, "-*"@),
    decreases s.len(),
{
    if s.len() > 0 {
        let shorter = s.drop_last();
        let last = s.last();
        lemma_attribute_listings_members(shorter, exclude);
        let q = attribute_listings(shorter, exclude);
        let d = (trim_suffixes(last.name@, "-*"@), exclude);
        assert(s[s.len() - 1] == last);
        assert(s.contains(last));
        assert(attribute_listings(s, exclude) == q.push(d));
        assert forall|l: (Seq<char>, bool)| #[trigger] attribute_listings(s, exclude).contains(l) <==> l.1 == exclude && exists|a: Attribute|
            #[trigger] s.contains(a) && l.0 == trim_suffixes(a.name@, "-*"@) by {
            let r = q.push(d);
            if r.contains(l) && l != d {
                let i = choose|i: int| 0 <= i < r.len() && r[i] == l;
                assert(i < q.len());
                assert(q[i] == l);
                assert(q.contains(l));
                let y = choose|a: Attribute| #[trigger] shorter.contains(a) && l.0 == trim_suffixes(a.name@, "-*"@);
                let k = choose|k: int| 0 <= k < shorter.len() && shorter[k] == y;
                assert(s[k] == y);
                assert(s.contains(y));
            }
            if l.1 == exclude && exists|a: Attribute| #[trigger] s.contains(a) && l.0 == trim_suffixes(a.name@, "-*"@) {
                let y = choose|a: Attribute| #[trigger] s.contains(a) && l.0 == trim_suffixes(a.name@, "-*"@);
                let k = choose|k: int| 0 <= k < s.len() && s[k] == y;
                if k < s.len() - 1 {
                    assert(shorter[k] == y);
                    assert(shorter.contains(y));
                    assert(q.contains(l));
                    let i = choose|i: int| 0 <= i < q.len() && q[i] == l;
                    assert(r[i] == l);
                } else {
                    assert(l == d);
                    assert(r[q.len() as int] == l);
                }
            }
        }
    }
}

/// The listings of tags: one per tag, its name without a trailing `-*`.
pub proof fn lemma_tag_listings_members(s: Seq<Tag>, exclude: bool)
    ensures
        forall|l: (Seq<char>, bool)| #[trigger] tag_listings(s, exclude).contains(l) <==> l.1 == exclude && exists|t: Tag|
            #[trigger] s.contains(t) && l.0 == trim_suffixes(t.name@, "-*"@),
    decreases s.len(),
{
    if s.len() > 0 {
        let shorter = s.drop_last();
        let last = s.last();
        lemma_tag_listings_members(shorter, exclude);
        let q = tag_listings(shorter, exclude);
        let d = (trim_suffixes(last.name@, "-*"@), exclude);
        assert(s[s.len() - 1] == last);
        assert(s.contains(last));
        assert(tag_listings(s, exclude) == q.push(d));
        assert forall|l: (Seq<char>, bool)| #[trigger] tag_listings(s, exclude).contains(l) <==> l.1 == exclude && exists|t: Tag|
            #[trigger] s.contains(t) && l.0 == trim_suffixes(t.name@, "-*"@) by {
            let r = q.push(d);
            if r.contains(l) && l != d {
                let i = choose|i: int| 0 <= i < r.len() && r[i] == l;
                assert(i < q.len());
                assert(q[i] == l);
                assert(q.contains(l));
                let y = choose|t: Tag| #[trigger] shorter.contains(t) && l.0 == trim_suffixes(t.name@, "-*"@);
                let k = choose|k: int| 0 <= k < shorter.len() && shorter[k] == y;
                assert(s[k] == y);
                assert(s.contains(y));
            }
            if l.1 == exclude && exists|t: Tag| #[trigger] s.contains(t) && l.0 == trim_suffixes(t.name@, "-*"@) {
                let y = choose|t: Tag| #[trigger] s.contains(t) && l.0 == trim_suffixes(t.name@, "-*"@);
                let k = choose|k: int| 0 <= k < s.len() && s[k] == y;
                if k < s.len() - 1 {
                    assert(shorter[k] == y);
                    assert(shorter.contains(y));
                    assert(q.contains(l));
                    let i = choose|i: int| 0 <= i < q.len() && q[i] == l;
                    assert(r[i] == l);
                } else {
                    assert(l == d);
                    assert(r[q.len() as int] == l);
                }
            }
        }
    }
}

/// The listings of events: one per event, its name.
pub proof fn lemma_event_listings_members(s: Seq<Event>, exclude: bool)
    ensures
        forall|l: (Seq<char>, bool)| #[trigger] event_listings(s, exclude).contains(l) <==> l.1 == exclude && exists|v: Event|
            #[trigger] s.contains(v) && l.0 == v.name@,
    decreases s.len(),
{
    if s.len() > 0 {
        let shorter = s.drop_last();
        let last = s.last();
        lemma_event_listings_members(shorter, exclude);
        let q = event_listings(shorter, exclude);
        let d = (last.name@, exclude);
        assert(s[s.len() - 1] == last);
        assert(s.contains(last));
        assert(event_listings(s, exclude) == q.push(d));
        assert forall|l: (Seq<char>, bool)| #[trigger] event_listings(s, exclude).contains(l) <==> l.1 == exclude && exists|v: Event|
            #[trigger] s.contains(v) && l.0 == v.name@ by {
            let r = q.push(d);
            if r.contains(l) && l != d {
                let i = choose|i: int| 0 <= i < r.len() && r[i] == l;
                assert(i < q.len());
                assert(q[i] == l);
                assert(q.contains(l));
                let y = choose|v: Event| #[trigger] shorter.contains(v) && l.0 == v.name@;
                let k = choose|k: int| 0 <= k < shorter.len() && shorter[k] == y;
                assert(s[k] == y);
                assert(s.contains(y));
            }
            if l.1 == exclude && exists|v: Event| #[trigger] s.contains(v) && l.0 == v.name@ {
                let y = choose|v: Event| #[trigger] s.contains(v) && l.0 == v.name@;
                let k = choose|k: int| 0 <= k < s.len() && s[k] == y;
                if k < s.len() - 1 {
                    assert(shorter[k] == y);
                    assert(shorter.contains(y));
                    assert(q.contains(l));
                    let i = choose|i: int| 0 <= i < q.len() && q[i] == l;
                    assert(r[i] == l);
                } else {
                    assert(l == d);
                    assert(r[q.len() as int] == l);
                }
            }
        }
    }
}

/// What one listed name stands for in the checks, element by element: for
/// attributes, `global` stands for every global attribute and a tag category
/// for every one of its tags (names without a trailing `-*`); for events, an
/// event category stands for every one of its events; any other name stands
/// for itself. Every listing keeps the exclusion of the name listed.
pub proof fn lemma_listings_of_members(specs: HtmlSpecs, kind: ExtensionKind, e: Extension)
    ensures
        forall|l: (Seq<char>, bool)| #[trigger] listings_of(specs, kind, e).contains(l) <==> l.1 == e.exclude && match kind {
            ExtensionKind::Attribute => if e.name@ == "global"@ {
                exists|a: Attribute| #[trigger] specs.global_attributes@.contains(a) && l.0 == trim_suffixes(a.name@, "-*"@)
            } else {
                match find_first(specs.tag_categories@, e.name@) {
                    Some(c) => exists|t: Tag| #![trigger trim_suffixes(t.name@, "-*"@)] c.tags@.contains(t) && l.0 == trim_suffixes(
                        t.name@,
                        "-*"@,
                    ),
                    None => l.0 == e.name@,
                }
            },
            ExtensionKind::Event => match find_first(specs.event_categories@, e.name@) {
                Some(c) => exists|v: Event| #![trigger v.name] c.events@.contains(v) && l.0 == v.name@,
                None => l.0 == e.name@,
            },
        },
{
    assert forall|l: (Seq<char>, bool)| #[trigger] seq![listing(e)].contains(l) <==> l == listing(e) by {
        assert(seq![listing(e)][0] == listing(e));
    }
    match kind {
        ExtensionKind::Attribute => {
            lemma_attribute_listings_members(specs.global_attributes@, e.exclude);
            if let Some(c) = find_first(specs.tag_categories@, e.name@) {
                lemma_tag_listings_members(c.tags@, e.exclude);
            }
        },
        ExtensionKind::Event => {
            if let Some(c) = find_first(specs.event_categories@, e.name@) {
                lemma_event_listings_members(c.events@, e.exclude);
            }
        },
    }
}

/// The listings of several listed names are those of each of them.
pub proof fn lemma_all_listings_members(specs: HtmlSpecs, kind: ExtensionKind, s: Seq<Extension>)
    ensures
        forall|l: (Seq<char>, bool)| #[trigger] all_listings(specs, kind, s).contains(l) <==> exists|i: int|
            0 <= i < s.len() && #[trigger] listings_of(specs, kind, s[i]).contains(l),
    decreases s.len(),
{
    if s.len() > 0 {
        let shorter = s.drop_last();
        let k = s.len() - 1;
        lemma_all_listings_members(specs, kind, shorter);
        let p = all_listings(specs, kind, shorter);
        let q = listings_of(specs, kind, s.last());
        assert(all_listings(specs, kind, s) == p + q);
        assert(s[k] == s.last());
        assert forall|l: (Seq<char>, bool)| #[trigger] all_listings(specs, kind, s).contains(l) <==> exists|i: int|
            0 <= i < s.len() && #[trigger] listings_of(specs, kind, s[i]).contains(l) by {
            if (p + q).contains(l) {
                let j = choose|j: int| 0 <= j < (p + q).len() && (p + q)[j] == l;
                if j < p.len() {
                    assert(p[j] == l);
                    assert(p.contains(l));
                    let i = choose|i: int| 0 <= i < shorter.len() && #[trigger] listings_of(specs, kind, shorter[i]).contains(l);
                    assert(shorter[i] == s[i]);
                    assert(listings_of(specs, kind, s[i]).contains(l));
                } else {
                    assert(q[j - p.len()] == l);
                    assert(listings_of(specs, kind, s[k]).contains(l));
                }
            }
            if exists|i: int| 0 <= i < s.len() && #[trigger] listings_of(specs, kind, s[i]).contains(l) {
                let i = choose|i: int| 0 <= i < s.len() && #[trigger] listings_of(specs, kind, s[i]).contains(l);
                if i < k {
                    assert(shorter[i] == s[i]);
                    assert(listings_of(specs, kind, shorter[i]).contains(l));
                    assert(p.contains(l));
                    let j = choose|j: int| 0 <= j < p.len() && p[j] == l;
                    assert((p + q)[j] == l);
                } else {
                    let j = choose|j: int| 0 <= j < q.len() && q[j] == l;
                    assert((p + q)[j + p.len()] == l);
                }
            }
        }
    }
}

/// Once the arguments are read, the checks pass exactly when some name is
/// listed for inclusion (by itself, through `global` or through a category)
/// and not for exclusion.
pub proof fn lemma_checked_outcome(specs: HtmlSpecs, kind: ExtensionKind, args: Seq<NestedMeta>)
    ensures
        parse_arguments(specs, kind, false, args) matches Ok(parsed) ==> (checked(specs, kind, args) is Ok <==> exists|n: Seq<char>|
            #[trigger] all_listings(specs, kind, parsed).contains((n, false)) && !all_listings(specs, kind, parsed).contains((n, true))),
{
    if let Ok(parsed) = parse_arguments(specs, kind, false, args) {
        let l = all_listings(specs, kind, parsed);
        if checked(specs, kind, args) is Ok {
            assert(l.len() > 0 && !listings_nothing_net(l));
            let k = choose|k: int| 0 <= k < l.len() && !(#[trigger] l[k]).1 && !exists|m: int| 0 <= m < l.len() && l[m].1 && l[m].0 == l[k].0;
            let n = l[k].0;
            assert(l[k] == (n, false));
            assert(l.contains((n, false)));
            if l.contains((n, true)) {
                let m = choose|m: int| 0 <= m < l.len() && l[m] == (n, true);
                assert(l[m].1 && l[m].0 == l[k].0);
            }
        }
        if exists|n: Seq<char>| #[trigger] l.contains((n, false)) && !l.contains((n, true)) {
            let n = choose|n: Seq<char>| #[trigger] l.contains((n, false)) && !l.contains((n, true));
            let k = choose|k: int| 0 <= k < l.len() && l[k] == (n, false);
            assert(l.len() > 0);
            if listings_nothing_net(l) {
                assert(!l[k].1);
                let m = choose|m: int| 0 <= m < l.len() && l[m].1 && l[m].0 == l[k].0;
                assert(l[m] == (n, true));
                assert(l.contains((n, true)));
            }
        }
    }
}

} // verus!
