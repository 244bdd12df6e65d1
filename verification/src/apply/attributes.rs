//! Applying a component's attribute properties to an element: which properties
//! an attribute list names, and how each is passed on.
use std::cmp::Ordering;
use vstd::prelude::*;

use crate::common::{attributes_of_tag, tag_attributes};
use crate::extend::attributes::{category_attributes, is_data_attribute, lemma_category_attributes_members};
use crate::extend::{is_valid_extension, validate_extension, ExtensionKind};
use crate::named::{find_first, has_name, Named};
use crate::sort::{distinct_by, lemma_rearranged_distinct_by, sort_by_name, sorted_by_name};
use crate::specs::{Attribute, HtmlSpecs, Tag};
use crate::text::{lemma_lex_irreflexive, lemma_lex_total, lex_lt, starts_with, text_equal, text_less};

verus! {

/// A property passed on to an element's attribute.
#[derive(Debug)]
pub enum Property {
    /// Passed on with its debug format (`{:?}`), as for an `Option`.
    Optional(String),
    /// Passed on with its display format (`{}`).
    Required(String),
}

impl Clone for Property {
    fn clone(&self) -> (r: Self)
        ensures
            r == *self,
    {
        match self {
            Property::Optional(v) => Property::Optional(v.clone()),
            Property::Required(v) => Property::Required(v.clone()),
        }
    }
}

impl Property {
    /// The attribute's name.
    pub open spec fn value(self) -> String {
        match self {
            Property::Optional(v) => v,
            Property::Required(v) => v,
        }
    }

    /// The property with its name replaced by `v`, keeping its variant.
    pub open spec fn remapped(self, v: String) -> Property {
        match self {
            Property::Optional(_) => Property::Optional(v),
            Property::Required(_) => Property::Required(v),
        }
    }

    /// What tells two properties apart: the variant and the name.
    pub open spec fn key(self) -> (bool, Seq<char>) {
        (self is Optional, self.value()@)
    }

    /// The property with its name replaced by `new_value`, keeping its variant.
    pub fn remap(&self, new_value: String) -> (r: Self)
        ensures
            r == self.remapped(new_value),
    {
        match self {
            Property::Optional(_) => Property::Optional(new_value),
            Property::Required(_) => Property::Required(new_value),
        }
    }

    /// The attribute's name.
    pub fn as_ref(&self) -> (r: &str)
        ensures
            r@ == self.value()@,
    {
        match self {
            Property::Optional(v) => v.as_str(),
            Property::Required(v) => v.as_str(),
        }
    }

    /// Properties are ordered by name alone.
    pub fn cmp(&self, other: &Self) -> (o: Ordering)
        ensures
            (o == Ordering::Less) == lex_lt(self.value()@, other.value()@),
            (o == Ordering::Greater) == lex_lt(other.value()@, self.value()@),
            (o == Ordering::Equal) == (self.value()@ == other.value()@),
    {
        proof {
            lemma_lex_total(self.value()@, other.value()@);
            lemma_lex_irreflexive(self.value()@);
            if lex_lt(self.value()@, other.value()@) && lex_lt(other.value()@, self.value()@) {
                crate::text::lemma_lex_transitive(self.value()@, other.value()@, self.value()@);
            }
        }
        if text_less(self.as_ref(), other.as_ref()) {
            Ordering::Less
        } else if text_less(other.as_ref(), self.as_ref()) {
            Ordering::Greater
        } else {
            Ordering::Equal
        }
    }

    /// Properties are ordered by name alone; any two compare.
    pub fn partial_cmp(&self, other: &Self) -> (o: Option<Ordering>)
        ensures
            o matches Some(c) && (c == Ordering::Less) == lex_lt(self.value()@, other.value()@)
                && (c == Ordering::Greater) == lex_lt(other.value()@, self.value()@)
                && (c == Ordering::Equal) == (self.value()@ == other.value()@),
    {
        Some(self.cmp(other))
    }

    /// Whether the two properties are equal: same variant, same name.
    pub fn same_as(&self, other: &Self) -> (r: bool)
        ensures
            r == (self.key() == other.key()),
    {
        match (self, other) {
            (Property::Optional(a), Property::Optional(b)) => *a == *b,
            (Property::Required(a), Property::Required(b)) => *a == *b,
            _ => false,
        }
    }

    /// The format the property is passed on with: `{:?}` for optional ones,
    /// `{}` for required ones.
    pub fn format_parameter(&self) -> (r: &'static str)
        ensures
            r@ == (if self is Optional { "{:?}"@ } else { "{}"@ }),
    {
        match self {
            Property::Optional(_) => "{:?}",
            Property::Required(_) => "{}",
        }
    }
}

/// Properties are totally ordered by name: of two properties exactly one of
/// "before", "after" and "same name" holds, and "before" is transitive.
pub proof fn lemma_property_order(a: Property, b: Property, c: Property)
    ensures
        lex_lt(a.value()@, b.value()@) || lex_lt(b.value()@, a.value()@) || a.value()@ == b.value()@,
        !(lex_lt(a.value()@, b.value()@) && lex_lt(b.value()@, a.value()@)),
        !(lex_lt(a.value()@, b.value()@) && a.value()@ == b.value()@),
        lex_lt(a.value()@, b.value()@) && lex_lt(b.value()@, c.value()@) ==> lex_lt(a.value()@, c.value()@),
{
    lemma_lex_total(a.value()@, b.value()@);
    lemma_lex_irreflexive(a.value()@);
    if lex_lt(a.value()@, b.value()@) && lex_lt(b.value()@, a.value()@) {
        crate::text::lemma_lex_transitive(a.value()@, b.value()@, a.value()@);
    }
    if lex_lt(a.value()@, b.value()@) && lex_lt(b.value()@, c.value()@) {
        crate::text::lemma_lex_transitive(a.value()@, b.value()@, c.value()@);
    }
}

impl Named for Property {
    open spec fn name_view(&self) -> Seq<char> {
        self.value()@
    }

    fn name(&self) -> (r: &String) {
        match self {
            Property::Optional(v) => v,
            Property::Required(v) => v,
        }
    }
}

/// An element and the properties applied to its attributes.
#[derive(Debug)]
pub struct ApplyAttributes {
    /// The element's name.
    pub element: String,
    /// The properties, sorted by name.
    pub attributes: Vec<Property>,
}

/// An item of the attribute list: a name, or a list under `exclude` or `optional`.
#[derive(Debug)]
pub enum ApplyItem {
    /// An attribute, tag, tag category or `global`.
    Name(String),
    /// `exclude(names...)`.
    Exclude(Vec<String>),
    /// `optional(names...)`.
    Optional(Vec<String>),
}

/// What an item of an attribute list is, told by the path it starts with.
#[derive(Debug, Clone, Copy, PartialEq, Eq, Structural)]
pub enum ItemKind {
    /// `exclude(...)`: a list of names to leave out.
    Exclude,
    /// `optional(...)`: a list of names passed on as optional.
    Optional,
    /// Any other path: a name passed on as required.
    Name,
}

/// The kind of the item whose path reads `text`.
pub open spec fn item_kind_of(text: Seq<char>) -> ItemKind {
    if text == "exclude"@ {
        ItemKind::Exclude
    } else if text == "optional"@ {
        ItemKind::Optional
    } else {
        ItemKind::Name
    }
}

/// The kind of the item whose path reads `text`: `exclude` and `optional`
/// open a list, anything else is a name.
pub fn item_kind(text: &str) -> (k: ItemKind)
    ensures
        k == item_kind_of(text@),
{
    if text_equal(text, "exclude") {
        ItemKind::Exclude
    } else if text_equal(text, "optional") {
        ItemKind::Optional
    } else {
        ItemKind::Name
    }
}

/// Why an attribute list is refused.
#[derive(Debug)]
pub enum ApplyError {
    /// The name is no attribute, tag or tag category (nor `global`).
    InvalidAttribute { name: String },
}

/// The first name of `names` that is not valid.
pub open spec fn first_invalid_name(specs: HtmlSpecs, names: Seq<String>) -> Option<String>
    decreases names.len(),
{
    if names.len() == 0 {
        None
    } else {
        match first_invalid_name(specs, names.drop_last()) {
            Some(n) => Some(n),
            None => if is_valid_extension(specs, ExtensionKind::Attribute, names.last()@) {
                None
            } else {
                Some(names.last())
            },
        }
    }
}

/// The first name among the items that is not valid.
pub open spec fn first_invalid(specs: HtmlSpecs, items: Seq<ApplyItem>) -> Option<String>
    decreases items.len(),
{
    if items.len() == 0 {
        None
    } else {
        match first_invalid(specs, items.drop_last()) {
            Some(n) => Some(n),
            None => match items.last() {
                ApplyItem::Name(n) => first_invalid_name(specs, seq![n]),
                ApplyItem::Exclude(l) => first_invalid_name(specs, l@),
                ApplyItem::Optional(l) => first_invalid_name(specs, l@),
            },
        }
    }
}

/// `names` as properties: optional ones when `optional`, required ones otherwise.
pub open spec fn as_properties(names: Seq<String>, optional: bool) -> Seq<Property>
    decreases names.len(),
{
    if names.len() == 0 {
        seq![]
    } else {
        as_properties(names.drop_last(), optional).push(
            if optional {
                Property::Optional(names.last())
            } else {
                Property::Required(names.last())
            },
        )
    }
}

/// The properties the items name directly (required).
pub open spec fn required_requests(items: Seq<ApplyItem>) -> Seq<Property>
    decreases items.len(),
{
    if items.len() == 0 {
        seq![]
    } else {
        required_requests(items.drop_last()) + match items.last() {
            ApplyItem::Name(n) => seq![Property::Required(n)],
            _ => seq![],
        }
    }
}

/// The properties the items list under `optional`.
pub open spec fn optional_requests(items: Seq<ApplyItem>) -> Seq<Property>
    decreases items.len(),
{
    if items.len() == 0 {
        seq![]
    } else {
        optional_requests(items.drop_last()) + match items.last() {
            ApplyItem::Optional(l) => as_properties(l@, true),
            _ => seq![],
        }
    }
}

/// The properties the items list under `exclude`.
pub open spec fn excluded_requests(items: Seq<ApplyItem>) -> Seq<Property>
    decreases items.len(),
{
    if items.len() == 0 {
        seq![]
    } else {
        excluded_requests(items.drop_last()) + match items.last() {
            ApplyItem::Exclude(l) => as_properties(l@, false),
            _ => seq![],
        }
    }
}

/// One property per attribute of `attrs` that is not a `data-*` one, of the
/// variant of `p`.
pub open spec fn remaps(attrs: Seq<Attribute>, p: Property) -> Seq<Property>
    decreases attrs.len(),
{
    if attrs.len() == 0 {
        seq![]
    } else {
        let prefix = remaps(attrs.drop_last(), p);
        if is_data_attribute(attrs.last()) {
            prefix
        } else {
            prefix.push(p.remapped(attrs.last().name))
        }
    }
}

/// What one property stands for: `global` for the global attributes, an
/// attribute for itself, a tag for its attributes, a tag category for the
/// attributes of its tags. A name that is none of these (which checked lists
/// never hold) stands for nothing.
pub open spec fn expand_property(specs: HtmlSpecs, p: Property) -> Seq<Property> {
    if p.value()@ == "global"@ {
        remaps(specs.global_attributes@, p)
    } else if has_name(specs.attributes@, p.value()@) {
        seq![p]
    } else {
        match find_first(specs.tags@, p.value()@) {
            Some(t) => remaps(tag_attributes(specs, t), p),
            None => match find_first(specs.tag_categories@, p.value()@) {
                Some(c) => remaps(category_attributes(specs, c.tags@), p),
                None => seq![],
            },
        }
    }
}

/// What the properties stand for, in order.
pub open spec fn expand_properties(specs: HtmlSpecs, s: Seq<Property>) -> Seq<Property>
    decreases s.len(),
{
    if s.len() == 0 {
        seq![]
    } else {
        expand_properties(specs, s.drop_last()) + expand_property(specs, s.last())
    }
}

/// Some property of `s` has key `k`.
pub open spec fn has_key(s: Seq<Property>, k: (bool, Seq<char>)) -> bool {
    exists|i: int| 0 <= i < s.len() && #[trigger] s[i].key() == k
}

/// Some property of `s` has the name `n`.
pub open spec fn has_value(s: Seq<Property>, n: Seq<char>) -> bool {
    exists|i: int| 0 <= i < s.len() && #[trigger] s[i].value()@ == n
}

/// Every property of `s` is named by `global`, an attribute, a tag or a tag
/// category.
pub open spec fn all_valid_properties(specs: HtmlSpecs, s: Seq<Property>) -> bool {
    forall|i: int| 0 <= i < s.len() ==> is_valid_extension(specs, ExtensionKind::Attribute, (#[trigger] s[i]).value()@)
}

/// The key of a property, as a function.
pub open spec fn property_key() -> spec_fn(Property) -> (bool, Seq<char>) {
    |p: Property| p.key()
}

/// `v` is the attribute list the items ask for: sorted by name, each property
/// once, holding exactly the properties that the names and `optional` lists
/// stand for and whose names the `exclude` lists do not stand for.
pub open spec fn applies(specs: HtmlSpecs, items: Seq<ApplyItem>, v: Seq<Property>) -> bool {
    let included = expand_properties(specs, required_requests(items) + optional_requests(items));
    let excluded = expand_properties(specs, excluded_requests(items));
    &&& sorted_by_name(v)
    &&& distinct_by(v, property_key())
    &&& forall|k: (bool, Seq<char>)| has_key(v, k) <==> (has_key(included, k) && !has_value(excluded, k.1))
}

/// Whether `attr` may stand in an attribute list: `global`, an attribute, a
/// tag or a tag category.
pub fn valid_attribute(specs: &HtmlSpecs, attr: &String) -> (r: bool)
    ensures
        r == is_valid_extension(*specs, ExtensionKind::Attribute, attr@),
{
    validate_extension(specs, ExtensionKind::Attribute, attr)
}

/// The attribute's name, unless it is a `data-*` attribute.
pub fn filter_attribute(attr: &Attribute) -> (r: Option<String>)
    ensures
        is_data_attribute(*attr) ==> r is None,
        !is_data_attribute(*attr) ==> r == Some(attr.name),
{
    if starts_with(attr.name.as_str(), "data-") {
        None
    } else {
        Some(attr.name.clone())
    }
}

/// Remapping over a concatenation remaps each part.
proof fn lemma_remaps_append(a: Seq<Attribute>, b: Seq<Attribute>, p: Property)
    ensures
        remaps(a + b, p) == remaps(a, p) + remaps(b, p),
    decreases b.len(),
{
    if b.len() == 0 {
        assert(a + b =~= a);
        assert(remaps(a, p) + remaps(b, p) =~= remaps(a, p));
    } else {
        assert((a + b).drop_last() =~= a + b.drop_last());
        lemma_remaps_append(a, b.drop_last(), p);
        assert(remaps(a, p) + remaps(b.drop_last(), p).push(p.remapped(b.last().name)) =~= (remaps(a, p)
            + remaps(b.drop_last(), p)).push(p.remapped(b.last().name)));
    }
}

/// Appends to `out` the remapped properties for `attrs`.
fn push_remaps(attrs: &Vec<Attribute>, p: &Property, out: &mut Vec<Property>)
    ensures
        final(out)@ == old(out)@ + remaps(attrs@, *p),
{
    let ghost base = out@;
    let mut i: usize = 0;
    assert(attrs@.take(0) =~= Seq::<Attribute>::empty());
    assert(base + Seq::<Property>::empty() =~= base);
    while i < attrs.len()
        invariant
            i <= attrs.len(),
            out@ == base + remaps(attrs@.take(i as int), *p),
        decreases attrs.len() - i,
    {
        assert(attrs@.take(i + 1).drop_last() =~= attrs@.take(i as int));
        match filter_attribute(&attrs[i]) {
            Some(name) => {
                out.push(p.remap(name));
                assert(out@ =~= base + remaps(attrs@.take(i + 1), *p));
            },
            None => {},
        }
        i = i + 1;
    }
    assert(attrs@.take(attrs.len() as int) =~= attrs@);
}

/// Appends to `out` what one property stands for.
fn push_expansion(specs: &HtmlSpecs, p: &Property, out: &mut Vec<Property>)
    ensures
        final(out)@ == old(out)@ + expand_property(*specs, *p),
{
    let name = p.name();
    if text_equal(name.as_str(), "global") {
        push_remaps(&specs.global_attributes, p, out);
    } else if specs.is_valid_attribute(name) {
        out.push(p.clone());
    } else if let Some(tag) = specs.get_tag(name) {
        let attrs = attributes_of_tag(specs, tag);
        push_remaps(&attrs, p, out);
    } else if let Some(category) = specs.get_tag_category(name) {
        let ghost base = out@;
        let mut i: usize = 0;
        assert(category.tags@.take(0) =~= Seq::<Tag>::empty());
        assert(base + Seq::<Property>::empty() =~= base);
        while i < category.tags.len()
            invariant
                i <= category.tags.len(),
                out@ == base + remaps(category_attributes(*specs, category.tags@.take(i as int)), *p),
            decreases category.tags.len() - i,
        {
            let ghost prev = category.tags@.take(i as int);
            assert(category.tags@.take(i + 1).drop_last() =~= prev);
            let attrs = attributes_of_tag(specs, &category.tags[i]);
            push_remaps(&attrs, p, out);
            proof {
                lemma_remaps_append(category_attributes(*specs, prev), tag_attributes(*specs, category.tags@[i as int]), *p);
            }
            assert(out@ =~= base + remaps(category_attributes(*specs, category.tags@.take(i + 1)), *p));
            i = i + 1;
        }
        assert(category.tags@.take(category.tags.len() as int) =~= category.tags@);
    } else {
        assert(out@ + Seq::<Property>::empty() =~= out@);
    }
}

/// The properties of `expanded`, each once.
fn as_set(expanded: &Vec<Property>) -> (r: Vec<Property>)
    ensures
        distinct_by(r@, property_key()),
        forall|k: (bool, Seq<char>)| has_key(r@, k) <==> has_key(expanded@, k),
{
    let mut set: Vec<Property> = Vec::new();
    let mut j: usize = 0;
    while j < expanded.len()
        invariant
            j <= expanded.len(),
            distinct_by(set@, property_key()),
            forall|k: (bool, Seq<char>)| has_key(set@, k) <==> has_key(expanded@.take(j as int), k),
        decreases expanded.len() - j,
    {
        let ghost before = set@;
        let ghost prev = expanded@.take(j as int);
        let ghost t = expanded@.take(j + 1);
        assert(forall|k: (bool, Seq<char>)| has_key(before, k) <==> has_key(prev, k));
        let mut present = false;
        let mut m: usize = 0;
        while m < set.len()
            invariant
                m <= set.len(),
                j < expanded.len(),
                set@ == before,
                present == exists|q: int| 0 <= q < m && #[trigger] set@[q].key() == expanded@[j as int].key(),
            decreases set.len() - m,
        {
            if set[m].same_as(&expanded[j]) {
                present = true;
            }
            m = m + 1;
        }
        if !present {
            set.push(expanded[j].clone());
            assert forall|a: int, b: int| 0 <= a < b < set@.len() implies property_key()(set@[a]) != property_key()(set@[b]) by {
                if b == before.len() {
                    assert(set@[a] == before[a]);
                } else {
                    assert(set@[a] == before[a]);
                    assert(set@[b] == before[b]);
                }
            }
        }
        assert forall|k: (bool, Seq<char>)| has_key(set@, k) <==> has_key(t, k) by {
            assert(t[j as int] == expanded@[j as int]);
            assert forall|w: int| 0 <= w < j implies t[w] == prev[w] by {}
            if has_key(set@, k) {
                let q = choose|q: int| 0 <= q < set@.len() && #[trigger] set@[q].key() == k;
                if q < before.len() {
                    assert(before[q] == set@[q]);
                    assert(has_key(before, k));
                    assert(has_key(prev, k));
                    let w = choose|w: int| 0 <= w < prev.len() && #[trigger] prev[w].key() == k;
                    assert(t[w].key() == k);
                } else {
                    assert(t[j as int].key() == k);
                }
            }
            if has_key(t, k) {
                let w = choose|w: int| 0 <= w < t.len() && #[trigger] t[w].key() == k;
                if w < j {
                    assert(prev[w].key() == k);
                    assert(has_key(prev, k));
                    assert(has_key(before, k));
                    let q = choose|q: int| 0 <= q < before.len() && #[trigger] before[q].key() == k;
                    assert(set@[q] == before[q]);
                } else if present {
                    let q = choose|q: int| 0 <= q < set@.len() && #[trigger] set@[q].key() == expanded@[j as int].key();
                    assert(set@[q].key() == k);
                } else {
                    assert(set@[before.len() as int].key() == k);
                }
            }
        }
        j = j + 1;
    }
    assert(expanded@.take(expanded.len() as int) =~= expanded@);
    set
}

/// The properties of `included` whose names no property of `excluded` carries.
fn without_excluded(included: &Vec<Property>, excluded: &Vec<Property>) -> (r: Vec<Property>)
    requires
        distinct_by(included@, property_key()),
    ensures
        distinct_by(r@, property_key()),
        forall|q: int| 0 <= q < r@.len() ==> included@.contains(#[trigger] r@[q]),
        forall|k: (bool, Seq<char>)| has_key(r@, k) <==> (has_key(included@, k) && !has_value(excluded@, k.1)),
{
    let mut kept: Vec<Property> = Vec::new();
    let mut j: usize = 0;
    while j < included.len()
        invariant
            j <= included.len(),
            distinct_by(included@, property_key()),
            distinct_by(kept@, property_key()),
            forall|q: int| 0 <= q < kept@.len() ==> exists|w: int| 0 <= w < j && included@[w] == #[trigger] kept@[q],
            forall|k: (bool, Seq<char>)| has_key(kept@, k) <==> (has_key(included@.take(j as int), k) && !has_value(excluded@, k.1)),
        decreases included.len() - j,
    {
        let ghost before = kept@;
        let ghost prev = included@.take(j as int);
        let ghost t = included@.take(j + 1);
        assert(forall|k: (bool, Seq<char>)| has_key(before, k) <==> (has_key(prev, k) && !has_value(excluded@, k.1)));
        let mut hit = false;
        let mut m: usize = 0;
        while m < excluded.len()
            invariant
                m <= excluded.len(),
                j < included.len(),
                hit == exists|q: int| 0 <= q < m && #[trigger] excluded@[q].value()@ == included@[j as int].value()@,
            decreases excluded.len() - m,
        {
            if *excluded[m].name() == *included[j].name() {
                hit = true;
            }
            m = m + 1;
        }
        assert(t[j as int] == included@[j as int]);
        assert forall|w: int| 0 <= w < j implies t[w] == prev[w] by {}
        if !hit {
            kept.push(included[j].clone());
            assert forall|a: int, b: int| 0 <= a < b < kept@.len() implies property_key()(kept@[a]) != property_key()(kept@[b]) by {
                if b == before.len() {
                    assert(kept@[a] == before[a]);
                    let w = choose|w: int| 0 <= w < j && included@[w] == #[trigger] before[a];
                    assert(included@[w] == kept@[a]);
                } else {
                    assert(kept@[a] == before[a]);
                    assert(kept@[b] == before[b]);
                }
            }
        }
        assert forall|k: (bool, Seq<char>)| has_key(kept@, k) <==> (has_key(t, k) && !has_value(excluded@, k.1)) by {
            if has_key(kept@, k) {
                let q = choose|q: int| 0 <= q < kept@.len() && #[trigger] kept@[q].key() == k;
                if q < before.len() {
                    assert(before[q] == kept@[q]);
                    assert(has_key(before, k));
                    assert(has_key(prev, k));
                    let w = choose|w: int| 0 <= w < prev.len() && #[trigger] prev[w].key() == k;
                    assert(t[w].key() == k);
                } else {
                    assert(t[j as int].key() == k);
                    if has_value(excluded@, k.1) {
                        let z = choose|z: int| 0 <= z < excluded@.len() && #[trigger] excluded@[z].value()@ == k.1;
                        assert(false);
                    }
                }
            }
            if has_key(t, k) && !has_value(excluded@, k.1) {
                let w = choose|w: int| 0 <= w < t.len() && #[trigger] t[w].key() == k;
                if w < j {
                    assert(prev[w].key() == k);
                    assert(has_key(prev, k));
                    assert(has_key(before, k));
                    let q = choose|q: int| 0 <= q < before.len() && #[trigger] before[q].key() == k;
                    assert(kept@[q] == before[q]);
                } else {
                    if hit {
                        let z = choose|z: int| 0 <= z < excluded@.len() && #[trigger] excluded@[z].value()@ == included@[j as int].value()@;
                        assert(has_value(excluded@, k.1));
                    }
                    assert(kept@[before.len() as int].key() == k);
                }
            }
        }
        assert forall|q: int| 0 <= q < kept@.len() implies exists|w: int| 0 <= w < j + 1 && included@[w] == #[trigger] kept@[q] by {
            if q < before.len() {
                assert(kept@[q] == before[q]);
                let w = choose|w: int| 0 <= w < j && included@[w] == #[trigger] before[q];
                assert(included@[w] == kept@[q]);
            } else {
                assert(included@[j as int] == kept@[q]);
            }
        }
        j = j + 1;
    }
    assert(included@.take(included.len() as int) =~= included@);
    assert forall|q: int| 0 <= q < kept@.len() implies included@.contains(#[trigger] kept@[q]) by {
        let w = choose|w: int| 0 <= w < included.len() && included@[w] == #[trigger] kept@[q];
    }
    kept
}

/// What the properties stand for, each property once.
pub fn expand_all_attributes(specs: &HtmlSpecs, attributes: &Vec<Property>) -> (r: Vec<Property>)
    requires
        all_valid_properties(*specs, attributes@),
    ensures
        distinct_by(r@, property_key()),
        forall|k: (bool, Seq<char>)| has_key(r@, k) <==> has_key(expand_properties(*specs, attributes@), k),
{
    let mut expanded: Vec<Property> = Vec::new();
    let mut i: usize = 0;
    assert(attributes@.take(0) =~= Seq::<Property>::empty());
    while i < attributes.len()
        invariant
            i <= attributes.len(),
            expanded@ == expand_properties(*specs, attributes@.take(i as int)),
        decreases attributes.len() - i,
    {
        assert(attributes@.take(i + 1).drop_last() =~= attributes@.take(i as int));
        push_expansion(specs, &attributes[i], &mut expanded);
        i = i + 1;
    }
    assert(attributes@.take(attributes.len() as int) =~= attributes@);
    let set = as_set(&expanded);
    set
}

/// Appends the names as properties (optional ones when `optional`), after
/// checking each; the first invalid name is the error.
fn push_checked(specs: &HtmlSpecs, names: &Vec<String>, optional: bool, out: &mut Vec<Property>) -> (r: Result<(), ApplyError>)
    ensures
        match first_invalid_name(*specs, names@) {
            Some(n) => r matches Err(ApplyError::InvalidAttribute { name }) && name == n,
            None => r is Ok && final(out)@ == old(out)@ + as_properties(names@, optional),
        },
        r is Ok && all_valid_properties(*specs, old(out)@) ==> all_valid_properties(*specs, final(out)@),
{
    let ghost base = out@;
    let mut i: usize = 0;
    assert(names@.take(0) =~= Seq::<String>::empty());
    assert(base + Seq::<Property>::empty() =~= base);
    while i < names.len()
        invariant
            i <= names.len(),
            first_invalid_name(*specs, names@.take(i as int)) is None,
            out@ == base + as_properties(names@.take(i as int), optional),
            all_valid_properties(*specs, base) ==> all_valid_properties(*specs, out@),
        decreases names.len() - i,
    {
        assert(names@.take(i + 1).drop_last() =~= names@.take(i as int));
        if !valid_attribute(specs, &names[i]) {
            proof {
                lemma_invalid_name_persists(*specs, names@, i as int + 1);
            }
            return Err(ApplyError::InvalidAttribute { name: names[i].clone() });
        }
        if optional {
            out.push(Property::Optional(names[i].clone()));
        } else {
            out.push(Property::Required(names[i].clone()));
        }
        assert(out@ =~= base + as_properties(names@.take(i + 1), optional));
        i = i + 1;
    }
    assert(names@.take(names.len() as int) =~= names@);
    Ok(())
}

/// An invalid name stays the first invalid one of a longer list.
proof fn lemma_invalid_name_persists(specs: HtmlSpecs, names: Seq<String>, n: int)
    requires
        1 <= n <= names.len(),
        first_invalid_name(specs, names.take(n - 1)) is None,
        !is_valid_extension(specs, ExtensionKind::Attribute, names[n - 1]@),
    ensures
        first_invalid_name(specs, names) == Some(names[n - 1]),
    decreases names.len() - n,
{
    if n == names.len() {
        assert(names.drop_last() =~= names.take(n - 1));
    } else {
        let shorter = names.drop_last();
        assert(shorter.take(n - 1) =~= names.take(n - 1));
        lemma_invalid_name_persists(specs, shorter, n);
    }
}

/// An invalid item stays the first invalid one of a longer list.
proof fn lemma_invalid_item_persists(specs: HtmlSpecs, items: Seq<ApplyItem>, n: int)
    requires
        1 <= n <= items.len(),
        first_invalid(specs, items.take(n - 1)) is None,
        first_invalid(specs, items.take(n)) is Some,
    ensures
        first_invalid(specs, items) == first_invalid(specs, items.take(n)),
    decreases items.len() - n,
{
    if n == items.len() {
        assert(items.take(n) =~= items);
    } else {
        let shorter = items.drop_last();
        assert(shorter.take(n - 1) =~= items.take(n - 1));
        assert(shorter.take(n) =~= items.take(n));
        lemma_invalid_item_persists(specs, shorter, n);
    }
}

/// The attribute list the items ask for (see `applies`), or the first name that
/// is not valid.
#[verifier::spinoff_prover]
pub fn parse_attributes(specs: &HtmlSpecs, items: &Vec<ApplyItem>) -> (r: Result<Vec<Property>, ApplyError>)
    ensures
        match first_invalid(*specs, items@) {
            Some(n) => r matches Err(ApplyError::InvalidAttribute { name }) && name == n,
            None => r matches Ok(v) && applies(*specs, items@, v@),
        },
{
    let mut required: Vec<Property> = Vec::new();
    let mut optional: Vec<Property> = Vec::new();
    let mut exclude: Vec<Property> = Vec::new();
    let mut i: usize = 0;
    assert(items@.take(0) =~= Seq::<ApplyItem>::empty());
    while i < items.len()
        invariant
            i <= items.len(),
            first_invalid(*specs, items@.take(i as int)) is None,
            required@ == required_requests(items@.take(i as int)),
            optional@ == optional_requests(items@.take(i as int)),
            exclude@ == excluded_requests(items@.take(i as int)),
            all_valid_properties(*specs, required@),
            all_valid_properties(*specs, optional@),
            all_valid_properties(*specs, exclude@),
        decreases items.len() - i,
    {
        let ghost prefix = items@.take(i as int);
        let ghost next = items@.take(i + 1);
        assert(next.drop_last() =~= prefix);
        assert(next.last() == items@[i as int]);
        match &items[i] {
            ApplyItem::Name(n) => {
                if !valid_attribute(specs, n) {
                    proof {
                        assert(first_invalid_name(*specs, seq![*n].drop_last()) is None);
                        assert(first_invalid(*specs, next) == Some(*n));
                        lemma_invalid_item_persists(*specs, items@, i as int + 1);
                    }
                    return Err(ApplyError::InvalidAttribute { name: n.clone() });
                }
                proof {
                    assert(seq![*n].drop_last() =~= Seq::<String>::empty());
                }
                required.push(Property::Required(n.clone()));
                assert(required@ =~= required_requests(next));
                assert(optional@ =~= optional_requests(next));
                assert(exclude@ =~= excluded_requests(next));
            },
            ApplyItem::Exclude(l) => {
                match push_checked(specs, l, false, &mut exclude) {
                    Ok(()) => {},
                    Err(e) => {
                        proof {
                            lemma_invalid_item_persists(*specs, items@, i as int + 1);
                        }
                        return Err(e);
                    },
                }
                assert(required@ =~= required_requests(next));
                assert(optional@ =~= optional_requests(next));
            },
            ApplyItem::Optional(l) => {
                match push_checked(specs, l, true, &mut optional) {
                    Ok(()) => {},
                    Err(e) => {
                        proof {
                            lemma_invalid_item_persists(*specs, items@, i as int + 1);
                        }
                        return Err(e);
                    },
                }
                assert(required@ =~= required_requests(next));
                assert(exclude@ =~= excluded_requests(next));
            },
        }
        i = i + 1;
    }
    assert(items@.take(items.len() as int) =~= items@);
    let mut requested = required;
    let ghost include_view = requested@;
    let mut k: usize = 0;
    while k < optional.len()
        invariant
            k <= optional.len(),
            requested@ == include_view + optional@.take(k as int),
            all_valid_properties(*specs, requested@),
            all_valid_properties(*specs, optional@),
        decreases optional.len() - k,
    {
        requested.push(optional[k].clone());
        assert(include_view + optional@.take(k + 1) =~= (include_view + optional@.take(k as int)).push(optional@[k as int]));
        k = k + 1;
    }
    assert(optional@.take(optional.len() as int) =~= optional@);
    let included = expand_all_attributes(specs, &requested);
    let excluded = expand_all_attributes(specs, &exclude);
    let ghost inc_all = expand_properties(*specs, requested@);
    let ghost exc_all = expand_properties(*specs, exclude@);
    let kept = without_excluded(&included, &excluded);
    proof {
        assert forall|n: Seq<char>| has_value(excluded@, n) <==> has_value(exc_all, n) by {
            if has_value(excluded@, n) {
                let z = choose|z: int| 0 <= z < excluded@.len() && #[trigger] excluded@[z].value()@ == n;
                assert(has_key(excluded@, excluded@[z].key()));
                let w = choose|w: int| 0 <= w < exc_all.len() && #[trigger] exc_all[w].key() == excluded@[z].key();
            }
            if has_value(exc_all, n) {
                let z = choose|z: int| 0 <= z < exc_all.len() && #[trigger] exc_all[z].value()@ == n;
                assert(has_key(exc_all, exc_all[z].key()));
                assert(has_key(excluded@, exc_all[z].key()));
                let w = choose|w: int| 0 <= w < excluded@.len() && #[trigger] excluded@[w].key() == exc_all[z].key();
            }
        }
    }
    let ghost unsorted = kept@;
    let sorted = sort_by_name(kept);
    proof {
        lemma_rearranged_distinct_by(unsorted, sorted@, property_key());
        assert forall|k: (bool, Seq<char>)| has_key(sorted@, k) <==> has_key(unsorted, k) by {
            if has_key(sorted@, k) {
                let q = choose|q: int| 0 <= q < sorted@.len() && #[trigger] sorted@[q].key() == k;
                assert(sorted@.contains(sorted@[q]));
                let w = choose|w: int| 0 <= w < unsorted.len() && unsorted[w] == sorted@[q];
                assert(unsorted[w].key() == k);
            }
            if has_key(unsorted, k) {
                let q = choose|q: int| 0 <= q < unsorted.len() && #[trigger] unsorted[q].key() == k;
                assert(unsorted.contains(unsorted[q]));
                let w = choose|w: int| 0 <= w < sorted@.len() && sorted@[w] == unsorted[q];
                assert(sorted@[w].key() == k);
            }
        }
        assert(requested@ == required_requests(items@) + optional_requests(items@));
        assert(exclude@ == excluded_requests(items@));
        assert forall|k: (bool, Seq<char>)| has_key(sorted@, k) <==> (has_key(inc_all, k) && !has_value(exc_all, k.1)) by {
            assert(has_key(sorted@, k) <==> has_key(unsorted, k));
            assert(has_key(unsorted, k) <==> (has_key(included@, k) && !has_value(excluded@, k.1)));
            assert(has_key(included@, k) <==> has_key(inc_all, k));
            assert(has_value(excluded@, k.1) <==> has_value(exc_all, k.1));
        }
    }
    Ok(sorted)
}

impl ApplyAttributes {
    /// The element `element` with the attribute list the items ask for, or the
    /// first name that is not valid.
    pub fn parse(specs: &HtmlSpecs, element: String, items: &Vec<ApplyItem>) -> (r: Result<Self, ApplyError>)
        ensures
            match first_invalid(*specs, items@) {
                Some(n) => r matches Err(ApplyError::InvalidAttribute { name }) && name == n,
                None => r matches Ok(a) && a.element == element && applies(*specs, items@, a.attributes@),
            },
    {
        match parse_attributes(specs, items) {
            Ok(attributes) => Ok(ApplyAttributes { element, attributes }),
            Err(e) => Err(e),
        }
    }
}

/// Remapping a property over attributes yields, for every attribute that is
/// not a `data-*` one, the property renamed to that attribute (keeping its
/// variant), and nothing else.
pub proof fn lemma_remaps_members(attrs: Seq<Attribute>, p: Property)
    ensures
        forall|x: Property| #[trigger] remaps(attrs, p).contains(x) <==> exists|a: Attribute|
            #[trigger] attrs.contains(a) && !is_data_attribute(a) && x == p.remapped(a.name),
    decreases attrs.len(),
{
    if attrs.len() > 0 {
        let shorter = attrs.drop_last();
        let last = attrs.last();
        lemma_remaps_members(shorter, p);
        let q = remaps(shorter, p);
        let d = p.remapped(last.name);
        assert(attrs[attrs.len() - 1] == last);
        assert(attrs.contains(last));
        assert forall|x: Property| #[trigger] remaps(attrs, p).contains(x) <==> exists|a: Attribute|
            #[trigger] attrs.contains(a) && !is_data_attribute(a) && x == p.remapped(a.name) by {
            let r = remaps(attrs, p);
            if r.contains(x) {
                if !is_data_attribute(last) && x == d {
                } else {
                    let i = choose|i: int| 0 <= i < r.len() && r[i] == x;
                    if !is_data_attribute(last) {
                        assert(r == q.push(d));
                        assert(i < q.len());
                        assert(q[i] == x);
                    } else {
                        assert(r == q);
                    }
                    assert(q.contains(x));
                    let a = choose|a: Attribute| #[trigger] shorter.contains(a) && !is_data_attribute(a) && x == p.remapped(a.name);
                    let k = choose|k: int| 0 <= k < shorter.len() && shorter[k] == a;
                    assert(attrs[k] == a);
                    assert(attrs.contains(a));
                }
            }
            if exists|a: Attribute| #[trigger] attrs.contains(a) && !is_data_attribute(a) && x == p.remapped(a.name) {
                let a = choose|a: Attribute| #[trigger] attrs.contains(a) && !is_data_attribute(a) && x == p.remapped(a.name);
                let k = choose|k: int| 0 <= k < attrs.len() && attrs[k] == a;
                if k < attrs.len() - 1 {
                    assert(shorter[k] == a);
                    assert(shorter.contains(a));
                    assert(q.contains(x));
                    let i = choose|i: int| 0 <= i < q.len() && q[i] == x;
                    if !is_data_attribute(last) {
                        assert(r == q.push(d));
                        assert(r[i] == x);
                    } else {
                        assert(r == q);
                    }
                } else {
                    assert(a == last);
                    assert(r == q.push(d));
                    assert(r[q.len() as int] == x);
                }
            }
        }
    }
}

/// What one requested property stands for, element by element: `global`
/// stands for every global attribute, a name that is an attribute for that
/// one property alone (even where a tag has the same name), a tag for every
/// attribute the tag takes, a tag category for every attribute of every one of
/// its tags; the `data-*` attributes are left out, and every property keeps
/// the variant (optional or required) of the request.
pub proof fn lemma_property_expansion_members(specs: HtmlSpecs, p: Property)
    ensures
        forall|x: Property| #[trigger] expand_property(specs, p).contains(x) <==> if p.value()@ == "global"@ {
            exists|a: Attribute| #[trigger] specs.global_attributes@.contains(a) && !is_data_attribute(a) && x == p.remapped(a.name)
        } else if has_name(specs.attributes@, p.value()@) {
            x == p
        } else {
            match find_first(specs.tags@, p.value()@) {
                Some(t) => exists|a: Attribute| #![trigger p.remapped(a.name)] tag_attributes(specs, t).contains(a)
                    && !is_data_attribute(a) && x == p.remapped(a.name),
                None => match find_first(specs.tag_categories@, p.value()@) {
                    Some(c) => exists|t: Tag, a: Attribute| #![trigger tag_attributes(specs, t).contains(a)] c.tags@.contains(t)
                        && tag_attributes(specs, t).contains(a) && !is_data_attribute(a) && x == p.remapped(a.name),
                    None => false,
                },
            }
        },
        p.value()@ != "global"@ && has_name(specs.attributes@, p.value()@) ==> expand_property(specs, p) == seq![p],
        forall|x: Property| #[trigger] expand_property(specs, p).contains(x) ==> (x is Optional <==> p is Optional),
{
    if p.value()@ == "global"@ {
        lemma_remaps_members(specs.global_attributes@, p);
    } else if has_name(specs.attributes@, p.value()@) {
        assert forall|x: Property| #[trigger] seq![p].contains(x) <==> x == p by {
            assert(seq![p][0] == p);
        }
    } else if let Some(t) = find_first(specs.tags@, p.value()@) {
        lemma_remaps_members(tag_attributes(specs, t), p);
    } else if let Some(c) = find_first(specs.tag_categories@, p.value()@) {
        let all = category_attributes(specs, c.tags@);
        lemma_remaps_members(all, p);
        lemma_category_attributes_members(specs, c.tags@);
        assert forall|x: Property| #[trigger] expand_property(specs, p).contains(x) <==> exists|t: Tag, a: Attribute|
            #![trigger tag_attributes(specs, t).contains(a)] c.tags@.contains(t) && tag_attributes(specs, t).contains(a)
                && !is_data_attribute(a) && x == p.remapped(a.name) by {
            if expand_property(specs, p).contains(x) {
                let a = choose|a: Attribute| #[trigger] all.contains(a) && !is_data_attribute(a) && x == p.remapped(a.name);
                let t = choose|t: Tag| #[trigger] c.tags@.contains(t) && tag_attributes(specs, t).contains(a);
                assert(c.tags@.contains(t) && tag_attributes(specs, t).contains(a));
            }
            if exists|t: Tag, a: Attribute| #![trigger tag_attributes(specs, t).contains(a)] c.tags@.contains(t)
                && tag_attributes(specs, t).contains(a) && !is_data_attribute(a) && x == p.remapped(a.name) {
                let (t, a) = choose|t: Tag, a: Attribute| #![trigger tag_attributes(specs, t).contains(a)] c.tags@.contains(t)
                    && tag_attributes(specs, t).contains(a) && !is_data_attribute(a) && x == p.remapped(a.name);
                assert(all.contains(a));
            }
        }
    }
}

} // verus!
