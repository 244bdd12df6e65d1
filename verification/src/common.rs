//! Helpers shared by the attribute macros.
use vstd::prelude::*;

use crate::named::find_first;
use crate::specs::{Attribute, HtmlSpecs, Tag};

verus! {

/// The attributes of `table` named by `names`, in the order of `names`; a name
/// that no attribute carries contributes nothing.
pub open spec fn resolve_attributes(table: Seq<Attribute>, names: Seq<String>) -> Seq<Attribute>
    decreases names.len(),
{
    if names.len() == 0 {
        seq![]
    } else {
        let prefix = resolve_attributes(table, names.drop_last());
        match find_first(table, names.last()@) {
            Some(a) => prefix.push(a),
            None => prefix,
        }
    }
}

/// The attributes a tag takes: its own, then its optional ones (those the
/// table knows), then the global attributes when the tag takes them.
pub open spec fn tag_attributes(specs: HtmlSpecs, tag: Tag) -> Seq<Attribute> {
    resolve_attributes(specs.attributes@, tag.attributes@ + tag.optional_attributes@) + if tag.global_attributes {
        specs.global_attributes@
    } else {
        Seq::<Attribute>::empty()
    }
}

/// Appends to `out` the attributes of `specs` named by `names`.
fn push_resolved(specs: &HtmlSpecs, names: &Vec<String>, out: &mut Vec<Attribute>, Ghost(before): Ghost<Seq<String>>)
    requires
        old(out)@ == resolve_attributes(specs.attributes@, before),
    ensures
        final(out)@ == resolve_attributes(specs.attributes@, before + names@),
{
    let mut i: usize = 0;
    assert(before + names@.take(0) =~= before);
    while i < names.len()
        invariant
            i <= names.len(),
            out@ == resolve_attributes(specs.attributes@, before + names@.take(i as int)),
        decreases names.len() - i,
    {
        let ghost prev = before + names@.take(i as int);
        let ghost next = before + names@.take(i + 1);
        assert(next.drop_last() =~= prev);
        assert(next.last() == names@[i as int]);
        match specs.get_attribute(&names[i]) {
            Some(a) => out.push(a.clone()),
            None => {},
        }
        i = i + 1;
    }
    assert(names@.take(names.len() as int) =~= names@);
}

/// The attributes `tag` takes, as `tag_attributes` lists them.
pub fn attributes_of_tag(specs: &HtmlSpecs, tag: &Tag) -> (r: Vec<Attribute>)
    ensures
        r@ == tag_attributes(*specs, *tag),
{
    let mut out: Vec<Attribute> = Vec::new();
    assert(resolve_attributes(specs.attributes@, Seq::<String>::empty()) == Seq::<Attribute>::empty());
    push_resolved(specs, &tag.attributes, &mut out, Ghost(Seq::empty()));
    assert(Seq::<String>::empty() + tag.attributes@ =~= tag.attributes@);
    push_resolved(specs, &tag.optional_attributes, &mut out, Ghost(tag.attributes@));
    if tag.global_attributes {
        let mut i: usize = 0;
        let ghost base = out@;
        while i < specs.global_attributes.len()
            invariant
                i <= specs.global_attributes.len(),
                out@ == base + specs.global_attributes@.take(i as int),
            decreases specs.global_attributes.len() - i,
        {
            out.push(specs.global_attributes[i].clone());
            assert(base + specs.global_attributes@.take(i + 1) =~= (base + specs.global_attributes@.take(i as int)).push(specs.global_attributes@[i as int]));
            i = i + 1;
        }
        assert(specs.global_attributes@.take(specs.global_attributes.len() as int) =~= specs.global_attributes@);
    } else {
        assert(out@ + Seq::<Attribute>::empty() =~= out@);
    }
    out
}

} // verus!
