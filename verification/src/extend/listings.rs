//! Which listings (a name, included or excluded) a sequence of extensions
//! holds, and what depends on them alone: deduplication keeps them, and
//! netting is decided by them.
use vstd::prelude::*;

use crate::extend::{
    deduplicated, excluded_name, lemma_deduplicated, lemma_net_membership, list_flags, net_of, nothing_net,
    parse_argument, parse_arguments, parse_item, parse_items, same_key, ExtensionKind, Extension,
};
use crate::meta::{NestedItem, NestedMeta};
use crate::specs::HtmlSpecs;
use crate::named::{has_name, Named};

verus! {

/// Some element of `s` lists the name `n`, excluded when `x`.
pub open spec fn has_listing(s: Seq<Extension>, n: Seq<char>, x: bool) -> bool {
    exists|i: int| 0 <= i < s.len() && (#[trigger] s[i]).name@ == n && s[i].exclude == x
}

/// `a` and `b` hold the same listings.
pub open spec fn same_listings(a: Seq<Extension>, b: Seq<Extension>) -> bool {
    forall|n: Seq<char>, x: bool| has_listing(a, n, x) <==> has_listing(b, n, x)
}

/// The listings of a concatenation are those of its parts.
pub proof fn lemma_listings_concat(a: Seq<Extension>, b: Seq<Extension>)
    ensures
        forall|n: Seq<char>, x: bool| has_listing(a + b, n, x) <==> (has_listing(a, n, x) || has_listing(b, n, x)),
{
    assert forall|n: Seq<char>, x: bool| has_listing(a + b, n, x) <==> (has_listing(a, n, x) || has_listing(b, n, x)) by {
        if has_listing(a + b, n, x) {
            let i = choose|i: int| 0 <= i < (a + b).len() && (#[trigger] (a + b)[i]).name@ == n && (a + b)[i].exclude == x;
            if i < a.len() {
                assert(a[i] == (a + b)[i]);
            } else {
                assert(b[i - a.len()] == (a + b)[i]);
            }
        }
        if has_listing(a, n, x) {
            let i = choose|i: int| 0 <= i < a.len() && (#[trigger] a[i]).name@ == n && a[i].exclude == x;
            assert((a + b)[i] == a[i]);
        }
        if has_listing(b, n, x) {
            let i = choose|i: int| 0 <= i < b.len() && (#[trigger] b[i]).name@ == n && b[i].exclude == x;
            assert((a + b)[i + a.len()] == b[i]);
        }
    }
}

/// The listings of `s.push(e)` are those of `s` and the listing of `e`.
pub proof fn lemma_listings_push(s: Seq<Extension>, e: Extension)
    ensures
        forall|n: Seq<char>, x: bool| has_listing(s.push(e), n, x) <==> (has_listing(s, n, x) || (e.name@ == n && e.exclude == x)),
{
    lemma_listings_concat(s, seq![e]);
    assert(s + seq![e] =~= s.push(e));
    assert forall|n: Seq<char>, x: bool| has_listing(seq![e], n, x) <==> (e.name@ == n && e.exclude == x) by {
        if e.name@ == n && e.exclude == x {
            assert(seq![e][0] == e);
        }
    }
}

/// Deduplication keeps exactly the listings it was given.
#[verifier::spinoff_prover]
pub proof fn lemma_dedup_listings(s: Seq<Extension>)
    ensures
        same_listings(deduplicated(s, true), s),
{
    let d = deduplicated(s, true);
    assert forall|n: Seq<char>, x: bool| has_listing(d, n, x) implies has_listing(s, n, x) by {
        lemma_deduplicated(s, true);
        let k = choose|k: int| 0 <= k < d.len() && (#[trigger] d[k]).name@ == n && d[k].exclude == x;
        let j = choose|j: int| 0 <= j < s.len() && s[j] == #[trigger] d[k] && forall|j2: int| j < j2 < s.len()
            ==> !same_key(s[j2], d[k], true);
        assert(s[j].name@ == n && s[j].exclude == x);
    }
    assert forall|n: Seq<char>, x: bool| has_listing(s, n, x) implies has_listing(d, n, x) by {
        lemma_deduplicated(s, true);
        let i = choose|i: int| 0 <= i < s.len() && (#[trigger] s[i]).name@ == n && s[i].exclude == x;
        let k = choose|k: int| 0 <= k < d.len() && same_key(#[trigger] d[k], s[i], true);
        assert(d[k].name@ == n && d[k].exclude == x);
    }
}

/// What netting a deduplicated listing gives depends on its listings alone:
/// whether anything is listed, whether everything listed is excluded, and the
/// names that remain.
pub proof fn lemma_netting_by_listings(a: Seq<Extension>, b: Seq<Extension>)
    requires
        same_listings(a, b),
    ensures
        (deduplicated(a, true).len() == 0) == (deduplicated(b, true).len() == 0),
        nothing_net(deduplicated(a, true)) == nothing_net(deduplicated(b, true)),
        forall|n: Seq<char>| has_name(net_of(deduplicated(a, true), deduplicated(a, true)), n)
            <==> has_name(net_of(deduplicated(b, true), deduplicated(b, true)), n),
{
    let da = deduplicated(a, true);
    let db = deduplicated(b, true);
    lemma_dedup_listings(a);
    lemma_dedup_listings(b);
    assert(same_listings(da, db));
    lemma_empty_by_listings(da, db);
    lemma_empty_by_listings(db, da);
    lemma_nothing_net_by_listings(da);
    lemma_nothing_net_by_listings(db);
    assert forall|n: Seq<char>| has_name(net_of(da, da), n) <==> has_name(net_of(db, db), n) by {
        lemma_net_names(da, n);
        lemma_net_names(db, n);
    }
}

/// A sequence with a listing is not empty, and one without is.
proof fn lemma_empty_by_listings(a: Seq<Extension>, b: Seq<Extension>)
    requires
        same_listings(a, b),
    ensures
        a.len() > 0 ==> b.len() > 0,
{
    if a.len() > 0 {
        assert(has_listing(a, a[0].name@, a[0].exclude));
        assert(has_listing(b, a[0].name@, a[0].exclude));
    }
}

/// Nothing is net exactly when every name listed for inclusion is also listed
/// for exclusion.
proof fn lemma_nothing_net_by_listings(d: Seq<Extension>)
    ensures
        nothing_net(d) <==> forall|n: Seq<char>| has_listing(d, n, false) ==> has_listing(d, n, true),
{
    if nothing_net(d) {
        assert forall|n: Seq<char>| has_listing(d, n, false) implies has_listing(d, n, true) by {
            let k = choose|k: int| 0 <= k < d.len() && (#[trigger] d[k]).name@ == n && d[k].exclude == false;
            assert(excluded_name(d, d[k].name@));
            let m = choose|m: int| 0 <= m < d.len() && #[trigger] d[m].exclude && d[m].name@ == d[k].name@;
            assert(d[m].name@ == n);
        }
    }
    if forall|n: Seq<char>| has_listing(d, n, false) ==> has_listing(d, n, true) {
        assert forall|k: int| 0 <= k < d.len() && !#[trigger] d[k].exclude implies excluded_name(d, d[k].name@) by {
            assert(has_listing(d, d[k].name@, false));
            assert(has_listing(d, d[k].name@, true));
            let m = choose|m: int| 0 <= m < d.len() && (#[trigger] d[m]).name@ == d[k].name@ && d[m].exclude == true;
            assert(d[m].exclude);
        }
    }
}

/// A name remains after netting exactly when it is listed for inclusion and
/// not for exclusion.
proof fn lemma_net_names(d: Seq<Extension>, n: Seq<char>)
    ensures
        has_name(net_of(d, d), n) <==> (has_listing(d, n, false) && !has_listing(d, n, true)),
{
    let r = net_of(d, d);
    if has_name(r, n) {
        let i = choose|i: int| 0 <= i < r.len() && #[trigger] r[i].name_view() == n;
        assert(r.contains(r[i]));
        lemma_net_membership(d, d, r[i]);
        let k = choose|k: int| 0 <= k < d.len() && d[k] == r[i];
        assert(has_listing(d, n, false));
        if has_listing(d, n, true) {
            let m = choose|m: int| 0 <= m < d.len() && (#[trigger] d[m]).name@ == n && d[m].exclude == true;
            assert(excluded_name(d, r[i].name@));
        }
    }
    if has_listing(d, n, false) && !has_listing(d, n, true) {
        let k = choose|k: int| 0 <= k < d.len() && (#[trigger] d[k]).name@ == n && d[k].exclude == false;
        assert(d.contains(d[k]));
        if excluded_name(d, n) {
            let m = choose|m: int| 0 <= m < d.len() && #[trigger] d[m].exclude && d[m].name@ == n;
            assert(has_listing(d, n, true));
        }
        lemma_net_membership(d, d, d[k]);
        let i = choose|i: int| 0 <= i < r.len() && r[i] == d[k];
        assert(r[i].name_view() == n);
    }
}

/// The list item `item` parses, wherever it stands.
pub open spec fn item_parses(
    specs: HtmlSpecs,
    kind: ExtensionKind,
    supports_default: bool,
    item: NestedItem,
    exclude: bool,
    optional: bool,
) -> bool {
    parse_item(specs, kind, supports_default, 0, 0, item, exclude, optional) is Ok
}

/// The list item `item` lists the name `n`, excluded when `x`.
pub open spec fn item_lists(
    specs: HtmlSpecs,
    kind: ExtensionKind,
    supports_default: bool,
    item: NestedItem,
    exclude: bool,
    optional: bool,
    n: Seq<char>,
    x: bool,
) -> bool {
    parse_item(specs, kind, supports_default, 0, 0, item, exclude, optional) matches Ok(s) && has_listing(s, n, x)
}

/// Some item of `items` lists the name `n`, excluded when `x`.
pub open spec fn some_item_lists(
    specs: HtmlSpecs,
    kind: ExtensionKind,
    supports_default: bool,
    items: Seq<NestedItem>,
    exclude: bool,
    optional: bool,
    n: Seq<char>,
    x: bool,
) -> bool {
    exists|j: int| 0 <= j < items.len() && #[trigger] item_lists(specs, kind, supports_default, items[j], exclude, optional, n, x)
}

/// The argument `a` parses, wherever it stands.
pub open spec fn argument_parses(specs: HtmlSpecs, kind: ExtensionKind, supports_default: bool, a: NestedMeta) -> bool {
    parse_argument(specs, kind, supports_default, 0, a) is Ok
}

/// The argument `a` lists the name `n`, excluded when `x`.
pub open spec fn argument_lists(
    specs: HtmlSpecs,
    kind: ExtensionKind,
    supports_default: bool,
    a: NestedMeta,
    n: Seq<char>,
    x: bool,
) -> bool {
    parse_argument(specs, kind, supports_default, 0, a) matches Ok(s) && has_listing(s, n, x)
}

/// Where an item stands matters only to the error it gives.
proof fn lemma_item_position(
    specs: HtmlSpecs,
    kind: ExtensionKind,
    supports_default: bool,
    i: int,
    j: int,
    item: NestedItem,
    exclude: bool,
    optional: bool,
)
    ensures
        parse_item(specs, kind, supports_default, i, j, item, exclude, optional) is Ok
            == item_parses(specs, kind, supports_default, item, exclude, optional),
        parse_item(specs, kind, supports_default, i, j, item, exclude, optional) is Ok ==> parse_item(
            specs,
            kind,
            supports_default,
            i,
            j,
            item,
            exclude,
            optional,
        ) == parse_item(specs, kind, supports_default, 0, 0, item, exclude, optional),
{
}

/// The items of a list parse exactly when each does, and they list what
/// their items list.
proof fn lemma_items_parse(
    specs: HtmlSpecs,
    kind: ExtensionKind,
    supports_default: bool,
    i: int,
    items: Seq<NestedItem>,
    exclude: bool,
    optional: bool,
)
    ensures
        parse_items(specs, kind, supports_default, i, items, exclude, optional) is Ok <==> forall|j: int|
            0 <= j < items.len() ==> item_parses(specs, kind, supports_default, #[trigger] items[j], exclude, optional),
        parse_items(specs, kind, supports_default, i, items, exclude, optional) matches Ok(s) ==> forall|n: Seq<char>, x: bool|
            has_listing(s, n, x) <==> exists|j: int|
                0 <= j < items.len() && #[trigger] item_lists(specs, kind, supports_default, items[j], exclude, optional, n, x),
    decreases items.len(),
{
    if items.len() > 0 {
        let shorter = items.drop_last();
        let last = items.last();
        let k = items.len() - 1;
        lemma_items_parse(specs, kind, supports_default, i, shorter, exclude, optional);
        lemma_item_position(specs, kind, supports_default, i, k, last, exclude, optional);
        assert(last == items[k]);
        assert forall|j: int| 0 <= j < shorter.len() implies shorter[j] == items[j] by {}
        if parse_items(specs, kind, supports_default, i, items, exclude, optional) is Ok {
            assert forall|j: int| 0 <= j < items.len() implies item_parses(specs, kind, supports_default, #[trigger] items[j], exclude, optional) by {
                if j < k {
                    assert(shorter[j] == items[j]);
                }
            }
        }
        if forall|j: int| 0 <= j < items.len() ==> item_parses(specs, kind, supports_default, #[trigger] items[j], exclude, optional) {
            assert forall|j: int| 0 <= j < shorter.len() implies item_parses(specs, kind, supports_default, #[trigger] shorter[j], exclude, optional) by {
                assert(shorter[j] == items[j]);
            }
            assert(item_parses(specs, kind, supports_default, items[k], exclude, optional));
        }
        if let Ok(s) = parse_items(specs, kind, supports_default, i, items, exclude, optional) {
            let prefix = parse_items(specs, kind, supports_default, i, shorter, exclude, optional)->Ok_0;
            let more = parse_item(specs, kind, supports_default, i, k, last, exclude, optional)->Ok_0;
            assert(s == prefix + more);
            lemma_listings_concat(prefix, more);
            assert forall|n: Seq<char>, x: bool| has_listing(s, n, x) <==> exists|j: int|
                0 <= j < items.len() && #[trigger] item_lists(specs, kind, supports_default, items[j], exclude, optional, n, x) by {
                if has_listing(prefix, n, x) {
                    let j = choose|j: int|
                        0 <= j < shorter.len() && #[trigger] item_lists(specs, kind, supports_default, shorter[j], exclude, optional, n, x);
                    assert(item_lists(specs, kind, supports_default, items[j], exclude, optional, n, x));
                }
                if has_listing(more, n, x) {
                    assert(item_lists(specs, kind, supports_default, items[k], exclude, optional, n, x));
                }
                if exists|j: int| 0 <= j < items.len() && #[trigger] item_lists(specs, kind, supports_default, items[j], exclude, optional, n, x) {
                    let j = choose|j: int|
                        0 <= j < items.len() && #[trigger] item_lists(specs, kind, supports_default, items[j], exclude, optional, n, x);
                    if j < k {
                        assert(item_lists(specs, kind, supports_default, shorter[j], exclude, optional, n, x));
                    }
                }
            }
        }
    }
}

/// Where a list stands matters only to the error it gives.
proof fn lemma_items_position(
    specs: HtmlSpecs,
    kind: ExtensionKind,
    supports_default: bool,
    i: int,
    items: Seq<NestedItem>,
    exclude: bool,
    optional: bool,
)
    ensures
        parse_items(specs, kind, supports_default, i, items, exclude, optional) is Ok
            == parse_items(specs, kind, supports_default, 0, items, exclude, optional) is Ok,
        parse_items(specs, kind, supports_default, i, items, exclude, optional) is Ok ==> parse_items(
            specs,
            kind,
            supports_default,
            i,
            items,
            exclude,
            optional,
        ) == parse_items(specs, kind, supports_default, 0, items, exclude, optional),
    decreases items.len(),
{
    if items.len() > 0 {
        lemma_items_position(specs, kind, supports_default, i, items.drop_last(), exclude, optional);
        lemma_item_position(specs, kind, supports_default, i, items.len() - 1, items.last(), exclude, optional);
        lemma_item_position(specs, kind, supports_default, 0, items.len() - 1, items.last(), exclude, optional);
    }
}

/// Where an argument stands matters only to the error it gives.
proof fn lemma_argument_position(specs: HtmlSpecs, kind: ExtensionKind, supports_default: bool, i: int, a: NestedMeta)
    ensures
        parse_argument(specs, kind, supports_default, i, a) is Ok == argument_parses(specs, kind, supports_default, a),
        parse_argument(specs, kind, supports_default, i, a) is Ok ==> parse_argument(specs, kind, supports_default, i, a)
            == parse_argument(specs, kind, supports_default, 0, a),
{
    if let NestedMeta::List(l) = a {
        if let Some((exclude, optional)) = list_flags(supports_default, l.path.text@) {
            lemma_items_position(specs, kind, supports_default, i, l.nested@, exclude, optional);
        }
    }
}

/// The arguments parse exactly when each does, and they list what their
/// arguments list.
pub proof fn lemma_arguments_parse(specs: HtmlSpecs, kind: ExtensionKind, supports_default: bool, args: Seq<NestedMeta>)
    ensures
        parse_arguments(specs, kind, supports_default, args) is Ok <==> forall|i: int|
            0 <= i < args.len() ==> argument_parses(specs, kind, supports_default, #[trigger] args[i]),
        parse_arguments(specs, kind, supports_default, args) matches Ok(s) ==> forall|n: Seq<char>, x: bool|
            has_listing(s, n, x) <==> exists|i: int|
                0 <= i < args.len() && #[trigger] argument_lists(specs, kind, supports_default, args[i], n, x),
    decreases args.len(),
{
    if args.len() > 0 {
        let shorter = args.drop_last();
        let last = args.last();
        let k = args.len() - 1;
        lemma_arguments_parse(specs, kind, supports_default, shorter);
        lemma_argument_position(specs, kind, supports_default, k, last);
        assert(last == args[k]);
        if parse_arguments(specs, kind, supports_default, args) is Ok {
            assert forall|i: int| 0 <= i < args.len() implies argument_parses(specs, kind, supports_default, #[trigger] args[i]) by {
                if i < k {
                    assert(shorter[i] == args[i]);
                }
            }
        }
        if forall|i: int| 0 <= i < args.len() ==> argument_parses(specs, kind, supports_default, #[trigger] args[i]) {
            assert forall|i: int| 0 <= i < shorter.len() implies argument_parses(specs, kind, supports_default, #[trigger] shorter[i]) by {
                assert(shorter[i] == args[i]);
            }
            assert(argument_parses(specs, kind, supports_default, args[k]));
        }
        if let Ok(s) = parse_arguments(specs, kind, supports_default, args) {
            let prefix = parse_arguments(specs, kind, supports_default, shorter)->Ok_0;
            let more = parse_argument(specs, kind, supports_default, k, last)->Ok_0;
            assert(s == prefix + more);
            lemma_listings_concat(prefix, more);
            assert forall|n: Seq<char>, x: bool| has_listing(s, n, x) <==> exists|i: int|
                0 <= i < args.len() && #[trigger] argument_lists(specs, kind, supports_default, args[i], n, x) by {
                if has_listing(prefix, n, x) {
                    let i = choose|i: int| 0 <= i < shorter.len() && #[trigger] argument_lists(specs, kind, supports_default, shorter[i], n, x);
                    assert(shorter[i] == args[i]);
                    assert(argument_lists(specs, kind, supports_default, args[i], n, x));
                }
                if has_listing(more, n, x) {
                    assert(argument_lists(specs, kind, supports_default, args[k], n, x));
                }
                if exists|i: int| 0 <= i < args.len() && #[trigger] argument_lists(specs, kind, supports_default, args[i], n, x) {
                    let i = choose|i: int| 0 <= i < args.len() && #[trigger] argument_lists(specs, kind, supports_default, args[i], n, x);
                    if i < k {
                        assert(shorter[i] == args[i]);
                        assert(argument_lists(specs, kind, supports_default, shorter[i], n, x));
                    }
                }
            }
        }
    }
}

/// `a` and `b` are the same argument, up to the order and repetition of the
/// items of a list.
pub open spec fn same_argument(a: NestedMeta, b: NestedMeta) -> bool {
    ||| a == b
    ||| a matches NestedMeta::List(la) && b matches NestedMeta::List(lb) && la.path == lb.path && forall|it: NestedItem|
        la.nested@.contains(it) <==> lb.nested@.contains(it)
}

/// `a` and `b` hold the same arguments, in any order and repeated any number
/// of times, each list up to the order and repetition of its items.
pub open spec fn same_arguments(a: Seq<NestedMeta>, b: Seq<NestedMeta>) -> bool {
    &&& forall|i: int| #![trigger a[i]] 0 <= i < a.len() ==> exists|j: int| #![trigger b[j]] 0 <= j < b.len() && same_argument(a[i], b[j])
    &&& forall|j: int| #![trigger b[j]] 0 <= j < b.len() ==> exists|i: int| #![trigger a[i]] 0 <= i < a.len() && same_argument(a[i], b[j])
}

/// Lists with the same items parse alike and list alike.
proof fn lemma_same_items(
    specs: HtmlSpecs,
    kind: ExtensionKind,
    supports_default: bool,
    a: Seq<NestedItem>,
    b: Seq<NestedItem>,
    exclude: bool,
    optional: bool,
)
    requires
        forall|it: NestedItem| a.contains(it) <==> b.contains(it),
    ensures
        parse_items(specs, kind, supports_default, 0, a, exclude, optional) is Ok
            == parse_items(specs, kind, supports_default, 0, b, exclude, optional) is Ok,
        parse_items(specs, kind, supports_default, 0, a, exclude, optional) is Ok ==> same_listings(
            parse_items(specs, kind, supports_default, 0, a, exclude, optional)->Ok_0,
            parse_items(specs, kind, supports_default, 0, b, exclude, optional)->Ok_0,
        ),
{
    lemma_items_parse(specs, kind, supports_default, 0, a, exclude, optional);
    lemma_items_parse(specs, kind, supports_default, 0, b, exclude, optional);
    lemma_same_items_one_way(specs, kind, supports_default, a, b, exclude, optional);
    lemma_same_items_one_way(specs, kind, supports_default, b, a, exclude, optional);
    if parse_items(specs, kind, supports_default, 0, a, exclude, optional) is Ok {
        let sa = parse_items(specs, kind, supports_default, 0, a, exclude, optional)->Ok_0;
        let sb = parse_items(specs, kind, supports_default, 0, b, exclude, optional)->Ok_0;
        assert forall|n: Seq<char>, x: bool| has_listing(sa, n, x) <==> has_listing(sb, n, x) by {
            assert(has_listing(sa, n, x) == some_item_lists(specs, kind, supports_default, a, exclude, optional, n, x));
            assert(has_listing(sb, n, x) == some_item_lists(specs, kind, supports_default, b, exclude, optional, n, x));
        }
    }
}

/// What each item of `a` does, some item of `b` does too.
proof fn lemma_same_items_one_way(
    specs: HtmlSpecs,
    kind: ExtensionKind,
    supports_default: bool,
    a: Seq<NestedItem>,
    b: Seq<NestedItem>,
    exclude: bool,
    optional: bool,
)
    requires
        forall|it: NestedItem| a.contains(it) ==> b.contains(it),
    ensures
        (forall|j: int| 0 <= j < b.len() ==> item_parses(specs, kind, supports_default, #[trigger] b[j], exclude, optional))
            ==> (forall|j: int| 0 <= j < a.len() ==> item_parses(specs, kind, supports_default, #[trigger] a[j], exclude, optional)),
        forall|n: Seq<char>, x: bool| #[trigger] some_item_lists(specs, kind, supports_default, a, exclude, optional, n, x)
            ==> some_item_lists(specs, kind, supports_default, b, exclude, optional, n, x),
{
    assert forall|j: int| 0 <= j < a.len() implies exists|k: int| 0 <= k < b.len() && b[k] == #[trigger] a[j] by {
        assert(a.contains(a[j]));
    }
    assert forall|n: Seq<char>, x: bool| #[trigger] some_item_lists(specs, kind, supports_default, a, exclude, optional, n, x)
        implies some_item_lists(specs, kind, supports_default, b, exclude, optional, n, x) by {
        let j = choose|j: int| 0 <= j < a.len() && #[trigger] item_lists(specs, kind, supports_default, a[j], exclude, optional, n, x);
        let k = choose|k: int| 0 <= k < b.len() && b[k] == a[j];
        assert(item_lists(specs, kind, supports_default, b[k], exclude, optional, n, x));
    }
    if forall|j: int| 0 <= j < b.len() ==> item_parses(specs, kind, supports_default, #[trigger] b[j], exclude, optional) {
        assert forall|j: int| 0 <= j < a.len() implies item_parses(specs, kind, supports_default, #[trigger] a[j], exclude, optional) by {
            let k = choose|k: int| 0 <= k < b.len() && b[k] == a[j];
            assert(item_parses(specs, kind, supports_default, b[k], exclude, optional));
        }
    }
}

/// The same argument parses alike and lists alike.
proof fn lemma_same_argument(specs: HtmlSpecs, kind: ExtensionKind, supports_default: bool, a: NestedMeta, b: NestedMeta)
    requires
        same_argument(a, b),
    ensures
        argument_parses(specs, kind, supports_default, a) == argument_parses(specs, kind, supports_default, b),
        argument_parses(specs, kind, supports_default, a) ==> forall|n: Seq<char>, x: bool|
            argument_lists(specs, kind, supports_default, a, n, x) == argument_lists(specs, kind, supports_default, b, n, x),
{
    if a != b {
        let la = a->List_0;
        let lb = b->List_0;
        if let Some((exclude, optional)) = list_flags(supports_default, la.path.text@) {
            lemma_same_items(specs, kind, supports_default, la.nested@, lb.nested@, exclude, optional);
        }
    }
}

/// Arguments that are the same up to order and repetition parse alike and
/// list alike.
pub proof fn lemma_same_arguments_parse(
    specs: HtmlSpecs,
    kind: ExtensionKind,
    supports_default: bool,
    a: Seq<NestedMeta>,
    b: Seq<NestedMeta>,
)
    requires
        same_arguments(a, b),
    ensures
        parse_arguments(specs, kind, supports_default, a) is Ok == parse_arguments(specs, kind, supports_default, b) is Ok,
        parse_arguments(specs, kind, supports_default, a) is Ok ==> same_listings(
            parse_arguments(specs, kind, supports_default, a)->Ok_0,
            parse_arguments(specs, kind, supports_default, b)->Ok_0,
        ),
{
    lemma_arguments_parse(specs, kind, supports_default, a);
    lemma_arguments_parse(specs, kind, supports_default, b);
    if forall|i: int| 0 <= i < a.len() ==> argument_parses(specs, kind, supports_default, #[trigger] a[i]) {
        assert forall|j: int| 0 <= j < b.len() implies argument_parses(specs, kind, supports_default, #[trigger] b[j]) by {
            let i = choose|i: int| #![trigger a[i]] 0 <= i < a.len() && same_argument(a[i], b[j]);
            lemma_same_argument(specs, kind, supports_default, a[i], b[j]);
        }
    }
    if forall|j: int| 0 <= j < b.len() ==> argument_parses(specs, kind, supports_default, #[trigger] b[j]) {
        assert forall|i: int| 0 <= i < a.len() implies argument_parses(specs, kind, supports_default, #[trigger] a[i]) by {
            let j = choose|j: int| #![trigger b[j]] 0 <= j < b.len() && same_argument(a[i], b[j]);
            lemma_same_argument(specs, kind, supports_default, a[i], b[j]);
        }
    }
    if parse_arguments(specs, kind, supports_default, a) is Ok {
        let sa = parse_arguments(specs, kind, supports_default, a)->Ok_0;
        let sb = parse_arguments(specs, kind, supports_default, b)->Ok_0;
        assert forall|n: Seq<char>, x: bool| has_listing(sa, n, x) <==> has_listing(sb, n, x) by {
            if has_listing(sa, n, x) {
                let i = choose|i: int| 0 <= i < a.len() && #[trigger] argument_lists(specs, kind, supports_default, a[i], n, x);
                let j = choose|j: int| #![trigger b[j]] 0 <= j < b.len() && same_argument(a[i], b[j]);
                lemma_same_argument(specs, kind, supports_default, a[i], b[j]);
                assert(argument_lists(specs, kind, supports_default, b[j], n, x));
            }
            if has_listing(sb, n, x) {
                let j = choose|j: int| 0 <= j < b.len() && #[trigger] argument_lists(specs, kind, supports_default, b[j], n, x);
                let i = choose|i: int| #![trigger a[i]] 0 <= i < a.len() && same_argument(a[i], b[j]);
                lemma_same_argument(specs, kind, supports_default, a[i], b[j]);
                assert(argument_lists(specs, kind, supports_default, a[i], n, x));
            }
        }
    }
}

} // verus!
