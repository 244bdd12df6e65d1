//! Values that carry a name, and lookups by name over lists of them.
use vstd::prelude::*;

verus! {

/// A value known by a name.
pub trait Named {
    /// The name, as characters.
    spec fn name_view(&self) -> Seq<char>;

    /// The name.
    fn name(&self) -> (r: &String)
        ensures
            r@ == self.name_view(),
    ;
}

/// `o` shifted by `n`.
pub open spec fn shifted(o: Option<int>, n: int) -> Option<int> {
    match o {
        Some(k) => Some(k + n),
        None => None,
    }
}

/// The first element of `s` whose name is `n`, if any.
pub open spec fn find_first<T: Named>(s: Seq<T>, n: Seq<char>) -> Option<T>
    decreases s.len(),
{
    if s.len() == 0 {
        None
    } else if s[0].name_view() == n {
        Some(s[0])
    } else {
        find_first(s.drop_first(), n)
    }
}

/// Some element of `s` is named `n`.
pub open spec fn has_name<T: Named>(s: Seq<T>, n: Seq<char>) -> bool {
    exists|i: int| 0 <= i < s.len() && #[trigger] s[i].name_view() == n
}

/// `find_first` finds something exactly when some element carries the name,
/// and what it finds carries the name and is an element.
pub proof fn lemma_find_first<T: Named>(s: Seq<T>, n: Seq<char>)
    ensures
        find_first(s, n) is Some <==> has_name(s, n),
        find_first(s, n) matches Some(x) ==> x.name_view() == n && s.contains(x),
    decreases s.len(),
{
    if s.len() > 0 {
        lemma_find_first(s.drop_first(), n);
        if s[0].name_view() == n {
            assert(s.contains(s[0]));
        } else {
            if has_name(s, n) {
                let i = choose|i: int| 0 <= i < s.len() && #[trigger] s[i].name_view() == n;
                assert(s.drop_first()[i - 1].name_view() == n);
            }
            if has_name(s.drop_first(), n) {
                let i = choose|i: int|
                    0 <= i < s.drop_first().len() && #[trigger] s.drop_first()[i].name_view() == n;
                assert(s[i + 1].name_view() == n);
            }
            if let Some(x) = find_first(s, n) {
                let k = choose|k: int| 0 <= k < s.drop_first().len() && s.drop_first()[k] == x;
                assert(s[k + 1] == x);
            }
        }
    }
}

/// The first element of `items` named `name`.
pub fn lookup<'a, T: Named>(items: &'a Vec<T>, name: &String) -> (r: Option<&'a T>)
    ensures
        match r {
            Some(x) => find_first(items@, name@) == Some(*x),
            None => find_first(items@, name@) is None,
        },
{
    let mut i: usize = 0;
    assert(items@.skip(0) =~= items@);
    while i < items.len()
        invariant
            i <= items.len(),
            find_first(items@, name@) == find_first(items@.skip(i as int), name@),
        decreases items.len() - i,
    {
        let item = &items[i];
        if *item.name() == *name {
            return Some(item);
        }
        assert(items@.skip(i as int).drop_first() =~= items@.skip(i + 1));
        i = i + 1;
    }
    None
}

/// Whether some element of `items` is named `name`.
pub fn contains_name<T: Named>(items: &Vec<T>, name: &String) -> (r: bool)
    ensures
        r == has_name(items@, name@),
        r == find_first(items@, name@) is Some,
{
    proof {
        lemma_find_first(items@, name@);
    }
    lookup(items, name).is_some()
}

impl Named for String {
    open spec fn name_view(&self) -> Seq<char> {
        self@
    }

    fn name(&self) -> (r: &String) {
        self
    }
}

} // verus!
