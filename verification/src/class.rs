//! The `classes` macro: a `Display` that writes the selected fields of a
//! properties struct, separated by spaces.
use vstd::prelude::*;
use vstd::string::StringExecFns;

use crate::meta::NestedMeta;
use crate::named::shifted;
use crate::sort::{
    distinct_names, lemma_rearranged_distinct, lemma_sorted_distinct_strictly_increasing,
    sort_by_name,
};
use crate::text::{copy_optional, lex_lt, text_equal};

verus! {

/// An attribute on a field, as far as `classes` reads it: the first segment of
/// its path.
#[derive(Debug)]
pub struct FieldAttribute {
    /// The first segment of the attribute's path (`class` for `#[class]`).
    pub first_segment: Option<String>,
}

impl Clone for FieldAttribute {
    fn clone(&self) -> (r: Self)
        ensures
            r == *self,
    {
        FieldAttribute { first_segment: copy_optional(&self.first_segment) }
    }
}

/// A field of a struct.
#[derive(Debug)]
pub struct Field {
    /// The field's name; `None` in a tuple struct.
    pub ident: Option<String>,
    /// Its attributes, in order.
    pub attrs: Vec<FieldAttribute>,
}

/// The struct that `classes` decorates.
#[derive(Debug)]
pub struct ItemStruct {
    /// The struct's name.
    pub ident: String,
    /// Its fields, in order.
    pub fields: Vec<Field>,
}

/// The kinds of `classes` arguments that are refused.
#[derive(Clone, Copy, Debug, PartialEq, Eq, Structural)]
pub enum ArgumentKind {
    /// A path of more than one segment.
    Paths,
    /// A list such as `a(b)`.
    Lists,
    /// `a = b`.
    NamedValues,
    /// A literal.
    Literals,
}

impl ArgumentKind {
    /// How the refusal names the kind, as in "lists are not supported".
    pub fn description(&self) -> (r: &'static str)
        ensures
            r@ == match self {
                ArgumentKind::Paths => "paths"@,
                ArgumentKind::Lists => "lists"@,
                ArgumentKind::NamedValues => "named values"@,
                ArgumentKind::Literals => "literals"@,
            },
    {
        match self {
            ArgumentKind::Paths => "paths",
            ArgumentKind::Lists => "lists",
            ArgumentKind::NamedValues => "named values",
            ArgumentKind::Literals => "literals",
        }
    }
}

/// Why `classes` refuses its input.
#[derive(Debug)]
pub enum ClassError {
    /// Argument number `arg` is of a kind that is not supported.
    UnsupportedArgument { arg: usize, kind: ArgumentKind },
    /// These fields (sorted, each once) are selected more than once.
    DuplicateClasses { names: Vec<String> },
    /// No field is selected at all.
    NoClassFields { struct_name: String },
}

/// The `Display` implementation that `classes` generates.
#[derive(Debug)]
pub struct DisplayImpl {
    /// The struct it is for.
    pub struct_name: String,
    /// The format string: one `{}` per field, separated by single spaces.
    pub format: String,
    /// The fields written, in order.
    pub fields: Vec<String>,
}

/// The attribute is `#[class]` (or a path that starts with `class`).
pub open spec fn is_class_attribute(a: FieldAttribute) -> bool {
    match a.first_segment {
        Some(s) => s@ == "class"@,
        None => false,
    }
}

/// The position of the first `class` attribute among `attrs`.
pub open spec fn class_attribute_index(attrs: Seq<FieldAttribute>) -> Option<int>
    decreases attrs.len(),
{
    if attrs.len() == 0 {
        None
    } else if is_class_attribute(attrs[0]) {
        Some(0)
    } else {
        shifted(class_attribute_index(attrs.drop_first()), 1)
    }
}

/// `attrs` without its first `class` attribute.
pub open spec fn without_class_attribute(attrs: Seq<FieldAttribute>) -> Seq<FieldAttribute> {
    match class_attribute_index(attrs) {
        Some(i) => attrs.remove(i),
        None => attrs,
    }
}

/// The names of the fields that carry a `class` attribute, in order.
pub open spec fn class_field_names(fields: Seq<Field>) -> Seq<String>
    decreases fields.len(),
{
    if fields.len() == 0 {
        seq![]
    } else {
        let prefix = class_field_names(fields.drop_last());
        let f = fields.last();
        if class_attribute_index(f.attrs@) is Some && f.ident is Some {
            prefix.push(f.ident.unwrap())
        } else {
            prefix
        }
    }
}

/// The field an argument of `classes` names, or the kind that is refused.
pub open spec fn argument_field(arg: NestedMeta) -> Result<String, ArgumentKind> {
    match arg {
        NestedMeta::Path(p) => if p.segments@.len() == 1 {
            Ok(p.segments@[0])
        } else {
            Err(ArgumentKind::Paths)
        },
        NestedMeta::List(_) => Err(ArgumentKind::Lists),
        NestedMeta::NameValue(_) => Err(ArgumentKind::NamedValues),
        NestedMeta::Lit(_) => Err(ArgumentKind::Literals),
    }
}

/// The fields that the arguments of `classes` name, in order, or the first
/// argument refused with its kind.
pub open spec fn included_fields(args: Seq<NestedMeta>) -> Result<Seq<String>, (int, ArgumentKind)>
    decreases args.len(),
{
    if args.len() == 0 {
        Ok(seq![])
    } else {
        match included_fields(args.drop_last()) {
            Err(e) => Err(e),
            Ok(prefix) => match argument_field(args.last()) {
                Ok(n) => Ok(prefix.push(n)),
                Err(k) => Err((args.len() - 1, k)),
            },
        }
    }
}

/// `n` occurs at least twice among `names`.
pub open spec fn is_repeated(names: Seq<String>, n: Seq<char>) -> bool {
    exists|i: int, j: int| 0 <= i < j < names.len() && names[i]@ == n && names[j]@ == n
}

/// Some name occurs twice among `names`.
pub open spec fn has_repeats(names: Seq<String>) -> bool {
    exists|i: int, j: int| 0 <= i < j < names.len() && names[i]@ == names[j]@
}

/// `d` lists, in strictly increasing order, exactly the names that occur more
/// than once among `names`.
pub open spec fn lists_repeats(d: Seq<String>, names: Seq<String>) -> bool {
    &&& forall|i: int, j: int| 0 <= i < j < d.len() ==> lex_lt(d[i]@, d[j]@)
    &&& forall|k: int| 0 <= k < d.len() ==> is_repeated(names, #[trigger] d[k]@)
    &&& forall|n: Seq<char>| is_repeated(names, n) ==> exists|k: int| 0 <= k < d.len() && d[k]@ == n
}

/// `n` placeholders `{}` separated by single spaces.
pub open spec fn placeholders(n: nat) -> Seq<char>
    decreases n,
{
    if n == 0 {
        seq![]
    } else if n == 1 {
        "{}"@
    } else {
        placeholders((n - 1) as nat) + " {}"@
    }
}

/// The texts of `values` separated by single spaces.
pub open spec fn space_joined(values: Seq<String>) -> Seq<char>
    decreases values.len(),
{
    if values.len() == 0 {
        seq![]
    } else if values.len() == 1 {
        values[0]@
    } else {
        space_joined(values.drop_last()) + " "@ + values.last()@
    }
}

/// The position found is that of a `class` attribute, after none.
pub proof fn lemma_class_attribute_index(attrs: Seq<FieldAttribute>)
    ensures
        class_attribute_index(attrs) matches Some(i) ==> 0 <= i < attrs.len()
            && is_class_attribute(attrs[i])
            && forall|j: int| 0 <= j < i ==> !is_class_attribute(#[trigger] attrs[j]),
        class_attribute_index(attrs) is None ==> forall|j: int| 0 <= j < attrs.len() ==> !is_class_attribute(#[trigger] attrs[j]),
    decreases attrs.len(),
{
    if attrs.len() > 0 {
        lemma_class_attribute_index(attrs.drop_first());
        if !is_class_attribute(attrs[0]) {
            assert forall|j: int| 0 < j < attrs.len() implies attrs[j] == attrs.drop_first()[j - 1] by {}
        }
    }
}

/// The position of the first `class` attribute among `attrs`.
pub fn class_attribute_position(attrs: &Vec<FieldAttribute>) -> (r: Option<usize>)
    ensures
        match r {
            Some(i) => class_attribute_index(attrs@) == Some(i as int),
            None => class_attribute_index(attrs@) is None,
        },
{
    let mut i: usize = 0;
    assert(attrs@.skip(0) =~= attrs@);
    while i < attrs.len()
        invariant
            i <= attrs.len(),
            class_attribute_index(attrs@) == shifted(class_attribute_index(attrs@.skip(i as int)), i as int),
        decreases attrs.len() - i,
    {
        let is_class = match &attrs[i].first_segment {
            Some(s) => text_equal(s.as_str(), "class"),
            None => false,
        };
        if is_class {
            return Some(i);
        }
        assert(attrs@.skip(i as int).drop_first() =~= attrs@.skip(i + 1));
        i = i + 1;
    }
    None
}


/// The fields that the arguments of `classes` name, or the first argument
/// refused.
fn include_fields(args: &Vec<NestedMeta>) -> (r: Result<Vec<String>, (usize, ArgumentKind)>)
    ensures
        match r {
            Ok(v) => included_fields(args@) == Ok::<Seq<String>, (int, ArgumentKind)>(v@),
            Err((i, k)) => included_fields(args@) == Err::<Seq<String>, (int, ArgumentKind)>((i as int, k)),
        },
{
    let mut out: Vec<String> = Vec::new();
    let mut i: usize = 0;
    assert(args@.take(0) =~= Seq::<NestedMeta>::empty());
    while i < args.len()
        invariant
            i <= args.len(),
            included_fields(args@.take(i as int)) == Ok::<Seq<String>, (int, ArgumentKind)>(out@),
        decreases args.len() - i,
    {
        assert(args@.take(i + 1).drop_last() =~= args@.take(i as int));
        let kind = match &args[i] {
            NestedMeta::Path(p) => {
                if p.segments.len() == 1 {
                    out.push(p.segments[0].clone());
                    i = i + 1;
                    continue;
                }
                ArgumentKind::Paths
            },
            NestedMeta::List(_) => ArgumentKind::Lists,
            NestedMeta::NameValue(_) => ArgumentKind::NamedValues,
            NestedMeta::Lit(_) => ArgumentKind::Literals,
        };
        proof {
            lemma_included_error_persists(args@, i as int + 1, kind);
        }
        return Err((i, kind));
    }
    assert(args@.take(args.len() as int) =~= args@);
    Ok(out)
}

/// An error on a prefix of the arguments stays the error of all of them.
proof fn lemma_included_error_persists(args: Seq<NestedMeta>, n: int, kind: ArgumentKind)
    requires
        1 <= n <= args.len(),
        included_fields(args.take(n - 1)) is Ok,
        argument_field(args[n - 1]) == Err::<String, ArgumentKind>(kind),
    ensures
        included_fields(args) == Err::<Seq<String>, (int, ArgumentKind)>((n - 1, kind)),
    decreases args.len() - n,
{
    if n == args.len() {
        assert(args.take(n) =~= args);
        assert(args.drop_last() =~= args.take(n - 1));
    } else {
        let shorter = args.drop_last();
        assert(shorter.take(n - 1) =~= args.take(n - 1));
        lemma_included_error_persists(shorter, n, kind);
    }
}

/// Copies of `fields` with each first `class` attribute removed, and the names
/// of the fields that carried one.
fn strip_class_attributes(fields: &Vec<Field>) -> (r: (Vec<Field>, Vec<String>))
    ensures
        r.0@.len() == fields@.len(),
        forall|i: int| 0 <= i < fields@.len() ==> (#[trigger] r.0@[i]).ident == fields@[i].ident
            && r.0@[i].attrs@ == without_class_attribute(fields@[i].attrs@),
        r.1@ == class_field_names(fields@),
{
    let mut out: Vec<Field> = Vec::new();
    let mut names: Vec<String> = Vec::new();
    let mut i: usize = 0;
    while i < fields.len()
        invariant
            i <= fields.len(),
            out@.len() == i,
            forall|k: int| 0 <= k < i ==> (#[trigger] out@[k]).ident == fields@[k].ident
                && out@[k].attrs@ == without_class_attribute(fields@[k].attrs@),
            names@ == class_field_names(fields@.take(i as int)),
        decreases fields.len() - i,
    {
        let f = &fields[i];
        let mut attrs = f.attrs.clone();
        assert(attrs@ =~= f.attrs@);
        let position = class_attribute_position(&f.attrs);
        assert(fields@.take(i + 1).drop_last() =~= fields@.take(i as int));
        proof {
            lemma_class_attribute_index(f.attrs@);
        }
        match position {
            Some(index) => {
                attrs.remove(index);
                match &f.ident {
                    Some(name) => names.push(name.clone()),
                    None => {},
                }
            },
            None => {},
        }
        out.push(Field { ident: copy_optional(&f.ident), attrs });
        i = i + 1;
    }
    assert(fields@.take(fields.len() as int) =~= fields@);
    (out, names)
}

/// Whether `name` occurs at least twice among `names`.
fn occurs_twice(names: &Vec<String>, name: &String) -> (r: bool)
    ensures
        r == is_repeated(names@, name@),
{
    let mut first: Option<usize> = None;
    let mut j: usize = 0;
    while j < names.len()
        invariant
            j <= names.len(),
            match first {
                Some(a) => a < j && names@[a as int]@ == name@ && forall|k: int| 0 <= k < a ==> names@[k]@ != name@,
                None => forall|k: int| 0 <= k < j ==> names@[k]@ != name@,
            },
            match first {
                Some(a) => forall|k: int| a < k < j ==> names@[k]@ != name@,
                None => true,
            },
        decreases names.len() - j,
    {
        if names[j] == *name {
            match first {
                Some(a) => {
                    assert(is_repeated(names@, name@)) by {
                        assert(names@[a as int]@ == name@ && names@[j as int]@ == name@);
                    }
                    return true;
                },
                None => {
                    first = Some(j);
                },
            }
        }
        j = j + 1;
    }
    assert(!is_repeated(names@, name@)) by {
        if is_repeated(names@, name@) {
            let (a, b) = choose|a: int, b: int| 0 <= a < b < names@.len() && names@[a]@ == name@ && names@[b]@ == name@;
            match first {
                Some(f) => {
                    assert(a >= f);
                    assert(b > f);
                },
                None => {},
            }
        }
    }
    false
}

/// Whether some element of `list` holds the text of `name`.
fn holds_text(list: &Vec<String>, name: &String) -> (r: bool)
    ensures
        r == exists|k: int| 0 <= k < list@.len() && list@[k]@ == name@,
{
    let mut k: usize = 0;
    while k < list.len()
        invariant
            k <= list.len(),
            forall|m: int| 0 <= m < k ==> list@[m]@ != name@,
        decreases list.len() - k,
    {
        if list[k] == *name {
            return true;
        }
        k = k + 1;
    }
    false
}

/// The names that occur more than once among `names`, sorted, each once.
fn repeated_names(names: &Vec<String>) -> (r: Vec<String>)
    ensures
        lists_repeats(r@, names@),
{
    let mut found: Vec<String> = Vec::new();
    let mut i: usize = 0;
    while i < names.len()
        invariant
            i <= names.len(),
            distinct_names(found@),
            forall|k: int| 0 <= k < found@.len() ==> is_repeated(names@, #[trigger] found@[k]@),
            forall|m: int| 0 <= m < i && is_repeated(names@, #[trigger] names@[m]@) ==>
                exists|k: int| 0 <= k < found@.len() && found@[k]@ == names@[m]@,
        decreases names.len() - i,
    {
        let name = &names[i];
        if occurs_twice(names, name) && !holds_text(&found, name) {
            let ghost before = found@;
            found.push(name.clone());
            assert forall|m: int| 0 <= m < i + 1 && is_repeated(names@, #[trigger] names@[m]@) implies
                exists|k: int| 0 <= k < found@.len() && found@[k]@ == names@[m]@ by {
                if m == i {
                    assert(found@[before.len() as int]@ == names@[m]@);
                } else {
                    let k = choose|k: int| 0 <= k < before.len() && before[k]@ == names@[m]@;
                    assert(found@[k]@ == names@[m]@);
                }
            }
        }
        i = i + 1;
    }
    let ghost unsorted = found@;
    let sorted = sort_by_name(found);
    proof {
        lemma_rearranged_distinct(unsorted, sorted@);
        assert forall|i: int, j: int| 0 <= i < j < sorted@.len() implies lex_lt(sorted@[i]@, sorted@[j]@) by {
            lemma_sorted_distinct_strictly_increasing(sorted@, i, j);
        }
        assert forall|k: int| 0 <= k < sorted@.len() implies is_repeated(names@, #[trigger] sorted@[k]@) by {
            assert(sorted@.contains(sorted@[k]));
            let m = choose|m: int| 0 <= m < unsorted.len() && unsorted[m] == sorted@[k];
        }
        assert forall|n: Seq<char>| is_repeated(names@, n) implies exists|k: int| 0 <= k < sorted@.len() && sorted@[k]@ == n by {
            let (a, b) = choose|a: int, b: int| 0 <= a < b < names@.len() && names@[a]@ == n && names@[b]@ == n;
            assert(is_repeated(names@, names@[a]@));
            let k = choose|k: int| 0 <= k < unsorted.len() && unsorted[k]@ == names@[a]@;
            assert(unsorted.contains(unsorted[k]));
            assert(sorted@.contains(unsorted[k]));
            let l = choose|l: int| 0 <= l < sorted@.len() && sorted@[l] == unsorted[k];
            assert(sorted@[l]@ == n);
        }
    }
    sorted
}

/// `n` placeholders `{}` separated by single spaces.
fn placeholder_format(n: usize) -> (r: String)
    ensures
        r@ == placeholders(n as nat),
{
    let mut format = String::new();
    let mut i: usize = 0;
    while i < n
        invariant
            i <= n,
            format@ == placeholders(i as nat),
        decreases n - i,
    {
        if i == 0 {
            format.append("{}");
            assert(format@ =~= placeholders(1));
        } else {
            format.append(" {}");
        }
        i = i + 1;
    }
    format
}

/// The `Display` implementation `classes` generates for `input` given the
/// macro's arguments `args`: the fields the arguments name, then those marked
/// `#[class]`. The first `#[class]` attribute of each field is removed from
/// `input` unless an argument is refused.
pub fn impl_display_for_struct(input: &mut ItemStruct, args: &Vec<NestedMeta>) -> (r: Result<DisplayImpl, ClassError>)
    ensures
        match included_fields(args@) {
            Err((i, kind)) => {
                &&& r is Err
                &&& r->Err_0 == ClassError::UnsupportedArgument { arg: i as usize, kind }
                &&& *final(input) == *old(input)
            },
            Ok(included) => {
                let names = included + class_field_names(old(input).fields@);
                &&& final(input).ident == old(input).ident
                &&& final(input).fields@.len() == old(input).fields@.len()
                &&& forall|i: int| 0 <= i < old(input).fields@.len() ==> (#[trigger] final(input).fields@[i]).ident
                    == old(input).fields@[i].ident && final(input).fields@[i].attrs@
                    == without_class_attribute(old(input).fields@[i].attrs@)
                &&& if has_repeats(names) {
                    r matches Err(ClassError::DuplicateClasses { names: d }) && lists_repeats(d@, names)
                } else if names.len() == 0 {
                    r is Err && r->Err_0 == ClassError::NoClassFields { struct_name: old(input).ident }
                } else {
                    r matches Ok(d) && d.struct_name == old(input).ident && d.fields@ == names
                        && d.format@ == placeholders(names.len())
                }
            },
        },
{
    let included = match include_fields(args) {
        Ok(v) => v,
        Err((i, kind)) => {
            return Err(ClassError::UnsupportedArgument { arg: i, kind });
        },
    };
    let (stripped, class_names) = strip_class_attributes(&input.fields);
    input.fields = stripped;
    let mut names = included;
    let ghost included_view = names@;
    let mut k: usize = 0;
    while k < class_names.len()
        invariant
            k <= class_names.len(),
            names@ == included_view + class_names@.take(k as int),
        decreases class_names.len() - k,
    {
        names.push(class_names[k].clone());
        assert(included_view + class_names@.take(k + 1) =~= (included_view + class_names@.take(k as int)).push(class_names@[k as int]));
        k = k + 1;
    }
    assert(class_names@.take(class_names.len() as int) =~= class_names@);
    let repeated = repeated_names(&names);
    if repeated.len() > 0 {
        proof {
            assert(is_repeated(names@, repeated@[0]@));
            let (a, b) = choose|a: int, b: int| 0 <= a < b < names@.len() && names@[a]@ == repeated@[0]@ && names@[b]@ == repeated@[0]@;
            assert(names@[a]@ == names@[b]@);
        }
        return Err(ClassError::DuplicateClasses { names: repeated });
    }
    proof {
        if has_repeats(names@) {
            let (a, b) = choose|a: int, b: int| 0 <= a < b < names@.len() && names@[a]@ == names@[b]@;
            assert(is_repeated(names@, names@[a]@));
        }
    }
    if names.len() == 0 {
        return Err(ClassError::NoClassFields { struct_name: input.ident.clone() });
    }
    let format = placeholder_format(names.len());
    Ok(DisplayImpl { struct_name: input.ident.clone(), format, fields: names })
}

impl DisplayImpl {
    /// What the generated `Display` writes when the selected fields display as
    /// `values` (one per field, in order): the values separated by single spaces.
    pub fn render(&self, values: &Vec<String>) -> (r: String)
        requires
            values@.len() == self.fields@.len(),
        ensures
            r@ == space_joined(values@),
    {
        let mut out = String::new();
        let mut i: usize = 0;
        assert(values@.take(0) =~= Seq::<String>::empty());
        while i < values.len()
            invariant
                i <= values.len(),
                out@ == space_joined(values@.take(i as int)),
            decreases values.len() - i,
        {
            let ghost prefix = values@.take(i + 1);
            assert(prefix.drop_last() =~= values@.take(i as int));
            if i > 0 {
                out.append(" ");
            }
            out.append(values[i].as_str());
            if i == 0 {
                assert(out@ =~= values@[0]@);
            }
            i = i + 1;
        }
        assert(values@.take(values.len() as int) =~= values@);
        out
    }
}

/// The field has a name and carries a `class` attribute.
pub open spec fn is_class_field(f: Field) -> bool {
    f.ident is Some && exists|k: int| 0 <= k < f.attrs@.len() && is_class_attribute(#[trigger] f.attrs@[k])
}

/// The class fields are written in the order they are declared: the names are
/// those of the named fields that carry a `class` attribute, each field once,
/// and a field declared before another comes before it. The result gives, for
/// each name written, the position of its field.
pub proof fn lemma_class_fields_in_order(fields: Seq<Field>) -> (idx: Seq<int>)
    ensures
        idx.len() == class_field_names(fields).len(),
        forall|k: int| 0 <= k < idx.len() ==> 0 <= #[trigger] idx[k] < fields.len() && is_class_field(fields[idx[k]])
            && class_field_names(fields)[k] == fields[idx[k]].ident->Some_0,
        forall|k1: int, k2: int| 0 <= k1 < k2 < idx.len() ==> #[trigger] idx[k1] < #[trigger] idx[k2],
        forall|i: int| 0 <= i < fields.len() && is_class_field(#[trigger] fields[i]) ==> exists|k: int| 0 <= k < idx.len() && idx[k] == i,
    decreases fields.len(),
{
    if fields.len() == 0 {
        seq![]
    } else {
        let shorter = fields.drop_last();
        let n = fields.len() - 1;
        let f = fields.last();
        let prev = lemma_class_fields_in_order(shorter);
        lemma_class_attribute_index(f.attrs@);
        assert forall|i: int| 0 <= i < shorter.len() implies shorter[i] == fields[i] by {}
        if class_attribute_index(f.attrs@) is Some && f.ident is Some {
            let i0 = class_attribute_index(f.attrs@)->Some_0;
            assert(is_class_attribute(f.attrs@[i0]));
            let idx = prev.push(n);
            assert(fields[n] == f);
            assert forall|k: int| 0 <= k < idx.len() implies 0 <= #[trigger] idx[k] < fields.len() && is_class_field(fields[idx[k]])
                && class_field_names(fields)[k] == fields[idx[k]].ident->Some_0 by {
                if k < prev.len() {
                    assert(idx[k] == prev[k]);
                    assert(shorter[prev[k]] == fields[prev[k]]);
                }
            }
            assert forall|i: int| 0 <= i < fields.len() && is_class_field(#[trigger] fields[i]) implies exists|k: int|
                0 <= k < idx.len() && idx[k] == i by {
                if i < n {
                    assert(shorter[i] == fields[i]);
                    assert(is_class_field(shorter[i]));
                    let k = choose|k: int| 0 <= k < prev.len() && prev[k] == i;
                    assert(idx[k] == i);
                } else {
                    assert(idx[prev.len() as int] == i);
                }
            }
            assert forall|k1: int, k2: int| 0 <= k1 < k2 < idx.len() implies #[trigger] idx[k1] < #[trigger] idx[k2] by {
                if k2 < prev.len() {
                    assert(prev[k1] < prev[k2]);
                } else {
                    assert(0 <= prev[k1] < shorter.len());
                }
            }
            idx
        } else {
            assert(!is_class_field(f)) by {
                if f.ident is Some {
                    assert(class_attribute_index(f.attrs@) is None);
                }
            }
            assert forall|k: int| 0 <= k < prev.len() implies 0 <= #[trigger] prev[k] < fields.len() && is_class_field(fields[prev[k]])
                && class_field_names(fields)[k] == fields[prev[k]].ident->Some_0 by {
                assert(shorter[prev[k]] == fields[prev[k]]);
            }
            assert forall|i: int| 0 <= i < fields.len() && is_class_field(#[trigger] fields[i]) implies exists|k: int|
                0 <= k < prev.len() && prev[k] == i by {
                if i < n {
                    assert(shorter[i] == fields[i]);
                    assert(is_class_field(shorter[i]));
                } else {
                    assert(fields[i] == f);
                }
            }
            prev
        }
    }
}

} // verus!
