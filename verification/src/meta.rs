//! The arguments of an attribute macro, such as `href, exclude(id), default(hidden = true)`,
//! as the macros read them.
use vstd::prelude::*;

verus! {

/// A path such as `href` or `a::b`.
#[derive(Debug)]
pub struct MetaPath {
    /// Whether the path starts with `::`.
    pub leading_colon: bool,
    /// Its segments, in order.
    pub segments: Vec<String>,
    /// The path as it prints (its token text).
    pub text: String,
}

impl MetaPath {
    /// The single identifier the path consists of, if it is one.
    pub open spec fn ident_spec(self) -> Option<String> {
        if !self.leading_colon && self.segments@.len() == 1 {
            Some(self.segments@[0])
        } else {
            None
        }
    }

    /// The single identifier the path consists of, if it is one.
    pub fn get_ident(&self) -> (r: Option<&String>)
        ensures
            match r {
                Some(s) => self.ident_spec() == Some(*s),
                None => self.ident_spec() is None,
            },
    {
        if !self.leading_colon && self.segments.len() == 1 {
            Some(&self.segments[0])
        } else {
            None
        }
    }
}

/// `path = literal`.
#[derive(Debug)]
pub struct MetaNameValue {
    /// The path on the left.
    pub path: MetaPath,
    /// The literal on the right, as it prints.
    pub lit: String,
}

/// An item inside a list such as `exclude(...)`.
#[derive(Debug)]
pub enum NestedItem {
    /// A path.
    Path(MetaPath),
    /// `path = literal`.
    NameValue(MetaNameValue),
    /// Anything else: a literal or a nested list.
    Other,
}

/// `path(items, ...)`.
#[derive(Debug)]
pub struct MetaList {
    /// The path before the parentheses.
    pub path: MetaPath,
    /// The items inside.
    pub nested: Vec<NestedItem>,
}

/// One argument of an attribute macro.
#[derive(Debug)]
pub enum NestedMeta {
    /// A path.
    Path(MetaPath),
    /// A list.
    List(MetaList),
    /// `path = literal`.
    NameValue(MetaNameValue),
    /// A literal, as it prints.
    Lit(String),
}

} // verus!
