//! The table of HTML attributes, tags and events that the macros check names
//! against and expand names from.
use vstd::prelude::*;

use crate::named::{contains_name, find_first, has_name, lookup, Named};

verus! {

/// The kind of values an HTML attribute takes, as far as the macros tell them
/// apart.
#[derive(Clone, Copy, Debug, PartialEq, Eq, Structural)]
pub enum AttributeValue {
    /// `true` / `false`.
    Boolean,
    /// `yes` / `no`.
    YesNo,
    /// `on` / `off`.
    OnOff,
    /// A list of URLs.
    UrlList,
    /// Any other kind of value (text, numbers, enumerations, ...).
    Other,
}

/// An HTML attribute.
#[derive(Debug)]
pub struct Attribute {
    /// The attribute's name, such as `href` or `data-*`.
    pub name: String,
    /// The kind of its values.
    pub values: AttributeValue,
}

impl Clone for Attribute {
    fn clone(&self) -> (r: Self)
        ensures
            r == *self,
    {
        Attribute { name: self.name.clone(), values: self.values }
    }
}

impl Named for Attribute {
    open spec fn name_view(&self) -> Seq<char> {
        self.name@
    }

    fn name(&self) -> (r: &String) {
        &self.name
    }
}

/// An HTML tag.
#[derive(Debug)]
pub struct Tag {
    /// The tag's name, such as `div`.
    pub name: String,
    /// Names of the attributes specific to the tag.
    pub attributes: Vec<String>,
    /// Names of further attributes the tag may carry.
    pub optional_attributes: Vec<String>,
    /// Whether the tag takes the global attributes.
    pub global_attributes: bool,
}

impl Named for Tag {
    open spec fn name_view(&self) -> Seq<char> {
        self.name@
    }

    fn name(&self) -> (r: &String) {
        &self.name
    }
}

/// An HTML DOM event.
#[derive(Debug)]
pub struct Event {
    /// The event's name, such as `onclick`.
    pub name: String,
    /// The name of the event object type handed to handlers, such as `MouseEvent`.
    pub event_object: String,
}

impl Clone for Event {
    fn clone(&self) -> (r: Self)
        ensures
            r == *self,
    {
        Event { name: self.name.clone(), event_object: self.event_object.clone() }
    }
}

impl Named for Event {
    open spec fn name_view(&self) -> Seq<char> {
        self.name@
    }

    fn name(&self) -> (r: &String) {
        &self.name
    }
}

/// A named group of tags, such as `form_associated`.
#[derive(Debug)]
pub struct TagCategory {
    /// The category's name.
    pub name: String,
    /// The tags in the category.
    pub tags: Vec<Tag>,
}

impl Named for TagCategory {
    open spec fn name_view(&self) -> Seq<char> {
        self.name@
    }

    fn name(&self) -> (r: &String) {
        &self.name
    }
}

/// A named group of events, such as `keyboard`.
#[derive(Debug)]
pub struct EventCategory {
    /// The category's name.
    pub name: String,
    /// The events in the category.
    pub events: Vec<Event>,
}

impl Named for EventCategory {
    open spec fn name_view(&self) -> Seq<char> {
        self.name@
    }

    fn name(&self) -> (r: &String) {
        &self.name
    }
}

/// The reference of HTML attributes, tags and events.
#[derive(Debug)]
pub struct HtmlSpecs {
    /// Every known attribute; a lookup by name takes the first one so named.
    pub attributes: Vec<Attribute>,
    /// The attributes of the global attributes category.
    pub global_attributes: Vec<Attribute>,
    /// Every known tag.
    pub tags: Vec<Tag>,
    /// The tag categories.
    pub tag_categories: Vec<TagCategory>,
    /// Every known event.
    pub events: Vec<Event>,
    /// The event categories.
    pub event_categories: Vec<EventCategory>,
}

impl HtmlSpecs {
    /// Whether an attribute is named `name`.
    pub fn is_valid_attribute(&self, name: &String) -> (r: bool)
        ensures
            r == has_name(self.attributes@, name@),
            r == find_first(self.attributes@, name@) is Some,
    {
        contains_name(&self.attributes, name)
    }

    /// The first attribute named `name`.
    pub fn get_attribute(&self, name: &String) -> (r: Option<&Attribute>)
        ensures
            match r {
                Some(x) => find_first(self.attributes@, name@) == Some(*x),
                None => find_first(self.attributes@, name@) is None,
            },
    {
        lookup(&self.attributes, name)
    }

    /// Whether a tag is named `name`.
    pub fn is_valid_tag(&self, name: &String) -> (r: bool)
        ensures
            r == has_name(self.tags@, name@),
            r == find_first(self.tags@, name@) is Some,
    {
        contains_name(&self.tags, name)
    }

    /// The first tag named `name`.
    pub fn get_tag(&self, name: &String) -> (r: Option<&Tag>)
        ensures
            match r {
                Some(x) => find_first(self.tags@, name@) == Some(*x),
                None => find_first(self.tags@, name@) is None,
            },
    {
        lookup(&self.tags, name)
    }

    /// The first tag category named `name`.
    pub fn get_tag_category(&self, name: &String) -> (r: Option<&TagCategory>)
        ensures
            match r {
                Some(x) => find_first(self.tag_categories@, name@) == Some(*x),
                None => find_first(self.tag_categories@, name@) is None,
            },
    {
        lookup(&self.tag_categories, name)
    }

    /// Whether a tag category is named `name`.
    pub fn is_tag_category(&self, name: &String) -> (r: bool)
        ensures
            r == find_first(self.tag_categories@, name@) is Some,
    {
        contains_name(&self.tag_categories, name)
    }

    /// Whether an event is named `name`.
    pub fn is_valid_event(&self, name: &String) -> (r: bool)
        ensures
            r == has_name(self.events@, name@),
            r == find_first(self.events@, name@) is Some,
    {
        contains_name(&self.events, name)
    }

    /// The first event named `name`.
    pub fn get_event(&self, name: &String) -> (r: Option<&Event>)
        ensures
            match r {
                Some(x) => find_first(self.events@, name@) == Some(*x),
                None => find_first(self.events@, name@) is None,
            },
    {
        lookup(&self.events, name)
    }

    /// The first event category named `name`.
    pub fn get_event_category(&self, name: &String) -> (r: Option<&EventCategory>)
        ensures
            match r {
                Some(x) => find_first(self.event_categories@, name@) == Some(*x),
                None => find_first(self.event_categories@, name@) is None,
            },
    {
        lookup(&self.event_categories, name)
    }

    /// Whether an event category is named `name`.
    pub fn is_event_category(&self, name: &String) -> (r: bool)
        ensures
            r == find_first(self.event_categories@, name@) is Some,
    {
        contains_name(&self.event_categories, name)
    }
}

} // verus!
