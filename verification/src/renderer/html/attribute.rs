//! An attribute of a start tag: a name and a value, each built one
//! character at a time.

use crate::text::push_char;
use vstd::prelude::*;

verus! {

/// A `(name, value)` pair of strings.
#[derive(Debug, Clone, PartialEq, Eq)]
pub struct Attribute {
    name: String,
    value: String,
}

/// What an attribute stands for: its name and its value.
pub struct AttributeView {
    pub name: Seq<char>,
    pub value: Seq<char>,
}

impl View for Attribute {
    type V = AttributeView;

    closed spec fn view(&self) -> AttributeView {
        AttributeView { name: self.name@, value: self.value@ }
    }
}

/// The views of a sequence of attributes, in order.
pub open spec fn attribute_views(attrs: Seq<Attribute>) -> Seq<AttributeView> {
    Seq::new(attrs.len(), |i: int| attrs[i]@)
}

impl Attribute {
    /// An attribute with an empty name and an empty value.
    pub fn new() -> (a: Attribute)
        ensures
            a@.name == Seq::<char>::empty(),
            a@.value == Seq::<char>::empty(),
    {
        Attribute { name: String::new(), value: String::new() }
    }

    /// Appends `c` to the name if `is_name` holds, to the value otherwise.
    pub fn add_char(&mut self, c: char, is_name: bool)
        ensures
            is_name ==> final(self)@.name == old(self)@.name.push(c) && final(self)@.value
                == old(self)@.value,
            !is_name ==> final(self)@.value == old(self)@.value.push(c) && final(self)@.name
                == old(self)@.name,
    {
        if is_name {
            push_char(&mut self.name, c);
        } else {
            push_char(&mut self.value, c);
        }
    }

    /// Whether the name is not empty.
    pub fn has_name(&self) -> (b: bool)
        ensures
            b == (self@.name.len() > 0),
    {
        !self.name.as_str().is_empty()
    }

    /// A copy of the name.
    pub fn name(&self) -> (s: String)
        ensures
            s@ == self@.name,
    {
        self.name.clone()
    }

    /// A copy of the value.
    pub fn value(&self) -> (s: String)
        ensures
            s@ == self@.value,
    {
        self.value.clone()
    }

    /// A copy of the attribute.
    pub fn duplicate(&self) -> (a: Attribute)
        ensures
            a@ == self@,
    {
        Attribute { name: self.name.clone(), value: self.value.clone() }
    }
}

/// A copy of a list of attributes.
pub fn duplicate_attributes(attrs: &Vec<Attribute>) -> (out: Vec<Attribute>)
    ensures
        attribute_views(out@) == attribute_views(attrs@),
{
    let mut out: Vec<Attribute> = Vec::new();
    let mut i: usize = 0;
    while i < attrs.len()
        invariant
            i <= attrs.len(),
            out.len() == i,
            forall|k: int| 0 <= k < i ==> out[k]@ == attrs[k]@,
        decreases attrs.len() - i,
    {
        out.push(attrs[i].duplicate());
        i += 1;
    }
    assert(attribute_views(out@) =~= attribute_views(attrs@));
    out
}

} // verus!
