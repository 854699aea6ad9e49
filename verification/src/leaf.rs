//! The leaf value model: a tagged scalar stored at a path.  Strings and
//! numbers keep their text as given; numbers are never re-normalised here.

use vstd::prelude::*;

verus! {

/// A scalar value stored at a path.
#[derive(Debug, PartialEq, Eq, Hash)]
pub enum Leaf {
    String(String),
    // kept as its decimal text
    Number(String),
    Boolean(bool),
    Null,
}

/// The mathematical value of a `Leaf`.
pub enum LeafView {
    Str(Seq<char>),
    Num(Seq<char>),
    Bool(bool),
    Null,
}

impl View for Leaf {
    type V = LeafView;

    open spec fn view(&self) -> LeafView {
        match self {
            Leaf::String(s) => LeafView::Str(s@),
            Leaf::Number(s) => LeafView::Num(s@),
            Leaf::Boolean(b) => LeafView::Bool(*b),
            Leaf::Null => LeafView::Null,
        }
    }
}

/// The display text of a leaf: the stored text for strings and numbers, the
/// usual literals for booleans and null.
pub open spec fn leaf_text(l: LeafView) -> Seq<char> {
    match l {
        LeafView::Str(s) => s,
        LeafView::Num(s) => s,
        LeafView::Bool(b) => if b {
            "true"@
        } else {
            "false"@
        },
        LeafView::Null => "null"@,
    }
}

impl Leaf {
    /// The display text of this leaf.
    pub fn to_string(&self) -> (r: String)
        ensures
            r@ == leaf_text(self@),
    {
        match self {
            Leaf::String(s) => s.clone(),
            Leaf::Number(s) => s.clone(),
            Leaf::Boolean(b) => if *b {
                String::from_str("true")
            } else {
                String::from_str("false")
            },
            Leaf::Null => String::from_str("null"),
        }
    }
}

impl Clone for Leaf {
    /// A clone carries the same value.
    fn clone(&self) -> (r: Self)
        ensures
            r == *self,
    {
        match self {
            Leaf::String(s) => Leaf::String(s.clone()),
            Leaf::Number(s) => Leaf::Number(s.clone()),
            Leaf::Boolean(b) => Leaf::Boolean(*b),
            Leaf::Null => Leaf::Null,
        }
    }
}

} // verus!
