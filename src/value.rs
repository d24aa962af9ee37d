use vstd::prelude::*;

verus! {

/// The mathematical model of a scalar leaf: numbers are kept as their JSON text.
pub enum Leaf {
    Str(Seq<char>),
    Number(Seq<char>),
    Bool(bool),
    Null,
}

/// A scalar JSON value stored at a path of a document.
///
/// A number is held as its JSON text (as the parser printed it), so that no
/// floating-point value is ever stored.
#[derive(Debug, Clone, PartialEq, Eq)]
pub enum JsonifyValue {
    Str(String),
    Number(String),
    Bool(bool),
    Null,
}

impl View for JsonifyValue {
    type V = Leaf;

    open spec fn view(&self) -> Leaf {
        match self {
            JsonifyValue::Str(s) => Leaf::Str(s@),
            JsonifyValue::Number(n) => Leaf::Number(n@),
            JsonifyValue::Bool(b) => Leaf::Bool(*b),
            JsonifyValue::Null => Leaf::Null,
        }
    }
}

/// The type tag of a leaf.
pub open spec fn kind_name(v: Leaf) -> Seq<char> {
    match v {
        Leaf::Str(_) => "String"@,
        Leaf::Number(_) => "Number"@,
        Leaf::Bool(_) => "Bool"@,
        Leaf::Null => "Null"@,
    }
}

impl JsonifyValue {
    /// A copy of this value with the same model.
    pub fn copy_value(&self) -> (r: JsonifyValue)
        ensures
            r@ == self@,
    {
        match self {
            JsonifyValue::Str(s) => JsonifyValue::Str(s.clone()),
            JsonifyValue::Number(n) => JsonifyValue::Number(n.clone()),
            JsonifyValue::Bool(b) => JsonifyValue::Bool(*b),
            JsonifyValue::Null => JsonifyValue::Null,
        }
    }

    /// The name of this value's scalar kind: "String", "Number", "Bool" or "Null".
    pub fn value_type(&self) -> (r: &'static str)
        ensures
            r@ == kind_name(self@),
    {
        match self {
            JsonifyValue::Str(_) => "String",
            JsonifyValue::Number(_) => "Number",
            JsonifyValue::Bool(_) => "Bool",
            JsonifyValue::Null => "Null",
        }
    }
}

} // verus!
