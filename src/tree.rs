use vstd::prelude::*;
use crate::path::{child_path, index_path};
use crate::value::{JsonifyValue, Leaf};

verus! {

/// The mathematical model of a parsed JSON value.
pub enum JsonTree {
    Scalar(Leaf),
    Array(Seq<JsonTree>),
    Object(Seq<(Seq<char>, JsonTree)>),
}

/// A parsed JSON value: a scalar, an array, or an object with its members in order.
#[derive(Debug, PartialEq, Eq)]
pub enum JsonNode {
    Scalar(JsonifyValue),
    Array(Vec<JsonNode>),
    Object(Vec<(String, JsonNode)>),
}

impl JsonNode {
    pub open spec fn tree(self) -> JsonTree
        decreases self, 0nat,
    {
        match self {
            JsonNode::Scalar(v) => JsonTree::Scalar(v@),
            JsonNode::Array(items) => JsonTree::Array(trees_of(items@, items@.len())),
            JsonNode::Object(fields) => JsonTree::Object(fields_of(fields@, fields@.len())),
        }
    }
}

/// The models of the first `n` elements.
pub open spec fn trees_of(items: Seq<JsonNode>, n: nat) -> Seq<JsonTree>
    decreases items, n,
{
    if n == 0 || n > items.len() {
        Seq::empty()
    } else {
        trees_of(items, (n - 1) as nat).push(items[n - 1].tree())
    }
}

/// The models of the first `n` members.
pub open spec fn fields_of(fields: Seq<(String, JsonNode)>, n: nat) -> Seq<(Seq<char>, JsonTree)>
    decreases fields, n,
{
    if n == 0 || n > fields.len() {
        Seq::empty()
    } else {
        fields_of(fields, (n - 1) as nat).push((fields[n - 1].0@, fields[n - 1].1.tree()))
    }
}

impl View for JsonNode {
    type V = JsonTree;

    open spec fn view(&self) -> JsonTree {
        self.tree()
    }
}

/// The entries that flattening `t` at `prefix` records: one per scalar,
/// keyed by its path; a later entry at the same path replaces an earlier one.
pub open spec fn flatten(t: JsonTree, prefix: Seq<char>) -> Map<Seq<char>, Leaf>
    decreases t, 0nat,
{
    match t {
        JsonTree::Scalar(v) => map![prefix => v],
        JsonTree::Array(items) => flatten_items(items, prefix, items.len()),
        JsonTree::Object(fields) => flatten_fields(fields, prefix, fields.len()),
    }
}

/// Flattening of the first `n` elements of an array at `prefix`, in order.
pub open spec fn flatten_items(items: Seq<JsonTree>, prefix: Seq<char>, n: nat) -> Map<Seq<char>, Leaf>
    decreases items, n,
{
    if n == 0 || n > items.len() {
        Map::empty()
    } else {
        flatten_items(items, prefix, (n - 1) as nat).union_prefer_right(
            flatten(items[n - 1], index_path(prefix, (n - 1) as nat)),
        )
    }
}

/// Flattening of the first `n` members of an object at `prefix`, in order.
pub open spec fn flatten_fields(fields: Seq<(Seq<char>, JsonTree)>, prefix: Seq<char>, n: nat) -> Map<Seq<char>, Leaf>
    decreases fields, n,
{
    if n == 0 || n > fields.len() {
        Map::empty()
    } else {
        flatten_fields(fields, prefix, (n - 1) as nat).union_prefer_right(
            flatten(fields[n - 1].1, child_path(prefix, fields[n - 1].0)),
        )
    }
}

/// The document that a parsed value gives: a top-level `null` gives no entry,
/// anything else is flattened from the empty path.
pub open spec fn document_of(t: JsonTree) -> Map<Seq<char>, Leaf> {
    if t == JsonTree::Scalar(Leaf::Null) {
        Map::empty()
    } else {
        flatten(t, Seq::empty())
    }
}

pub proof fn lemma_trees_of(items: Seq<JsonNode>, n: nat)
    requires
        n <= items.len(),
    ensures
        trees_of(items, n).len() == n,
        forall|i: int| 0 <= i < n ==> #[trigger] trees_of(items, n)[i] == items[i]@,
    decreases n,
{
    if n > 0 {
        lemma_trees_of(items, (n - 1) as nat);
    }
}

pub proof fn lemma_fields_of(fields: Seq<(String, JsonNode)>, n: nat)
    requires
        n <= fields.len(),
    ensures
        fields_of(fields, n).len() == n,
        forall|i: int|
            0 <= i < n ==> #[trigger] fields_of(fields, n)[i] == (fields[i].0@, fields[i].1@),
    decreases n,
{
    if n > 0 {
        lemma_fields_of(fields, (n - 1) as nat);
    }
}

} // verus!
