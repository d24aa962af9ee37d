use vstd::prelude::*;
use crate::document::{parsed_document, Jsonify};
use crate::path::{child_path, decimal, digit_char, index_path};
use crate::tree::{document_of, flatten, flatten_fields, flatten_items, JsonTree};
use crate::value::Leaf;
use vstd::set_lib::lemma_set_disjoint_lens;

verus! {

/// Merging overwrites: after `d.merge_json(text)` succeeds, every path that
/// `text` holds carries the leaf that `text` gives it, whatever `d` held there.
pub proof fn merge_overwrites(d: Jsonify, text: Seq<char>, k: Seq<char>)
    requires
        parsed_document(text) is Some,
        parsed_document(text)->Some_0.contains_key(k),
    ensures
        d@.union_prefer_right(parsed_document(text)->Some_0).contains_key(k),
        d@.union_prefer_right(parsed_document(text)->Some_0)[k] == parsed_document(text)->Some_0[k],
{
}

/// Merging is a union: after `d.merge_json(text)` succeeds, every path of `d`
/// that `text` does not hold keeps its leaf, and the paths are those of both.
pub proof fn merge_keeps_others(d: Jsonify, text: Seq<char>, k: Seq<char>)
    requires
        parsed_document(text) is Some,
    ensures
        d@.union_prefer_right(parsed_document(text)->Some_0).contains_key(k) <==> (d@.contains_key(k)
            || parsed_document(text)->Some_0.contains_key(k)),
        d@.contains_key(k) && !parsed_document(text)->Some_0.contains_key(k) ==> d@.union_prefer_right(
            parsed_document(text)->Some_0,
        )[k] == d@[k],
{
}

/// Removal is idempotent on absence: after `d.remove_from_json(k)`, a second
/// `remove_from_json(k)` finds nothing, returns false and changes nothing.
pub proof fn remove_twice(d: Jsonify, k: Seq<char>)
    ensures
        !d@.remove(k).contains_key(k),
        d@.remove(k).remove(k) == d@.remove(k),
{
    assert(d@.remove(k).remove(k) =~= d@.remove(k));
}

/// Replacing never inserts: where `replace(k, v)` succeeds, `k` was stored
/// already, so the set of paths stays as it was (where it fails, `replace`
/// leaves the document unchanged).
pub proof fn replace_keeps_paths(d: Jsonify, k: Seq<char>, v: Leaf)
    ensures
        d@.contains_key(k) ==> d@.insert(k, v).dom() == d@.dom(),
{
    if d@.contains_key(k) {
        assert(d@.insert(k, v).dom() =~= d@.dom());
    }
}


/// A character that the path grammar gives a meaning.
pub open spec fn is_path_sep(c: char) -> bool {
    c == '.' || c == '[' || c == ']'
}

/// An object key that a path can hold unambiguously: nonempty and free of
/// `.`, `[` and `]`.
pub open spec fn plain_key(k: Seq<char>) -> bool {
    k.len() > 0 && forall|i: int| 0 <= i < k.len() ==> !is_path_sep(#[trigger] k[i])
}

/// Every object key in the tree is plain, and keys within one object differ.
pub open spec fn well_keyed(t: JsonTree) -> bool
    decreases t,
{
    match t {
        JsonTree::Scalar(_) => true,
        JsonTree::Array(items) => forall|i: int| 0 <= i < items.len() ==> well_keyed(#[trigger] items[i]),
        JsonTree::Object(fields) => (forall|i: int|
            0 <= i < fields.len() ==> plain_key(#[trigger] fields[i].0) && well_keyed(fields[i].1))
            && (forall|i: int, j: int|
            0 <= i < fields.len() && 0 <= j < fields.len() && i != j ==> fields[i].0 != fields[j].0),
    }
}

/// The number of scalars (leaves) in a tree.
pub open spec fn leaf_count(t: JsonTree) -> nat
    decreases t, 0nat,
{
    match t {
        JsonTree::Scalar(_) => 1,
        JsonTree::Array(items) => items_leaf_count(items, items.len()),
        JsonTree::Object(fields) => fields_leaf_count(fields, fields.len()),
    }
}

/// The number of scalars in the first `n` elements.
pub open spec fn items_leaf_count(items: Seq<JsonTree>, n: nat) -> nat
    decreases items, n,
{
    if n == 0 || n > items.len() {
        0
    } else {
        items_leaf_count(items, (n - 1) as nat) + leaf_count(items[n - 1])
    }
}

/// The number of scalars in the first `n` members.
pub open spec fn fields_leaf_count(fields: Seq<(Seq<char>, JsonTree)>, n: nat) -> nat
    decreases fields, n,
{
    if n == 0 || n > fields.len() {
        0
    } else {
        fields_leaf_count(fields, (n - 1) as nat) + leaf_count(fields[n - 1].1)
    }
}

/// `q` lies at or below the path `c`: it starts with `c`, and where it goes
/// on, the next character opens a member or an element.
pub open spec fn below(q: Seq<char>, c: Seq<char>) -> bool {
    c.len() == 0 || (c.len() <= q.len() && (forall|i: int| 0 <= i < c.len() ==> q[i] == c[i]) && (
    q.len() == c.len() || q[c.len() as int] == '.' || q[c.len() as int] == '['))
}

proof fn lemma_decimal_chars(n: nat)
    ensures
        decimal(n).len() >= 1,
        forall|i: int| 0 <= i < decimal(n).len() ==> !is_path_sep(#[trigger] decimal(n)[i]),
    decreases n,
{
    if n >= 10 {
        lemma_decimal_chars(n / 10);
    }
}

proof fn lemma_decimal_injective(m: nat, n: nat)
    requires
        decimal(m) == decimal(n),
    ensures
        m == n,
    decreases m,
{
    lemma_decimal_chars(m);
    lemma_decimal_chars(n);
    if m >= 10 && n >= 10 {
        assert(decimal(m).last() == digit_char(m % 10));
        assert(decimal(n).last() == digit_char(n % 10));
        assert(decimal(m / 10) =~= decimal(m).drop_last());
        assert(decimal(n / 10) =~= decimal(n).drop_last());
        lemma_decimal_injective(m / 10, n / 10);
    } else if m >= 10 {
        lemma_decimal_chars(m / 10);
    } else if n >= 10 {
        lemma_decimal_chars(n / 10);
    } else {
        assert(decimal(m)[0] == digit_char(m));
        assert(decimal(n)[0] == digit_char(n));
    }
}

proof fn lemma_elements_apart(c: Seq<char>, i: nat, j: nat, q: Seq<char>)
    requires
        i != j,
    ensures
        !(below(q, index_path(c, i)) && below(q, index_path(c, j))),
{
    if !(below(q, index_path(c, i)) && below(q, index_path(c, j))) {
        return;
    }
    let a = decimal(i);
    let b = decimal(j);
    lemma_decimal_chars(i);
    lemma_decimal_chars(j);
    let pi = index_path(c, i);
    let pj = index_path(c, j);
    let o: int = c.len() as int + 1;
    assert forall|x: int| 0 <= x < a.len() implies q[o + x] == a[x] by {
        assert(pi[o + x] == a[x]);
    }
    assert forall|x: int| 0 <= x < b.len() implies q[o + x] == b[x] by {
        assert(pj[o + x] == b[x]);
    }
    assert(pi[o + a.len() as int] == ']');
    assert(pj[o + b.len() as int] == ']');
    if a.len() < b.len() {
        assert(q[o + a.len() as int] == b[a.len() as int]);
    } else if b.len() < a.len() {
        assert(q[o + b.len() as int] == a[b.len() as int]);
    } else {
        assert(a =~= b);
        lemma_decimal_injective(i, j);
    }
}

proof fn lemma_members_apart(c: Seq<char>, k1: Seq<char>, k2: Seq<char>, q: Seq<char>)
    requires
        plain_key(k1),
        plain_key(k2),
        k1 != k2,
    ensures
        !(below(q, child_path(c, k1)) && below(q, child_path(c, k2))),
{
    if !(below(q, child_path(c, k1)) && below(q, child_path(c, k2))) {
        return;
    }
    let o: int = if c.len() == 0 { 0 } else { c.len() as int + 1 };
    let p1 = child_path(c, k1);
    let p2 = child_path(c, k2);
    assert(p1.len() == o + k1.len());
    assert(p2.len() == o + k2.len());
    assert forall|x: int| 0 <= x < k1.len() implies q[o + x] == k1[x] by {
        assert(p1[o + x] == k1[x]);
    }
    assert forall|x: int| 0 <= x < k2.len() implies q[o + x] == k2[x] by {
        assert(p2[o + x] == k2[x]);
    }
    if k1.len() < k2.len() {
        assert(q[o + k1.len()] == k2[k1.len() as int]);
    } else if k2.len() < k1.len() {
        assert(q[o + k2.len()] == k1[k2.len() as int]);
    } else {
        assert(k1 =~= k2);
    }
}

proof fn lemma_below_child(q: Seq<char>, c: Seq<char>, k: Seq<char>)
    requires
        below(q, child_path(c, k)),
        k.len() > 0,
    ensures
        below(q, c),
{
    if c.len() > 0 {
        let p = child_path(c, k);
        assert(p[c.len() as int] == '.');
        assert forall|i: int| 0 <= i < c.len() implies q[i] == c[i] by {
            assert(p[i] == c[i]);
        }
    }
}

proof fn lemma_below_element(q: Seq<char>, c: Seq<char>, i: nat)
    requires
        below(q, index_path(c, i)),
    ensures
        below(q, c),
{
    let p = index_path(c, i);
    lemma_decimal_chars(i);
    assert(p[c.len() as int] == '[');
    assert forall|x: int| 0 <= x < c.len() implies q[x] == c[x] by {
        assert(p[x] == c[x]);
    }
}

proof fn lemma_flatten_shape(t: JsonTree, c: Seq<char>)
    requires
        well_keyed(t),
    ensures
        flatten(t, c).dom().finite(),
        flatten(t, c).dom().len() == leaf_count(t),
        forall|q: Seq<char>| #[trigger] flatten(t, c).contains_key(q) ==> below(q, c),
    decreases t, 0nat,
{
    match t {
        JsonTree::Scalar(v) => {
            assert(flatten(t, c).dom() =~= Set::empty().insert(c));
        },
        JsonTree::Array(items) => {
            lemma_items_shape(items, c, items.len());
            assert forall|q: Seq<char>| #[trigger] flatten(t, c).contains_key(q) implies below(q, c) by {
                let j = choose|j: int|
                    0 <= j < items.len() && flatten(items[j], index_path(c, j as nat)).contains_key(q);
                lemma_flatten_shape(items[j], index_path(c, j as nat));
                lemma_below_element(q, c, j as nat);
            }
        },
        JsonTree::Object(fields) => {
            lemma_fields_shape(fields, c, fields.len());
            assert forall|q: Seq<char>| #[trigger] flatten(t, c).contains_key(q) implies below(q, c) by {
                let j = choose|j: int|
                    0 <= j < fields.len() && flatten(fields[j].1, child_path(c, fields[j].0)).contains_key(q);
                lemma_flatten_shape(fields[j].1, child_path(c, fields[j].0));
                lemma_below_child(q, c, fields[j].0);
            }
        },
    }
}

proof fn lemma_items_shape(items: Seq<JsonTree>, c: Seq<char>, n: nat)
    requires
        n <= items.len(),
        forall|i: int| 0 <= i < items.len() ==> well_keyed(#[trigger] items[i]),
    ensures
        flatten_items(items, c, n).dom().finite(),
        flatten_items(items, c, n).dom().len() == items_leaf_count(items, n),
        forall|q: Seq<char>| #[trigger] flatten_items(items, c, n).contains_key(q) ==> exists|j: int|
            0 <= j < n && flatten(items[j], index_path(c, j as nat)).contains_key(q),
    decreases items, n,
{
    if n == 0 {
        assert(flatten_items(items, c, n).dom() =~= Set::<Seq<char>>::empty());
    } else {
        let m = (n - 1) as nat;
        let before = flatten_items(items, c, m);
        let last = flatten(items[m as int], index_path(c, m));
        lemma_items_shape(items, c, m);
        lemma_flatten_shape(items[m as int], index_path(c, m));
        assert(before.dom().disjoint(last.dom())) by {
            assert forall|q: Seq<char>| before.dom().contains(q) && last.dom().contains(q) implies false by {
                assert(before.contains_key(q));
                let j = choose|j: int|
                    0 <= j < m && flatten(items[j], index_path(c, j as nat)).contains_key(q);
                lemma_flatten_shape(items[j], index_path(c, j as nat));
                lemma_elements_apart(c, j as nat, m, q);
            }
        }
        assert(flatten_items(items, c, n).dom() =~= before.dom() + last.dom());
        lemma_set_disjoint_lens(before.dom(), last.dom());
        assert forall|q: Seq<char>| #[trigger] flatten_items(items, c, n).contains_key(q) implies exists|j: int|
            0 <= j < n && flatten(items[j], index_path(c, j as nat)).contains_key(q) by {
            if !last.contains_key(q) {
                assert(before.contains_key(q));
            }
        }
    }
}

proof fn lemma_fields_shape(fields: Seq<(Seq<char>, JsonTree)>, c: Seq<char>, n: nat)
    requires
        n <= fields.len(),
        forall|i: int|
            0 <= i < fields.len() ==> plain_key(#[trigger] fields[i].0) && well_keyed(fields[i].1),
        forall|i: int, j: int|
            0 <= i < fields.len() && 0 <= j < fields.len() && i != j ==> fields[i].0 != fields[j].0,
    ensures
        flatten_fields(fields, c, n).dom().finite(),
        flatten_fields(fields, c, n).dom().len() == fields_leaf_count(fields, n),
        forall|q: Seq<char>| #[trigger] flatten_fields(fields, c, n).contains_key(q) ==> exists|j: int|
            0 <= j < n && flatten(fields[j].1, child_path(c, fields[j].0)).contains_key(q),
    decreases fields, n,
{
    if n == 0 {
        assert(flatten_fields(fields, c, n).dom() =~= Set::<Seq<char>>::empty());
    } else {
        let m = (n - 1) as nat;
        let before = flatten_fields(fields, c, m);
        let last = flatten(fields[m as int].1, child_path(c, fields[m as int].0));
        lemma_fields_shape(fields, c, m);
        lemma_flatten_shape(fields[m as int].1, child_path(c, fields[m as int].0));
        assert(before.dom().disjoint(last.dom())) by {
            assert forall|q: Seq<char>| before.dom().contains(q) && last.dom().contains(q) implies false by {
                assert(before.contains_key(q));
                let j = choose|j: int|
                    0 <= j < m && flatten(fields[j].1, child_path(c, fields[j].0)).contains_key(q);
                lemma_flatten_shape(fields[j].1, child_path(c, fields[j].0));
                lemma_members_apart(c, fields[j].0, fields[m as int].0, q);
            }
        }
        assert(flatten_fields(fields, c, n).dom() =~= before.dom() + last.dom());
        lemma_set_disjoint_lens(before.dom(), last.dom());
        assert forall|q: Seq<char>| #[trigger] flatten_fields(fields, c, n).contains_key(q) implies exists|j: int|
            0 <= j < n && flatten(fields[j].1, child_path(c, fields[j].0)).contains_key(q) by {
            if !last.contains_key(q) {
                assert(before.contains_key(q));
            }
        }
    }
}

/// Paths are unique: where every object key is nonempty, free of `.`, `[` and
/// `]`, and distinct within its object, flattening a value gives as many
/// distinct paths as the value has scalars (a top-level `null` gives none).
pub proof fn paths_unique(t: JsonTree)
    requires
        well_keyed(t),
    ensures
        document_of(t).dom().finite(),
        t != JsonTree::Scalar(Leaf::Null) ==> document_of(t).dom().len() == leaf_count(t),
        t == JsonTree::Scalar(Leaf::Null) ==> document_of(t).dom().len() == 0,
{
    lemma_flatten_shape(t, Seq::empty());
    if t == JsonTree::Scalar(Leaf::Null) {
        assert(document_of(t).dom() =~= Set::<Seq<char>>::empty());
    }
}

} // verus!
