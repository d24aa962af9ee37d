use vstd::prelude::*;
use vstd::string::StringExecFns;
use crate::path::{element_path, member_path};
use crate::tree::{
    document_of, flatten, flatten_fields, flatten_items, lemma_fields_of, lemma_trees_of,
    JsonNode, JsonTree,
};
use crate::text::{error_message, json_parse, json_quoted, parse_value, quoted};
use crate::value::{JsonifyValue, Leaf};

verus! {

/// A JSON text that could not be parsed, with the parser's diagnostic.
#[derive(Debug, Clone, PartialEq, Eq)]
pub struct ParseError {
    pub message: String,
}

/// No two entries share a path.
pub open spec fn keys_distinct(s: Seq<(String, JsonifyValue)>) -> bool {
    forall|i: int, j: int|
        0 <= i < s.len() && 0 <= j < s.len() && i != j ==> s[i].0@ != s[j].0@
}

/// The map from path to leaf that a sequence of entries holds.
pub open spec fn entries_map(s: Seq<(String, JsonifyValue)>) -> Map<Seq<char>, Leaf> {
    Map::new(
        |k: Seq<char>| exists|i: int| 0 <= i < s.len() && s[i].0@ == k,
        |k: Seq<char>| s[choose|i: int| 0 <= i < s.len() && s[i].0@ == k].1@,
    )
}

proof fn lemma_entry_at(s: Seq<(String, JsonifyValue)>, i: int)
    requires
        keys_distinct(s),
        0 <= i < s.len(),
    ensures
        entries_map(s).contains_key(s[i].0@),
        entries_map(s)[s[i].0@] == s[i].1@,
{
    let k = s[i].0@;
    assert(exists|j: int| 0 <= j < s.len() && s[j].0@ == k);
    let j = choose|j: int| 0 <= j < s.len() && s[j].0@ == k;
    assert(j == i);
}

/// JSON's insignificant whitespace.
pub open spec fn is_json_space(c: char) -> bool {
    c == ' ' || c == '\t' || c == '\n' || c == '\r'
}

/// A text with nothing but whitespace in it, the empty text included.
pub open spec fn is_blank(text: Seq<char>) -> bool {
    forall|i: int| 0 <= i < text.len() ==> is_json_space(#[trigger] text[i])
}

/// The document that a JSON text gives: none for a blank text, the flattened
/// parsed value otherwise, or `None` where the text is not JSON.
pub open spec fn parsed_document(text: Seq<char>) -> Option<Map<Seq<char>, Leaf>> {
    if is_blank(text) {
        Some(Map::empty())
    } else {
        match json_parse(text) {
            Some(t) => Some(document_of(t)),
            None => None,
        }
    }
}

/// The JSON text of a leaf.
pub open spec fn leaf_text(v: Leaf) -> Seq<char> {
    match v {
        Leaf::Str(s) => json_quoted(s),
        Leaf::Number(t) => t,
        Leaf::Bool(b) => if b {
            "true"@
        } else {
            "false"@
        },
        Leaf::Null => "null"@,
    }
}

/// The JSON text of one member `"path":leaf` of the flat object.
pub open spec fn member_text(e: (Seq<char>, Leaf)) -> Seq<char> {
    json_quoted(e.0) + ":"@ + leaf_text(e.1)
}

/// The members of the flat object, separated by commas.
pub open spec fn members_text(s: Seq<(Seq<char>, Leaf)>) -> Seq<char>
    decreases s.len(),
{
    if s.len() == 0 {
        Seq::empty()
    } else if s.len() == 1 {
        member_text(s[0])
    } else {
        members_text(s.drop_last()) + ","@ + member_text(s.last())
    }
}

/// The flat JSON object whose keys are the paths verbatim.
pub open spec fn object_text(s: Seq<(Seq<char>, Leaf)>) -> Seq<char> {
    "{"@ + members_text(s) + "}"@
}

/// Whether the text holds nothing but whitespace.
pub fn blank(text: &str) -> (r: bool)
    ensures
        r == is_blank(text@),
{
    let n = text.unicode_len();
    let mut i: usize = 0;
    while i < n
        invariant
            n == text@.len(),
            i <= n,
            forall|j: int| 0 <= j < i ==> is_json_space(#[trigger] text@[j]),
        decreases n - i,
    {
        let c = text.get_char(i);
        if !(c == ' ' || c == '\t' || c == '\n' || c == '\r') {
            return false;
        }
        i += 1;
    }
    true
}

/// The JSON text of a leaf.
fn leaf_json(v: &JsonifyValue) -> (r: String)
    ensures
        r@ == leaf_text(v@),
{
    match v {
        JsonifyValue::Str(s) => quoted(s.as_str()),
        JsonifyValue::Number(t) => t.clone(),
        JsonifyValue::Bool(b) => if *b {
            String::from_str("true")
        } else {
            String::from_str("false")
        },
        JsonifyValue::Null => String::from_str("null"),
    }
}

/// The element models of an array node.
spec fn trees_of_node(node: &JsonNode) -> Seq<JsonTree> {
    match node@ {
        JsonTree::Array(ts) => ts,
        _ => Seq::empty(),
    }
}

/// The member models of an object node.
spec fn fields_of_node(node: &JsonNode) -> Seq<(Seq<char>, JsonTree)> {
    match node@ {
        JsonTree::Object(fs) => fs,
        _ => Seq::empty(),
    }
}

/// A JSON document held as a flat map from paths to scalar leaves.
#[derive(Debug)]
pub struct Jsonify {
    entries: Vec<(String, JsonifyValue)>,
}

impl View for Jsonify {
    type V = Map<Seq<char>, Leaf>;

    closed spec fn view(&self) -> Map<Seq<char>, Leaf> {
        entries_map(self.entries@)
    }
}

impl Jsonify {
    /// Every stored path is held once.
    pub closed spec fn wf(&self) -> bool {
        keys_distinct(self.entries@)
    }

    /// The stored entries in the order in which they are serialized.
    pub closed spec fn entry_seq(&self) -> Seq<(Seq<char>, Leaf)> {
        self.entries@.map_values(|e: (String, JsonifyValue)| (e.0@, e.1@))
    }

    /// The serialized entries hold each path of the document once, with its leaf.
    pub proof fn lemma_entry_seq(&self)
        requires
            self.wf(),
        ensures
            forall|i: int, j: int|
                0 <= i < self.entry_seq().len() && 0 <= j < self.entry_seq().len() && i != j
                    ==> self.entry_seq()[i].0 != self.entry_seq()[j].0,
            forall|k: Seq<char>|
                #[trigger] self@.contains_key(k) <==> exists|i: int|
                    0 <= i < self.entry_seq().len() && self.entry_seq()[i].0 == k,
            forall|i: int|
                0 <= i < self.entry_seq().len() ==> self@[#[trigger] self.entry_seq()[i].0]
                    == self.entry_seq()[i].1,
    {
        assert forall|i: int| 0 <= i < self.entry_seq().len() implies self@[
            #[trigger] self.entry_seq()[i].0] == self.entry_seq()[i].1 by {
            lemma_entry_at(self.entries@, i);
        }
        assert forall|k: Seq<char>| #[trigger] self@.contains_key(k) implies exists|i: int|
            0 <= i < self.entry_seq().len() && self.entry_seq()[i].0 == k by {
            let i = choose|i: int| 0 <= i < self.entries@.len() && self.entries@[i].0@ == k;
            assert(self.entry_seq()[i].0 == k);
        }
    }

    /// A document with no entry.
    pub fn empty() -> (r: Jsonify)
        ensures
            r.wf(),
            r@ == Map::<Seq<char>, Leaf>::empty(),
    {
        let r = Jsonify { entries: Vec::new() };
        assert(r@ =~= Map::<Seq<char>, Leaf>::empty());
        r
    }

    /// The position of the entry at `key`, if there is one.
    fn find(&self, key: &str) -> (r: Option<usize>)
        requires
            self.wf(),
        ensures
            match r {
                Some(i) => i < self.entries@.len() && self.entries@[i as int].0@ == key@,
                None => !self@.contains_key(key@),
            },
    {
        let k = String::from_str(key);
        let mut i: usize = 0;
        while i < self.entries.len()
            invariant
                i <= self.entries@.len(),
                k@ == key@,
                forall|j: int| 0 <= j < i ==> self.entries@[j].0@ != key@,
            decreases self.entries@.len() - i,
        {
            if self.entries[i].0 == k {
                return Some(i);
            }
            i += 1;
        }
        None
    }

    /// The leaf stored at exactly `key`.
    pub fn get_value(&self, key: &str) -> (r: Option<JsonifyValue>)
        requires
            self.wf(),
        ensures
            match r {
                Some(v) => self@.contains_key(key@) && v@ == self@[key@],
                None => !self@.contains_key(key@),
            },
    {
        match self.find(key) {
            Some(i) => {
                proof {
                    lemma_entry_at(self.entries@, i as int);
                }
                Some(self.entries[i].1.copy_value())
            },
            None => None,
        }
    }

    /// Whether a leaf is stored at exactly `key`.
    pub fn has_key(&self, key: &str) -> (r: bool)
        requires
            self.wf(),
        ensures
            r == self@.contains_key(key@),
    {
        match self.find(key) {
            Some(i) => {
                proof {
                    lemma_entry_at(self.entries@, i as int);
                }
                true
            },
            None => false,
        }
    }

    /// Puts `value` in place of the leaf at position `i`.
    fn set_at(&mut self, i: usize, value: JsonifyValue)
        requires
            old(self).wf(),
            i < old(self).entries@.len(),
        ensures
            final(self).wf(),
            final(self)@ == old(self)@.insert(old(self).entries@[i as int].0@, value@),
    {
        let ghost k = self.entries@[i as int].0@;
        let key = self.entries[i].0.clone();
        self.entries.set(i, (key, value));
        proof {
            let s0 = old(self).entries@;
            let s1 = self.entries@;
            assert forall|j: int| 0 <= j < s1.len() implies s1[j].0@ == s0[j].0@ by {}
            lemma_entry_at(s1, i as int);
            assert forall|q: Seq<char>| #[trigger] self@.contains_key(q) == old(self)@.insert(k, value@).contains_key(q) by {
                if old(self)@.contains_key(q) {
                    let j = choose|j: int| 0 <= j < s0.len() && s0[j].0@ == q;
                    assert(s1[j].0@ == q);
                }
                if self@.contains_key(q) {
                    let j = choose|j: int| 0 <= j < s1.len() && s1[j].0@ == q;
                    assert(s0[j].0@ == q);
                }
            }
            assert forall|q: Seq<char>| #[trigger] self@.contains_key(q) implies self@[q] == old(self)@.insert(k, value@)[q] by {
                let j = choose|j: int| 0 <= j < s1.len() && s1[j].0@ == q;
                lemma_entry_at(s1, j);
                if q != k {
                    lemma_entry_at(s0, j);
                }
            }
            assert(self@ =~= old(self)@.insert(k, value@));
        }
    }

    /// Swaps the leaf at `key` for `new_value` if `key` is stored; never inserts.
    /// Returns whether `key` was stored.
    pub fn replace(&mut self, key: &str, new_value: JsonifyValue) -> (r: bool)
        requires
            old(self).wf(),
        ensures
            final(self).wf(),
            r == old(self)@.contains_key(key@),
            r ==> final(self)@ == old(self)@.insert(key@, new_value@),
            !r ==> final(self)@ == old(self)@,
    {
        match self.find(key) {
            Some(i) => {
                proof {
                    lemma_entry_at(self.entries@, i as int);
                }
                self.set_at(i, new_value);
                true
            },
            None => false,
        }
    }

    /// Stores `value` at `key`, inserting the path or overwriting its leaf.
    pub fn add_to_json(&mut self, key: &str, value: JsonifyValue)
        requires
            old(self).wf(),
        ensures
            final(self).wf(),
            final(self)@ == old(self)@.insert(key@, value@),
    {
        match self.find(key) {
            Some(i) => {
                self.set_at(i, value);
            },
            None => {
                let ghost v = value@;
                self.entries.push((String::from_str(key), value));
                proof {
                    let s0 = old(self).entries@;
                    let s1 = self.entries@;
                    let n = s0.len() as int;
                    assert(s1[n].0@ == key@);
                    assert forall|j: int| 0 <= j < n implies s0[j].0@ != key@ by {
                        if s0[j].0@ == key@ {
                            assert(old(self)@.contains_key(key@));
                        }
                    }
                    assert(keys_distinct(s1));
                    lemma_entry_at(s1, n);
                    assert forall|q: Seq<char>| #[trigger] self@.contains_key(q) == old(self)@.insert(key@, v).contains_key(q) by {
                        if old(self)@.contains_key(q) {
                            let j = choose|j: int| 0 <= j < s0.len() && s0[j].0@ == q;
                            assert(s1[j].0@ == q);
                        }
                        if self@.contains_key(q) && q != key@ {
                            let j = choose|j: int| 0 <= j < s1.len() && s1[j].0@ == q;
                            assert(s0[j].0@ == q);
                        }
                    }
                    assert forall|q: Seq<char>| #[trigger] self@.contains_key(q) implies self@[q] == old(self)@.insert(key@, v)[q] by {
                        let j = choose|j: int| 0 <= j < s1.len() && s1[j].0@ == q;
                        lemma_entry_at(s1, j);
                        if q != key@ {
                            lemma_entry_at(s0, j);
                        }
                    }
                    assert(self@ =~= old(self)@.insert(key@, v));
                }
            },
        }
    }

    /// Removes the entry at `key`; returns whether there was one.
    pub fn remove_from_json(&mut self, key: &str) -> (r: bool)
        requires
            old(self).wf(),
        ensures
            final(self).wf(),
            r == old(self)@.contains_key(key@),
            final(self)@ == old(self)@.remove(key@),
    {
        match self.find(key) {
            Some(i) => {
                proof {
                    lemma_entry_at(self.entries@, i as int);
                }
                self.entries.remove(i);
                proof {
                    let s0 = old(self).entries@;
                    let s1 = self.entries@;
                    assert(s1 =~= s0.remove(i as int));
                    assert(keys_distinct(s1)) by {
                        assert forall|a: int, b: int|
                            0 <= a < s1.len() && 0 <= b < s1.len() && a != b implies s1[a].0@ != s1[b].0@ by {
                            let a0 = if a < i { a } else { a + 1 };
                            let b0 = if b < i { b } else { b + 1 };
                            assert(s1[a] == s0[a0]);
                            assert(s1[b] == s0[b0]);
                        }
                    }
                    assert forall|q: Seq<char>| #[trigger] self@.contains_key(q) == old(self)@.remove(key@).contains_key(q) by {
                        if old(self)@.contains_key(q) && q != key@ {
                            let j = choose|j: int| 0 <= j < s0.len() && s0[j].0@ == q;
                            let j1 = if j < i { j } else { j - 1 };
                            assert(s1[j1] == s0[j]);
                        }
                        if self@.contains_key(q) {
                            let j = choose|j: int| 0 <= j < s1.len() && s1[j].0@ == q;
                            let j0 = if j < i { j } else { j + 1 };
                            assert(s1[j] == s0[j0]);
                        }
                    }
                    assert forall|q: Seq<char>| #[trigger] self@.contains_key(q) implies self@[q] == old(self)@.remove(key@)[q] by {
                        let j = choose|j: int| 0 <= j < s1.len() && s1[j].0@ == q;
                        let j0 = if j < i { j } else { j + 1 };
                        assert(s1[j] == s0[j0]);
                        lemma_entry_at(s1, j);
                        lemma_entry_at(s0, j0);
                    }
                    assert(self@ =~= old(self)@.remove(key@));
                }
                true
            },
            None => {
                assert(self@ =~= old(self)@.remove(key@));
                false
            },
        }
    }

    /// Records every scalar of `node`, keyed by its path below `prefix`,
    /// overwriting what was stored at the same path.
    fn flatten_into(&mut self, node: &JsonNode, prefix: &str)
        requires
            old(self).wf(),
        ensures
            final(self).wf(),
            final(self)@ == old(self)@.union_prefer_right(flatten(node@, prefix@)),
        decreases node@,
    {
        match node {
            JsonNode::Scalar(v) => {
                self.add_to_json(prefix, v.copy_value());
                assert(self@ =~= old(self)@.union_prefer_right(flatten(node@, prefix@)));
            },
            JsonNode::Array(items) => {
                let ghost ts = trees_of_node(node);
                proof {
                    lemma_trees_of(items@, items@.len());
                    assert(node@ == JsonTree::Array(ts));
                }
                let mut i: usize = 0;
                while i < items.len()
                    invariant
                        self.wf(),
                        i <= items@.len(),
                        node@ == JsonTree::Array(ts),
                        ts.len() == items@.len(),
                        forall|j: int| 0 <= j < items@.len() ==> #[trigger] ts[j] == items@[j]@,
                        self@ == old(self)@.union_prefer_right(flatten_items(ts, prefix@, i as nat)),
                    decreases items@.len() - i,
                {
                    let p = element_path(prefix, i);
                    proof {
                        assert(decreases_to!(node@ => node@->Array_0));
                        assert(decreases_to!(ts => ts[i as int]));
                    }
                    self.flatten_into(&items[i], p.as_str());
                    assert(self@ =~= old(self)@.union_prefer_right(
                        flatten_items(ts, prefix@, (i + 1) as nat),
                    ));
                    i += 1;
                }
            },
            JsonNode::Object(fields) => {
                let ghost fs = fields_of_node(node);
                proof {
                    lemma_fields_of(fields@, fields@.len());
                    assert(node@ == JsonTree::Object(fs));
                }
                let mut i: usize = 0;
                while i < fields.len()
                    invariant
                        self.wf(),
                        i <= fields@.len(),
                        node@ == JsonTree::Object(fs),
                        fs.len() == fields@.len(),
                        forall|j: int|
                            0 <= j < fields@.len() ==> #[trigger] fs[j] == (
                            fields@[j].0@,
                            fields@[j].1@,
                        ),
                        self@ == old(self)@.union_prefer_right(flatten_fields(fs, prefix@, i as nat)),
                    decreases fields@.len() - i,
                {
                    let p = member_path(prefix, fields[i].0.as_str());
                    proof {
                        let f = fs[i as int];
                        assert(decreases_to!(node@ => node@->Object_0));
                        assert(decreases_to!(fs => fs[i as int]));
                        assert(decreases_to!(f => f.1));
                    }
                    self.flatten_into(&fields[i].1, p.as_str());
                    assert(self@ =~= old(self)@.union_prefer_right(
                        flatten_fields(fs, prefix@, (i + 1) as nat),
                    ));
                    i += 1;
                }
            },
        }
    }

    /// The document that flattening a parsed value gives.
    pub fn from_node(node: &JsonNode) -> (r: Jsonify)
        ensures
            r.wf(),
            r@ == document_of(node@),
    {
        let mut d = Jsonify::empty();
        d.merge_node(node);
        assert(d@ =~= document_of(node@));
        d
    }

    /// Upserts every entry of the document of `node`: paths that `node` does
    /// not hold keep their leaves.
    pub fn merge_node(&mut self, node: &JsonNode)
        requires
            old(self).wf(),
        ensures
            final(self).wf(),
            final(self)@ == old(self)@.union_prefer_right(document_of(node@)),
    {
        let top_null = match node {
            JsonNode::Scalar(JsonifyValue::Null) => true,
            _ => false,
        };
        if top_null {
            assert(node@ == JsonTree::Scalar(Leaf::Null));
            assert(self@ =~= old(self)@.union_prefer_right(document_of(node@)));
        } else {
            proof {
                reveal_strlit("");
                assert(""@ =~= Seq::<char>::empty());
            }
            self.flatten_into(node, "");
            assert(node@ != JsonTree::Scalar(Leaf::Null)) by {
                match node {
                    JsonNode::Scalar(v) => {},
                    JsonNode::Array(_) => {},
                    JsonNode::Object(_) => {},
                }
            }
        }
    }

    /// All stored paths, each once, in no promised order.
    pub fn get_keys(&self) -> (r: Vec<String>)
        requires
            self.wf(),
        ensures
            forall|k: Seq<char>|
                #[trigger] self@.contains_key(k) <==> exists|i: int| 0 <= i < r@.len() && r@[i]@ == k,
            forall|i: int, j: int| 0 <= i < r@.len() && 0 <= j < r@.len() && i != j ==> r@[i]@ != r@[j]@,
    {
        let mut r: Vec<String> = Vec::new();
        let mut i: usize = 0;
        while i < self.entries.len()
            invariant
                self.wf(),
                i <= self.entries@.len(),
                r@.len() == i,
                forall|j: int| 0 <= j < i ==> #[trigger] r@[j]@ == self.entries@[j].0@,
            decreases self.entries@.len() - i,
        {
            r.push(self.entries[i].0.clone());
            i += 1;
        }
        proof {
            assert forall|k: Seq<char>| #[trigger] self@.contains_key(k) implies exists|i: int| 0 <= i < r@.len() && r@[i]@ == k by {
                let j = choose|j: int| 0 <= j < self.entries@.len() && self.entries@[j].0@ == k;
                assert(r@[j]@ == k);
            }
            assert forall|k: Seq<char>| (exists|i: int| 0 <= i < r@.len() && r@[i]@ == k) implies #[trigger] self@.contains_key(k) by {
                let j = choose|j: int| 0 <= j < r@.len() && r@[j]@ == k;
                assert(self.entries@[j].0@ == k);
            }
        }
        r
    }

    /// Parses `json` and flattens it into a new document. A blank text or a
    /// top-level `null` gives an empty document; a text that is not JSON gives
    /// the parser's error.
    pub fn new(json: &str) -> (r: Result<Jsonify, ParseError>)
        ensures
            match r {
                Ok(d) => d.wf() && parsed_document(json@) == Some(d@),
                Err(_) => parsed_document(json@) is None,
            },
    {
        let mut d = Jsonify::empty();
        match d.merge_json(json) {
            Ok(()) => {
                assert(d@ =~= parsed_document(json@)->Some_0);
                Ok(d)
            },
            Err(e) => Err(e),
        }
    }

    /// Parses `other_json` and upserts each of its entries, later paths
    /// overwriting stored ones; other paths keep their leaves. On a parse
    /// error the document is left as it was.
    pub fn merge_json(&mut self, other_json: &str) -> (r: Result<(), ParseError>)
        requires
            old(self).wf(),
        ensures
            final(self).wf(),
            match r {
                Ok(()) => parsed_document(other_json@) is Some && final(self)@ == old(self)@.union_prefer_right(
                    parsed_document(other_json@)->Some_0,
                ),
                Err(_) => parsed_document(other_json@) is None && final(self)@ == old(self)@,
            },
    {
        if blank(other_json) {
            assert(self@ =~= old(self)@.union_prefer_right(Map::empty()));
            return Ok(());
        }
        match parse_value(other_json) {
            Ok(node) => {
                self.merge_node(&node);
                Ok(())
            },
            Err(e) => Err(ParseError { message: error_message(&e) }),
        }
    }

    /// The flat JSON object whose keys are the stored paths verbatim and
    /// whose values are their leaves.
    pub fn to_json(&self) -> (r: String)
        requires
            self.wf(),
        ensures
            r@ == object_text(self.entry_seq()),
    {
        let ghost es = self.entry_seq();
        let mut out = String::from_str("{");
        let mut i: usize = 0;
        while i < self.entries.len()
            invariant
                es == self.entry_seq(),
                i <= self.entries@.len(),
                out@ == "{"@ + members_text(es.take(i as int)),
            decreases self.entries@.len() - i,
        {
            if i > 0 {
                out.append(",");
            }
            let k = quoted(self.entries[i].0.as_str());
            out.append(k.as_str());
            out.append(":");
            let v = leaf_json(&self.entries[i].1);
            out.append(v.as_str());
            proof {
                let t = es.take(i + 1);
                assert(t.drop_last() =~= es.take(i as int));
                assert(t.last() == es[i as int]);
                if i == 0 {
                    assert(es.take(0) =~= Seq::<(Seq<char>, Leaf)>::empty());
                }
            }
            assert(out@ =~= "{"@ + members_text(es.take(i + 1)));
            i += 1;
        }
        out.append("}");
        assert(es.take(i as int) =~= es);
        out
    }
}

} // verus!
