//! Event values: the data model that adapters and codecs work on.

use crate::text::{compare_text, TextOrder};
use crate::vrl_bridge::{from_vrl, to_vrl, vrl_text};
use vrl::value::Value as VrlValue;
use vstd::prelude::*;

verus! {

/// The value type of `vrl`, which the pipeline's events are made of.
#[verifier::external_type_specification]
#[verifier::external_body]
pub struct ExVrlValue(VrlValue);

/// `<vrl::value::Value as Clone>::clone`: the copy is the same value.
pub assume_specification [<VrlValue as Clone>::clone](value: &VrlValue) -> (r: VrlValue)
    ensures
        r == *value,
;

/// A scalar that is carried along unread: a timestamp or a regular expression.
///
/// Only the conversion from `vrl` values makes one, and `vrl` holds it as a scalar of that sort.
#[derive(Debug, PartialEq, Eq)]
pub struct Opaque {
    pub(crate) scalar: VrlValue,
}

impl Opaque {
    #[verifier::type_invariant]
    pub(crate) open spec fn held_by_vrl(self) -> bool {
        crate::vrl_bridge::vrl_contents(self.scalar) == Tree::Opaque(self.scalar)
    }

    /// The scalar as `vrl` holds it.
    pub closed spec fn view(self) -> VrlValue {
        self.scalar
    }

    /// The same scalar again.
    pub(crate) fn duplicate(&self) -> (r: Opaque)
        ensures
            r@ == self@,
    {
        proof {
            use_type_invariant(self);
        }
        Opaque { scalar: self.scalar.clone() }
    }
}

/// A floating-point number, held as the text it prints as.
///
/// Only the conversion from `vrl` values makes one, so the text is one that `vrl` prints.
#[derive(Debug, PartialEq, Eq)]
pub struct Float {
    pub(crate) text: String,
}

impl Float {
    #[verifier::type_invariant]
    pub(crate) open spec fn printed_by_vrl(self) -> bool {
        crate::vrl_bridge::prints_float(self.text@)
    }

    /// The number's printed form.
    pub closed spec fn view(self) -> Seq<char> {
        self.text@
    }

    /// The number's printed form.
    pub fn text(&self) -> (r: &str)
        ensures
            r@ == self@,
    {
        self.text.as_str()
    }

    /// The same number again.
    pub(crate) fn duplicate(&self) -> (r: Float)
        ensures
            r@ == self@,
    {
        proof {
            use_type_invariant(self);
        }
        Float { text: self.text.clone() }
    }
}

/// A value of an event: a scalar, or an object or array of further values.
#[derive(Debug, PartialEq, Eq)]
pub enum Value {
    Bytes(Vec<u8>),
    Integer(i64),
    Float(Float),
    Boolean(bool),
    Opaque(Opaque),
    Object(ObjectMap),
    Array(Vec<Value>),
    Null,
}

/// The fields of an object value, each key once, in key order.
#[derive(Debug, PartialEq, Eq)]
pub struct ObjectMap {
    pub(crate) entries: Vec<(String, Value)>,
}

/// What a [`Value`] is, with objects as maps and arrays as sequences.
#[verifier::ext_equal]
pub enum Tree {
    Bytes(Seq<u8>),
    Integer(i64),
    Float(Seq<char>),
    Boolean(bool),
    Opaque(VrlValue),
    Object(Map<Seq<char>, Tree>),
    Array(Seq<Tree>),
    Null,
}

impl Tree {
    /// The field `key` of an object; nothing where this is no object or lacks the key.
    pub open spec fn field(self, key: Seq<char>) -> Option<Tree> {
        match self {
            Tree::Object(fields) => if fields.dom().contains(key) {
                Some(fields[key])
            } else {
                None
            },
            _ => None,
        }
    }

    /// The items of an array; nothing where this is no array.
    pub open spec fn items(self) -> Option<Seq<Tree>> {
        match self {
            Tree::Array(items) => Some(items),
            _ => None,
        }
    }

    /// The text of a byte string; nothing where this is none.
    pub open spec fn as_text(self) -> Option<Seq<char>> {
        match self {
            Tree::Bytes(bytes) => Some(crate::vrl_bridge::shown_text(bytes)),
            _ => None,
        }
    }

    /// The value of a text: its UTF-8 bytes.
    pub open spec fn text(text: Seq<char>) -> Tree {
        Tree::Bytes(vstd::utf8::encode_utf8(text))
    }

    /// This object with `key` set to `value`; a value that is no object stays as it is.
    pub open spec fn with_field(self, key: Seq<char>, value: Tree) -> Tree {
        match self {
            Tree::Object(fields) => Tree::Object(fields.insert(key, value)),
            _ => self,
        }
    }

    /// This object without `key`; a value that is no object stays as it is.
    pub open spec fn without_field(self, key: Seq<char>) -> Tree {
        match self {
            Tree::Object(fields) => Tree::Object(fields.remove(key)),
            _ => self,
        }
    }
}

/// The map that a list of key-value pairs lays down, later pairs over earlier ones.
spec fn map_of(pairs: Seq<(Seq<char>, Tree)>) -> Map<Seq<char>, Tree>
    decreases pairs.len(),
{
    if pairs.len() == 0 {
        Map::empty()
    } else {
        map_of(pairs.drop_last()).insert(pairs.last().0, pairs.last().1)
    }
}

/// The keys of `pairs` are in strictly increasing character order.
pub(crate) open spec fn keys_sorted(pairs: Seq<(Seq<char>, Tree)>) -> bool {
    forall|i: int, j: int|
        0 <= i < j < pairs.len() ==> #[trigger] crate::text::text_order(pairs[i].0, pairs[j].0)
            == TextOrder::Before
}

/// `fields` holds exactly the pairs of `pairs`.
pub(crate) open spec fn lays_down(pairs: Seq<(Seq<char>, Tree)>, fields: Map<Seq<char>, Tree>) -> bool {
    &&& forall|i: int|
        0 <= i < pairs.len() ==> fields.dom().contains(#[trigger] pairs[i].0) && fields[pairs[i].0]
            == pairs[i].1
    &&& forall|k: Seq<char>| #[trigger]
        fields.dom().contains(k) ==> exists|i: int| 0 <= i < pairs.len() && #[trigger] pairs[i].0 == k
}

proof fn lemma_map_of(pairs: Seq<(Seq<char>, Tree)>)
    requires
        keys_sorted(pairs),
    ensures
        lays_down(pairs, map_of(pairs)),
        map_of(pairs).dom().finite(),
    decreases pairs.len(),
{
    if pairs.len() > 0 {
        let rest = pairs.drop_last();
        assert forall|i: int, j: int| 0 <= i < j < rest.len() implies #[trigger]
            crate::text::text_order(rest[i].0, rest[j].0) == TextOrder::Before by {
            assert(rest[i] == pairs[i] && rest[j] == pairs[j]);
        }
        lemma_map_of(rest);
        let last = pairs.len() - 1;
        assert forall|i: int| 0 <= i < pairs.len() implies map_of(pairs).dom().contains(
            #[trigger] pairs[i].0,
        ) && map_of(pairs)[pairs[i].0] == pairs[i].1 by {
            if i < last {
                assert(rest[i] == pairs[i]);
                assert(crate::text::text_order(pairs[i].0, pairs[last].0) == TextOrder::Before);
                crate::text::lemma_text_order_swap(pairs[i].0, pairs[last].0);
            }
        }
        assert forall|k: Seq<char>| #[trigger] map_of(pairs).dom().contains(k) implies exists|i: int|
            0 <= i < pairs.len() && #[trigger] pairs[i].0 == k by {
            if k != pairs[last].0 {
                assert(map_of(rest).dom().contains(k));
                let i = choose|i: int| 0 <= i < rest.len() && #[trigger] rest[i].0 == k;
                assert(pairs[i].0 == k);
            } else {
                assert(pairs[last].0 == k);
            }
        }
    }
}

/// A list of pairs lays down one map.
pub(crate) proof fn lemma_laid_down_once(
    pairs: Seq<(Seq<char>, Tree)>,
    a: Map<Seq<char>, Tree>,
    b: Map<Seq<char>, Tree>,
)
    requires
        lays_down(pairs, a),
        lays_down(pairs, b),
    ensures
        a == b,
{
    assert forall|k: Seq<char>| #[trigger] a.dom().contains(k) implies b.dom().contains(k) && a[k]
        == b[k] by {
        let i = choose|i: int| 0 <= i < pairs.len() && #[trigger] pairs[i].0 == k;
        assert(b.dom().contains(pairs[i].0));
    }
    assert forall|k: Seq<char>| #[trigger] b.dom().contains(k) implies a.dom().contains(k) by {
        let i = choose|i: int| 0 <= i < pairs.len() && #[trigger] pairs[i].0 == k;
        assert(a.dom().contains(pairs[i].0));
    }
    assert(a =~= b);
}

/// Entries as pairs of what they are.
pub(crate) open spec fn pairs_of(entries: Seq<(String, Value)>) -> Seq<(Seq<char>, Tree)> {
    entries.map_values(|entry: (String, Value)| (entry.0@, entry.1@))
}

/// The fields that the first `count` entries give, later entries over earlier ones.
spec fn fields_of(entries: Seq<(String, Value)>, count: nat) -> Map<Seq<char>, Tree>
    decreases entries, count,
{
    if count == 0 || count > entries.len() {
        Map::empty()
    } else {
        let entry = entries[count - 1];
        fields_of(entries, (count - 1) as nat).insert(entry.0@, entry.1.view())
    }
}

proof fn lemma_fields_of(entries: Seq<(String, Value)>, count: nat)
    requires
        count <= entries.len(),
    ensures
        fields_of(entries, count) == map_of(pairs_of(entries).take(count as int)),
    decreases count,
{
    if count > 0 {
        lemma_fields_of(entries, (count - 1) as nat);
        assert(pairs_of(entries).take(count as int).drop_last() =~= pairs_of(entries).take(
            count - 1,
        ));
    }
}

impl ObjectMap {
    #[verifier::type_invariant]
    spec fn keys_in_order(self) -> bool {
        keys_sorted(pairs_of(self.entries@))
    }

    /// The fields as a map.
    pub closed spec fn view(self) -> Map<Seq<char>, Tree>
        decreases self, 0nat,
    {
        fields_of(self.entries@, self.entries@.len())
    }

    proof fn lemma_view(self)
        requires
            keys_sorted(pairs_of(self.entries@)),
        ensures
            self@ == map_of(pairs_of(self.entries@)),
            lays_down(pairs_of(self.entries@), self@),
            self@.dom().finite(),
    {
        lemma_fields_of(self.entries@, self.entries@.len());
        assert(pairs_of(self.entries@).take(self.entries@.len() as int) =~= pairs_of(
            self.entries@,
        ));
        lemma_map_of(pairs_of(self.entries@));
    }

    /// An object without fields.
    pub fn new() -> (r: ObjectMap)
        ensures
            r@ == Map::<Seq<char>, Tree>::empty(),
    {
        let r = ObjectMap { entries: Vec::new() };
        proof {
            r.lemma_view();
        }
        r
    }

    /// An object made of entries whose keys are in strictly increasing order.
    pub(crate) fn from_entries(entries: Vec<(String, Value)>) -> (r: ObjectMap)
        requires
            keys_sorted(pairs_of(entries@)),
        ensures
            lays_down(pairs_of(entries@), r@),
    {
        let r = ObjectMap { entries };
        proof {
            r.lemma_view();
        }
        r
    }

    /// The entries, in key order.
    pub(crate) fn into_entries(self) -> (r: Vec<(String, Value)>)
        ensures
            keys_sorted(pairs_of(r@)),
            lays_down(pairs_of(r@), self@),
            decreases_to!(self => r@),
    {
        proof {
            use_type_invariant(&self);
            self.lemma_view();
        }
        self.entries
    }

    /// Where `key` stands among the entries, or where it would be put, and whether it is there.
    fn locate(&self, key: &str) -> (r: (usize, bool))
        ensures
            r.0 <= self.entries@.len(),
            forall|i: int|
                0 <= i < r.0 ==> #[trigger] crate::text::text_order(self.entries@[i].0@, key@)
                    == TextOrder::Before,
            r.1 ==> r.0 < self.entries@.len() && self.entries@[r.0 as int].0@ == key@,
            !r.1 ==> forall|i: int|
                r.0 <= i < self.entries@.len() ==> #[trigger] crate::text::text_order(
                    key@,
                    self.entries@[i].0@,
                ) == TextOrder::Before,
    {
        proof {
            use_type_invariant(self);
        }
        let mut at: usize = 0;
        while at < self.entries.len()
            invariant
                at <= self.entries@.len(),
                keys_sorted(pairs_of(self.entries@)),
                forall|i: int|
                    0 <= i < at ==> #[trigger] crate::text::text_order(self.entries@[i].0@, key@)
                        == TextOrder::Before,
            decreases self.entries@.len() - at,
        {
            match compare_text(self.entries[at].0.as_str(), key) {
                TextOrder::Before => {
                    at = at + 1;
                },
                TextOrder::Same => {
                    proof {
                        crate::text::lemma_text_order_swap(self.entries@[at as int].0@, key@);
                    }
                    return (at, true);
                },
                TextOrder::After => {
                    proof {
                        crate::text::lemma_text_order_swap(key@, self.entries@[at as int].0@);
                        assert forall|i: int| at <= i < self.entries@.len() implies #[trigger]
                            crate::text::text_order(key@, self.entries@[i].0@)
                                == TextOrder::Before by {
                            if at < i {
                                let pairs = pairs_of(self.entries@);
                                assert(crate::text::text_order(pairs[at as int].0, pairs[i].0)
                                    == TextOrder::Before);
                                crate::text::lemma_text_order_transitive(
                                    key@,
                                    self.entries@[at as int].0@,
                                    self.entries@[i].0@,
                                );
                            }
                        }
                    }
                    return (at, false);
                },
            }
        }
        (at, false)
    }

    proof fn lemma_absent(self, at: int, key: Seq<char>)
        requires
            keys_sorted(pairs_of(self.entries@)),
            0 <= at <= self.entries@.len(),
            forall|i: int|
                0 <= i < at ==> #[trigger] crate::text::text_order(self.entries@[i].0@, key)
                    == TextOrder::Before,
            forall|i: int|
                at <= i < self.entries@.len() ==> #[trigger] crate::text::text_order(
                    key,
                    self.entries@[i].0@,
                ) == TextOrder::Before,
        ensures
            !self@.dom().contains(key),
    {
        self.lemma_view();
        let pairs = pairs_of(self.entries@);
        if self@.dom().contains(key) {
            let i = choose|i: int| 0 <= i < pairs.len() && #[trigger] pairs[i].0 == key;
            crate::text::lemma_text_order_swap(self.entries@[i].0@, key);
            crate::text::lemma_text_order_swap(key, self.entries@[i].0@);
            assert(i < at || at <= i);
        }
    }

    /// The field `key`, where the object has it.
    pub fn get(&self, key: &str) -> (r: Option<&Value>)
        ensures
            match r {
                Some(value) => self@.dom().contains(key@) && value@ == self@[key@],
                None => !self@.dom().contains(key@),
            },
    {
        let (at, found) = self.locate(key);
        proof {
            use_type_invariant(self);
            self.lemma_view();
            if found {
                assert(pairs_of(self.entries@)[at as int].0 == key@);
            } else {
                self.lemma_absent(at as int, key@);
            }
        }
        if found {
            Some(&self.entries[at].1)
        } else {
            None
        }
    }

    /// Sets the field `key`, and returns what it held before.
    pub fn insert(&mut self, key: String, value: Value) -> (r: Option<Value>)
        ensures
            final(self)@ == old(self)@.insert(key@, value@),
            match r {
                Some(before) => old(self)@.dom().contains(key@) && before@ == old(self)@[key@],
                None => !old(self)@.dom().contains(key@),
            },
    {
        let (at, found) = self.locate(key.as_str());
        let ghost before = *self;
        proof {
            use_type_invariant(&*self);
            before.lemma_view();
        }
        let mut entries: Vec<(String, Value)> = Vec::new();
        std::mem::swap(&mut entries, &mut self.entries);
        let ghost pairs = pairs_of(entries@);
        let mut replaced: Option<Value> = None;
        if found {
            let mut entry = (key, value);
            std::mem::swap(&mut entry, &mut entries[at]);
            proof {
                let now = pairs_of(entries@);
                assert(now =~= pairs.update(at as int, (key@, value@)));
                assert(pairs[at as int].0 == key@);
                assert forall|i: int, j: int| 0 <= i < j < now.len() implies #[trigger]
                    crate::text::text_order(now[i].0, now[j].0) == TextOrder::Before by {
                    assert(now[i].0 == pairs[i].0 && now[j].0 == pairs[j].0);
                }
                let fields = before@.insert(key@, value@);
                assert(lays_down(now, fields)) by {
                    assert forall|i: int| 0 <= i < now.len() implies fields.dom().contains(
                        #[trigger] now[i].0,
                    ) && fields[now[i].0] == now[i].1 by {
                        assert(now[i].0 == pairs[i].0);
                        if i != at {
                            if i < at {
                                assert(crate::text::text_order(pairs[i].0, pairs[at as int].0)
                                    == TextOrder::Before);
                            } else {
                                assert(crate::text::text_order(pairs[at as int].0, pairs[i].0)
                                    == TextOrder::Before);
                            }
                            crate::text::lemma_text_order_swap(pairs[i].0, pairs[at as int].0);
                        }
                    }
                    assert forall|k: Seq<char>| #[trigger] fields.dom().contains(k) implies exists|
                        i: int,
                    | 0 <= i < now.len() && #[trigger] now[i].0 == k by {
                        if k != key@ {
                            let i = choose|i: int|
                                0 <= i < pairs.len() && #[trigger] pairs[i].0 == k;
                            assert(now[i].0 == k);
                        } else {
                            assert(now[at as int].0 == k);
                        }
                    }
                }
            }
            replaced = Some(entry.1);
        } else {
            entries.insert(at, (key, value));
            proof {
                before.lemma_absent(at as int, key@);
                let now = pairs_of(entries@);
                assert(now =~= pairs.insert(at as int, (key@, value@)));
                assert forall|i: int, j: int| 0 <= i < j < now.len() implies #[trigger]
                    crate::text::text_order(now[i].0, now[j].0) == TextOrder::Before by {
                    let left = if i < at {
                        i
                    } else {
                        i - 1
                    };
                    let right = if j < at {
                        j
                    } else {
                        j - 1
                    };
                    if i != at && j != at {
                        assert(crate::text::text_order(pairs[left].0, pairs[right].0)
                            == TextOrder::Before);
                    }
                }
                let fields = before@.insert(key@, value@);
                assert(lays_down(now, fields)) by {
                    assert forall|i: int| 0 <= i < now.len() implies fields.dom().contains(
                        #[trigger] now[i].0,
                    ) && fields[now[i].0] == now[i].1 by {
                        if i < at {
                            assert(now[i] == pairs[i]);
                            assert(before@.dom().contains(pairs[i].0));
                        } else if i > at {
                            assert(now[i] == pairs[i - 1]);
                            assert(before@.dom().contains(pairs[i - 1].0));
                        }
                    }
                    assert forall|k: Seq<char>| #[trigger] fields.dom().contains(k) implies exists|
                        i: int,
                    | 0 <= i < now.len() && #[trigger] now[i].0 == k by {
                        if k != key@ {
                            let i = choose|i: int|
                                0 <= i < pairs.len() && #[trigger] pairs[i].0 == k;
                            let to = if i < at {
                                i
                            } else {
                                i + 1
                            };
                            assert(now[to].0 == k);
                        } else {
                            assert(now[at as int].0 == k);
                        }
                    }
                }
            }
        }
        self.entries = entries;
        proof {
            self.lemma_view();
            lemma_laid_down_once(
                pairs_of(self.entries@),
                self@,
                before@.insert(key@, value@),
            );
        }
        replaced
    }

    /// Takes the field `key` out, where the object has it.
    pub fn remove(&mut self, key: &str) -> (r: Option<Value>)
        ensures
            final(self)@ == old(self)@.remove(key@),
            match r {
                Some(before) => old(self)@.dom().contains(key@) && before@ == old(self)@[key@],
                None => !old(self)@.dom().contains(key@),
            },
    {
        let (at, found) = self.locate(key);
        let ghost before = *self;
        proof {
            use_type_invariant(&*self);
            before.lemma_view();
        }
        if !found {
            proof {
                before.lemma_absent(at as int, key@);
                assert(before@.remove(key@) =~= before@);
            }
            return None;
        }
        let mut entries: Vec<(String, Value)> = Vec::new();
        std::mem::swap(&mut entries, &mut self.entries);
        let ghost pairs = pairs_of(entries@);
        let entry = entries.remove(at);
        proof {
            let now = pairs_of(entries@);
            assert(now =~= pairs.remove(at as int));
            assert(pairs[at as int].0 == key@);
            assert forall|i: int, j: int| 0 <= i < j < now.len() implies #[trigger]
                crate::text::text_order(now[i].0, now[j].0) == TextOrder::Before by {
                let left = if i < at {
                    i
                } else {
                    i + 1
                };
                let right = if j < at {
                    j
                } else {
                    j + 1
                };
                assert(crate::text::text_order(pairs[left].0, pairs[right].0)
                    == TextOrder::Before);
            }
            let fields = before@.remove(key@);
            assert(lays_down(now, fields)) by {
                assert forall|i: int| 0 <= i < now.len() implies fields.dom().contains(
                    #[trigger] now[i].0,
                ) && fields[now[i].0] == now[i].1 by {
                    let from = if i < at {
                        i
                    } else {
                        i + 1
                    };
                    assert(now[i] == pairs[from]);
                    assert(before@.dom().contains(pairs[from].0));
                    if from < at {
                        assert(crate::text::text_order(pairs[from].0, pairs[at as int].0)
                            == TextOrder::Before);
                    } else {
                        assert(crate::text::text_order(pairs[at as int].0, pairs[from].0)
                            == TextOrder::Before);
                    }
                    crate::text::lemma_text_order_swap(pairs[from].0, pairs[at as int].0);
                }
                assert forall|k: Seq<char>| #[trigger] fields.dom().contains(k) implies exists|
                    i: int,
                | 0 <= i < now.len() && #[trigger] now[i].0 == k by {
                    let i = choose|i: int| 0 <= i < pairs.len() && #[trigger] pairs[i].0 == k;
                    let to = if i < at {
                        i
                    } else {
                        i - 1
                    };
                    assert(now[to].0 == k);
                }
            }
        }
        self.entries = entries;
        proof {
            self.lemma_view();
            lemma_laid_down_once(pairs_of(self.entries@), self@, before@.remove(key@));
        }
        Some(entry.1)
    }
}

impl Value {
    /// What the value is.
    pub open spec fn view(self) -> Tree
        decreases self, 0nat,
    {
        match self {
            Value::Bytes(bytes) => Tree::Bytes(bytes@),
            Value::Integer(integer) => Tree::Integer(integer),
            Value::Float(float) => Tree::Float(float@),
            Value::Boolean(boolean) => Tree::Boolean(boolean),
            Value::Opaque(scalar) => Tree::Opaque(scalar@),
            Value::Object(object) => Tree::Object(object@),
            Value::Array(items) => Tree::Array(
                Seq::new(
                    items@.len(),
                    |i: int|
                        if 0 <= i < items@.len() {
                            items@[i].view()
                        } else {
                            arbitrary()
                        },
                ),
            ),
            Value::Null => Tree::Null,
        }
    }
}

/// What the values of a sequence are.
pub open spec fn trees(items: Seq<Value>) -> Seq<Tree> {
    items.map_values(|item: Value| item@)
}

/// What a text is that may be missing.
pub open spec fn text_of(text: Option<String>) -> Option<Seq<char>> {
    match text {
        Some(text) => Some(text@),
        None => None,
    }
}

/// What a value is that may be missing.
pub open spec fn tree_of(value: Option<Value>) -> Option<Tree> {
    match value {
        Some(value) => Some(value@),
        None => None,
    }
}

/// What a value is that is lent and may be missing.
pub open spec fn tree_at(value: Option<&Value>) -> Option<Tree> {
    match value {
        Some(value) => Some(value@),
        None => None,
    }
}

/// An array value is the array of what its items are.
pub broadcast proof fn lemma_array_view(items: Vec<Value>)
    ensures
        #[trigger] Value::Array(items).view() == Tree::Array(trees(items@)),
{
    let seen = Value::Array(items).view()->Array_0;
    assert forall|i: int| 0 <= i < items@.len() implies #[trigger] seen[i] == trees(items@)[i] by {
        assert(seen[i] == items@[i].view());
    }
    assert(seen =~= trees(items@));
}

impl Value {
    /// The value of a text: its UTF-8 bytes.
    pub fn text(text: &str) -> (r: Value)
        ensures
            r@ == Tree::text(text@),
    {
        Value::Bytes(text.as_bytes_vec())
    }

    /// The field `key`, where this is an object that has it.
    pub fn get(&self, key: &str) -> (r: Option<&Value>)
        ensures
            tree_at(r) == self@.field(key@),
    {
        match self {
            Value::Object(object) => object.get(key),
            _ => None,
        }
    }

    /// The text, where this is a byte string. Parts that are not valid UTF-8 show as
    /// replacement characters.
    pub fn as_str(&self) -> (r: Option<String>)
        ensures
            text_of(r) == self@.as_text(),
    {
        match self {
            Value::Bytes(bytes) => Some(vrl_text(bytes)),
            _ => None,
        }
    }

    /// The value of this crate that holds what a `vrl` value holds.
    pub fn from_vrl(value: VrlValue) -> (r: Value)
        ensures
            r@ == crate::vrl_bridge::vrl_contents(value),
    {
        from_vrl(value)
    }

    /// The `vrl` value that holds what this value holds.
    pub fn into_vrl(self) -> (r: VrlValue)
        ensures
            crate::vrl_bridge::vrl_contents(r) == self@,
    {
        match &self {
            Value::Float(float) => {
                proof {
                    use_type_invariant(float);
                }
            },
            Value::Opaque(scalar) => {
                proof {
                    use_type_invariant(scalar);
                }
            },
            _ => {},
        }
        to_vrl(self)
    }

    /// The items, where this is an array.
    pub fn as_array(&self) -> (r: Option<&Vec<Value>>)
        ensures
            match r {
                Some(items) => self@ == Tree::Array(trees(items@)),
                None => self@ !is Array,
            },
    {
        broadcast use lemma_array_view;

        match self {
            Value::Array(items) => Some(items),
            _ => None,
        }
    }

    /// Whether this is an object.
    pub fn is_object(&self) -> (r: bool)
        ensures
            r == (self@ is Object),
    {
        match self {
            Value::Object(_) => true,
            _ => false,
        }
    }

    /// Sets the field `key` where this is an object; changes nothing else.
    pub fn set_field(&mut self, key: &str, value: Value)
        ensures
            final(self)@ == old(self)@.with_field(key@, value@),
    {
        match self {
            Value::Object(object) => {
                object.insert(key.to_string(), value);
            },
            _ => {},
        }
    }

    /// Takes the field `key` out where this is an object that has it.
    pub fn take_field(&mut self, key: &str) -> (r: Option<Value>)
        ensures
            tree_of(r) == old(self)@.field(key@),
            final(self)@ == old(self)@.without_field(key@),
    {
        match self {
            Value::Object(object) => object.remove(key),
            _ => None,
        }
    }
}

impl Clone for Value {
    /// The same value again.
    fn clone(&self) -> (r: Value)
        ensures
            r@ == self@,
    {
        self.duplicate()
    }
}

impl Clone for ObjectMap {
    /// The same fields again.
    fn clone(&self) -> (r: ObjectMap)
        ensures
            r@ == self@,
    {
        self.duplicate()
    }
}

impl Value {
    /// The same value again.
    fn duplicate(&self) -> (r: Value)
        ensures
            r@ == self@,
        decreases self,
    {
        broadcast use lemma_array_view;

        match self {
            Value::Bytes(bytes) => {
                let copy = bytes.clone();
                assert(copy@ =~= bytes@);
                Value::Bytes(copy)
            },
            Value::Integer(integer) => Value::Integer(*integer),
            Value::Float(float) => Value::Float(float.duplicate()),
            Value::Boolean(boolean) => Value::Boolean(*boolean),
            Value::Opaque(scalar) => Value::Opaque(scalar.duplicate()),
            Value::Object(object) => Value::Object(object.duplicate()),
            Value::Array(items) => {
                let mut copies: Vec<Value> = Vec::new();
                let mut i: usize = 0;
                while i < items.len()
                    invariant
                        i <= items@.len(),
                        *self == Value::Array(*items),
                        copies@.len() == i,
                        forall|j: int| 0 <= j < i ==> (#[trigger] copies@[j])@ == items@[j]@,
                    decreases items@.len() - i,
                {
                    assert(decreases_to!(*self => self->Array_0));
                    assert(decreases_to!(items@ => items@[i as int]));
                    copies.push(items[i].duplicate());
                    i = i + 1;
                }
                assert(trees(copies@) =~= trees(items@));
                Value::Array(copies)
            },
            Value::Null => Value::Null,
        }
    }
}

impl ObjectMap {
    /// The same fields again.
    fn duplicate(&self) -> (r: ObjectMap)
        ensures
            r@ == self@,
        decreases self,
    {
        proof {
            use_type_invariant(self);
            self.lemma_view();
        }
        let mut copies: Vec<(String, Value)> = Vec::new();
        let mut i: usize = 0;
        while i < self.entries.len()
            invariant
                i <= self.entries@.len(),
                copies@.len() == i,
                forall|j: int|
                    0 <= j < i ==> (#[trigger] copies@[j]).0@ == self.entries@[j].0@
                        && copies@[j].1@ == self.entries@[j].1@,
            decreases self.entries@.len() - i,
        {
            assert(decreases_to!(self.entries@ => self.entries@[i as int]));
            copies.push((self.entries[i].0.clone(), self.entries[i].1.duplicate()));
            i = i + 1;
        }
        assert(pairs_of(copies@) =~= pairs_of(self.entries@));
        let r = ObjectMap { entries: copies };
        proof {
            r.lemma_view();
        }
        r
    }
}

/// An object has the fields of its map, and putting one in or taking one out changes that field
/// alone. What is no object has no fields and stays as it is.
pub proof fn law_object(fields: Map<Seq<char>, Tree>, other: Tree, key: Seq<char>, value: Tree)
    ensures
        fields.dom().contains(key) ==> Tree::Object(fields).field(key) == Some(fields[key]),
        !fields.dom().contains(key) ==> Tree::Object(fields).field(key) is None,
        Tree::Object(fields).with_field(key, value) == Tree::Object(fields.insert(key, value)),
        Tree::Object(fields).without_field(key) == Tree::Object(fields.remove(key)),
        other !is Object ==> other.field(key) is None && other.with_field(key, value) == other
            && other.without_field(key) == other,
{
}

/// An array has its items, and a byte string its text. A text's value is its UTF-8 bytes, which
/// read as the text again.
pub proof fn law_scalars(items: Seq<Tree>, bytes: Seq<u8>, other: Tree, text: Seq<char>)
    ensures
        Tree::Array(items).items() == Some(items),
        other !is Array ==> other.items() is None,
        vstd::utf8::valid_utf8(bytes) ==> Tree::Bytes(bytes).as_text() == Some(
            vstd::utf8::decode_utf8(bytes),
        ),
        !vstd::utf8::valid_utf8(bytes) ==> Tree::Bytes(bytes).as_text() == Some(
            crate::vrl_bridge::lossy_text(bytes),
        ),
        other !is Bytes ==> other.as_text() is None,
        Tree::text(text) == Tree::Bytes(vstd::utf8::encode_utf8(text)),
        Tree::text(text).as_text() == Some(text),
{
    crate::vrl_bridge::lemma_shown_text(text);
}

} // verus!
