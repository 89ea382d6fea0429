//! OTLP trace and span identifiers: raw bytes on the wire, hex strings in the event tree.
//!
//! Identifiers are turned into lowercase hex after decoding OTLP and back into bytes before
//! encoding it, so that matchers and plain JSON serializers see the canonical form.

use crate::text::same_text;
use crate::value::{ObjectMap, Tree, Value};
use vstd::prelude::*;

verus! {

broadcast use crate::value::lemma_array_view;

/// A field that holds an identifier.
pub open spec fn is_id_field(key: Seq<char>) -> bool {
    key == "traceId"@ || key == "spanId"@ || key == "parentSpanId"@
}

/// The lowercase hex digit of a number below sixteen.
pub open spec fn hex_digit(n: int) -> u8 {
    if n < 10 {
        (48 + n) as u8
    } else {
        (87 + n) as u8
    }
}

/// The number that a hex digit stands for, in either case.
pub open spec fn digit_value(digit: u8) -> Option<int> {
    if 48 <= digit <= 57 {
        Some(digit - 48)
    } else if 97 <= digit <= 102 {
        Some(digit - 87)
    } else if 65 <= digit <= 70 {
        Some(digit - 55)
    } else {
        None
    }
}

/// Bytes in lowercase hex, two digits each.
pub open spec fn hex_of(bytes: Seq<u8>) -> Seq<u8> {
    Seq::new(
        2 * bytes.len(),
        |i: int|
            if i % 2 == 0 {
                hex_digit(bytes[i / 2] as int / 16)
            } else {
                hex_digit(bytes[i / 2] as int % 16)
            },
    )
}

/// Bytes are hex digits in pairs.
pub open spec fn is_hex(bytes: Seq<u8>) -> bool {
    &&& bytes.len() % 2 == 0
    &&& forall|i: int| 0 <= i < bytes.len() ==> digit_value(#[trigger] bytes[i]) is Some
}

/// The bytes that pairs of hex digits stand for.
pub open spec fn bytes_of(hex: Seq<u8>) -> Seq<u8> {
    Seq::new(
        hex.len() / 2,
        |i: int| (16 * digit_value(hex[2 * i])->0 + digit_value(hex[2 * i + 1])->0) as u8,
    )
}

/// An identifier converted. What is no byte string stays as it is, and so does what should be
/// hex and is not.
pub open spec fn id_converted(tree: Tree, encode: bool) -> Tree {
    match tree {
        Tree::Bytes(bytes) => if encode {
            Tree::Bytes(hex_of(bytes))
        } else if is_hex(bytes) {
            Tree::Bytes(bytes_of(bytes))
        } else {
            tree
        },
        _ => tree,
    }
}

/// A value with the identifiers in it converted, at any depth. Nothing below an identifier
/// field is looked into.
pub open spec fn ids_converted(tree: Tree, encode: bool) -> Tree
    decreases tree,
{
    match tree {
        Tree::Object(fields) => Tree::Object(
            Map::new(
                |key: Seq<char>| fields.dom().contains(key),
                |key: Seq<char>|
                    if !fields.dom().contains(key) {
                        arbitrary()
                    } else if is_id_field(key) {
                        id_converted(fields[key], encode)
                    } else {
                        ids_converted(fields[key], encode)
                    },
            ),
        ),
        Tree::Array(items) => Tree::Array(
            Seq::new(
                items.len(),
                |i: int|
                    if 0 <= i < items.len() {
                        ids_converted(items[i], encode)
                    } else {
                        arbitrary()
                    },
            ),
        ),
        _ => tree,
    }
}

/// What becomes of a field.
pub open spec fn field_converted(key: Seq<char>, tree: Tree, encode: bool) -> Tree {
    if is_id_field(key) {
        id_converted(tree, encode)
    } else {
        ids_converted(tree, encode)
    }
}

fn hex_digit_of(n: u8) -> (r: u8)
    requires
        n < 16,
    ensures
        r == hex_digit(n as int),
{
    if n < 10 {
        48 + n
    } else {
        87 + n
    }
}

fn digit_value_of(digit: u8) -> (r: Option<u8>)
    ensures
        match r {
            Some(value) => digit_value(digit) == Some(value as int) && value < 16,
            None => digit_value(digit) is None,
        },
{
    if 48 <= digit && digit <= 57 {
        Some(digit - 48)
    } else if 97 <= digit && digit <= 102 {
        Some(digit - 87)
    } else if 65 <= digit && digit <= 70 {
        Some(digit - 55)
    } else {
        None
    }
}

/// Bytes in lowercase hex, two digits each.
pub fn hex_encode(bytes: &Vec<u8>) -> (r: Vec<u8>)
    ensures
        r@ == hex_of(bytes@),
{
    let mut hex: Vec<u8> = Vec::new();
    let mut i: usize = 0;
    while i < bytes.len()
        invariant
            i <= bytes@.len(),
            hex@.len() == 2 * i,
            forall|j: int| 0 <= j < 2 * i ==> #[trigger] hex@[j] == hex_of(bytes@)[j],
        decreases bytes@.len() - i,
    {
        hex.push(hex_digit_of(bytes[i] / 16));
        hex.push(hex_digit_of(bytes[i] % 16));
        i = i + 1;
    }
    assert(hex@ =~= hex_of(bytes@));
    hex
}

/// The bytes that pairs of hex digits stand for; nothing where the digits are not hex.
pub fn hex_decode(hex: &Vec<u8>) -> (r: Option<Vec<u8>>)
    ensures
        match r {
            Some(bytes) => is_hex(hex@) && bytes@ == bytes_of(hex@),
            None => !is_hex(hex@),
        },
{
    if hex.len() % 2 != 0 {
        return None;
    }
    let mut bytes: Vec<u8> = Vec::new();
    let mut i: usize = 0;
    while i < hex.len()
        invariant
            i <= hex@.len(),
            i % 2 == 0,
            hex@.len() % 2 == 0,
            bytes@.len() == i / 2,
            forall|j: int| 0 <= j < i ==> digit_value(#[trigger] hex@[j]) is Some,
            forall|j: int| 0 <= j < i / 2 ==> #[trigger] bytes@[j] == bytes_of(hex@)[j],
        decreases hex@.len() - i,
    {
        let high = match digit_value_of(hex[i]) {
            Some(high) => high,
            None => {
                return None;
            },
        };
        let low = match digit_value_of(hex[i + 1]) {
            Some(low) => low,
            None => {
                return None;
            },
        };
        let ghost before = bytes@;
        bytes.push(16 * high + low);
        assert(bytes_of(hex@)[i as int / 2] == (16 * digit_value(hex@[i as int])->0 + digit_value(
            hex@[i + 1],
        )->0) as u8);
        i = i + 2;
    }
    assert(bytes@ =~= bytes_of(hex@));
    Some(bytes)
}

fn id_field(key: &str) -> (r: bool)
    ensures
        r == is_id_field(key@),
{
    same_text(key, "traceId") || same_text(key, "spanId") || same_text(key, "parentSpanId")
}

/// Converts an identifier.
fn convert(value: Value, encode: bool) -> (r: Value)
    ensures
        r@ == id_converted(value@, encode),
{
    match value {
        Value::Bytes(bytes) => if encode {
            Value::Bytes(hex_encode(&bytes))
        } else {
            match hex_decode(&bytes) {
                Some(raw) => Value::Bytes(raw),
                None => Value::Bytes(bytes),
            }
        },
        other => other,
    }
}

/// Converts the identifiers in a value, at any depth.
fn walk(value: Value, encode: bool) -> (r: Value)
    ensures
        r@ == ids_converted(value@, encode),
    decreases value,
{
    match value {
        Value::Object(object) => {
            let ghost fields = object@;
            let mut entries = object.into_entries();
            let ghost old_entries = entries@;
            let ghost pairs = crate::value::pairs_of(entries@);
            let mut walked: Vec<(String, Value)> = Vec::new();
            let mut i: usize = 0;
            while i < entries.len()
                invariant
                    i <= entries@.len(),
                    entries@.len() == old_entries.len(),
                    value == Value::Object(object),
                    decreases_to!(object => old_entries),
                    pairs == crate::value::pairs_of(old_entries),
                    walked@.len() == i,
                    forall|j: int| i <= j < entries@.len() ==> #[trigger] entries@[j] == old_entries[j],
                    forall|j: int|
                        0 <= j < i ==> (#[trigger] walked@[j]).0@ == pairs[j].0 && walked@[j].1@
                            == field_converted(pairs[j].0, pairs[j].1, encode),
                decreases entries@.len() - i,
            {
                let mut entry = (String::new(), Value::Null);
                std::mem::swap(&mut entry, &mut entries[i]);
                let (key, child) = entry;
                assert(child == old_entries[i as int].1);
                let child = if id_field(key.as_str()) {
                    convert(child, encode)
                } else {
                    assert(decreases_to!(value => value->Object_0));
                    assert(decreases_to!(old_entries => old_entries[i as int]));
                    walk(child, encode)
                };
                walked.push((key, child));
                i = i + 1;
            }
            proof {
                let now = crate::value::pairs_of(walked@);
                assert forall|a: int, b: int| 0 <= a < b < now.len() implies #[trigger]
                    crate::text::text_order(now[a].0, now[b].0)
                        == crate::text::TextOrder::Before by {
                    assert(now[a].0 == pairs[a].0 && now[b].0 == pairs[b].0);
                }
            }
            let r = ObjectMap::from_entries(walked);
            proof {
                lemma_fields_converted(
                    pairs,
                    crate::value::pairs_of(walked@),
                    fields,
                    r@,
                    encode,
                );
            }
            Value::Object(r)
        },
        Value::Array(items) => {
            let mut items = items;
            let ghost old_items = items@;
            let mut walked: Vec<Value> = Vec::new();
            let mut i: usize = 0;
            while i < items.len()
                invariant
                    i <= items@.len(),
                    items@.len() == old_items.len(),
                    value is Array,
                    value->Array_0@ == old_items,
                    walked@.len() == i,
                    forall|j: int| i <= j < items@.len() ==> #[trigger] items@[j] == old_items[j],
                    forall|j: int|
                        0 <= j < i ==> (#[trigger] walked@[j])@ == ids_converted(
                            old_items[j]@,
                            encode,
                        ),
                decreases items@.len() - i,
            {
                let mut item = Value::Null;
                std::mem::swap(&mut item, &mut items[i]);
                assert(item == old_items[i as int]);
                assert(decreases_to!(value => value->Array_0));
                assert(decreases_to!(old_items => old_items[i as int]));
                walked.push(walk(item, encode));
                i = i + 1;
            }
            proof {
                let tree = Tree::Array(crate::value::trees(old_items));
                let seen = ids_converted(tree, encode)->Array_0;
                let now = crate::value::trees(walked@);
                assert forall|j: int| 0 <= j < now.len() implies #[trigger] now[j] == seen[j] by {
                    assert(seen[j] == ids_converted(old_items[j]@, encode));
                }
                assert(now =~= seen);
            }
            Value::Array(walked)
        },
        other => other,
    }
}

proof fn lemma_fields_converted(
    before: Seq<(Seq<char>, Tree)>,
    after: Seq<(Seq<char>, Tree)>,
    fields: Map<Seq<char>, Tree>,
    converted: Map<Seq<char>, Tree>,
    encode: bool,
)
    requires
        crate::value::lays_down(before, fields),
        crate::value::lays_down(after, converted),
        before.len() == after.len(),
        forall|i: int|
            0 <= i < before.len() ==> (#[trigger] after[i]).0 == before[i].0 && after[i].1
                == field_converted(before[i].0, before[i].1, encode),
    ensures
        Tree::Object(converted) == ids_converted(Tree::Object(fields), encode),
{
    let seen = ids_converted(Tree::Object(fields), encode)->Object_0;
    assert forall|key: Seq<char>| #[trigger] fields.dom().contains(key) implies seen[key]
        == field_converted(key, fields[key], encode) by {}
    assert(crate::value::lays_down(after, seen)) by {
        assert forall|i: int| 0 <= i < after.len() implies seen.dom().contains(
            #[trigger] after[i].0,
        ) && seen[after[i].0] == after[i].1 by {
            assert(after[i].0 == before[i].0);
            assert(fields.dom().contains(before[i].0));
        }
        assert forall|key: Seq<char>| #[trigger] seen.dom().contains(key) implies exists|i: int|
            0 <= i < after.len() && #[trigger] after[i].0 == key by {
            assert(fields.dom().contains(key));
            let i = choose|i: int| 0 <= i < before.len() && #[trigger] before[i].0 == key;
            assert(after[i].0 == key);
        }
    }
    crate::value::lemma_laid_down_once(after, seen, converted);
}

/// Turns every identifier held as raw bytes into lowercase hex.
pub fn hex_encode_ids(value: &mut Value)
    ensures
        final(value)@ == ids_converted(old(value)@, true),
{
    let mut whole = Value::Null;
    std::mem::swap(&mut whole, value);
    *value = walk(whole, true);
}

/// Turns every identifier held in hex into raw bytes.
pub fn hex_decode_ids(value: &mut Value)
    ensures
        final(value)@ == ids_converted(old(value)@, false),
{
    let mut whole = Value::Null;
    std::mem::swap(&mut whole, value);
    *value = walk(whole, false);
}

/// Decoding the hex of bytes gives the bytes.
pub proof fn law_hex_round_trip(bytes: Seq<u8>)
    ensures
        is_hex(hex_of(bytes)),
        bytes_of(hex_of(bytes)) == bytes,
{
    let hex = hex_of(bytes);
    assert forall|i: int| 0 <= i < hex.len() implies digit_value(#[trigger] hex[i]) is Some by {
        lemma_digit(bytes[i / 2]);
    }
    assert forall|i: int| 0 <= i < bytes.len() implies #[trigger] bytes_of(hex)[i] == bytes[i] by {
        lemma_digit(bytes[i]);
        assert(hex[2 * i] == hex_digit(bytes[i] as int / 16));
        assert(hex[2 * i + 1] == hex_digit(bytes[i] as int % 16)) by {
            assert((2 * i + 1) / 2 == i);
        }
    }
    assert(bytes_of(hex) =~= bytes);
}

/// A hex digit with a letter in lowercase.
pub open spec fn lowercase_digit(digit: u8) -> u8 {
    if 65 <= digit <= 90 {
        (digit + 32) as u8
    } else {
        digit
    }
}

/// Encoding the bytes that hex digits stand for gives the digits in lowercase.
pub proof fn law_hex_lowercase(hex: Seq<u8>)
    requires
        is_hex(hex),
    ensures
        bytes_of(hex).len() == hex.len() / 2,
        hex_of(bytes_of(hex)) == hex.map_values(|digit: u8| lowercase_digit(digit)),
{
    let bytes = bytes_of(hex);
    let lower = hex.map_values(|digit: u8| lowercase_digit(digit));
    assert forall|i: int| 0 <= i < hex.len() implies #[trigger] hex_of(bytes)[i] == lower[i] by {
        let at = i / 2;
        let high = digit_value(hex[2 * at])->0;
        let low = digit_value(hex[2 * at + 1])->0;
        assert(digit_value(hex[2 * at]) is Some && digit_value(hex[2 * at + 1]) is Some);
        assert(bytes[at] == 16 * high + low);
    }
    assert(hex_of(bytes) =~= lower);
}

proof fn lemma_digit(byte: u8)
    ensures
        digit_value(hex_digit(byte as int / 16)) == Some(byte as int / 16),
        digit_value(hex_digit(byte as int % 16)) == Some(byte as int % 16),
{
}

/// Decoding the identifiers of a value after encoding them restores the value.
pub proof fn law_ids_round_trip(tree: Tree)
    ensures
        ids_converted(ids_converted(tree, true), false) == tree,
    decreases tree,
{
    match tree {
        Tree::Object(fields) => {
            let encoded = ids_converted(tree, true)->Object_0;
            let decoded = ids_converted(Tree::Object(encoded), false)->Object_0;
            assert forall|key: Seq<char>| #[trigger] fields.dom().contains(key) implies decoded[key]
                == fields[key] by {
                assert(encoded[key] == field_converted(key, fields[key], true));
                assert(encoded.dom().contains(key));
                assert(decoded[key] == field_converted(key, encoded[key], false));
                if is_id_field(key) {
                    match fields[key] {
                        Tree::Bytes(bytes) => {
                            law_hex_round_trip(bytes);
                        },
                        _ => {},
                    }
                } else {
                    law_ids_round_trip(fields[key]);
                }
            }
            assert(decoded =~= fields);
        },
        Tree::Array(items) => {
            let encoded = ids_converted(tree, true)->Array_0;
            let decoded = ids_converted(Tree::Array(encoded), false)->Array_0;
            assert forall|i: int| 0 <= i < items.len() implies #[trigger] decoded[i] == items[i] by {
                assert(encoded[i] == ids_converted(items[i], true));
                assert(decoded[i] == ids_converted(encoded[i], false));
                law_ids_round_trip(items[i]);
            }
            assert(decoded =~= items);
        },
        _ => {},
    }
}

/// A value has no identifier field in it, at any depth.
pub open spec fn lacks_ids(tree: Tree) -> bool
    decreases tree,
{
    match tree {
        Tree::Object(fields) => forall|key: Seq<char>| #[trigger]
            fields.dom().contains(key) ==> !is_id_field(key) && lacks_ids(fields[key]),
        Tree::Array(items) => forall|i: int| 0 <= i < items.len() ==> lacks_ids(#[trigger] items[i]),
        _ => true,
    }
}

/// A value without identifier fields stays as it is, whatever texts it holds.
pub proof fn law_other_fields_stay(tree: Tree, encode: bool)
    requires
        lacks_ids(tree),
    ensures
        ids_converted(tree, encode) == tree,
    decreases tree,
{
    match tree {
        Tree::Object(fields) => {
            let now = ids_converted(tree, encode)->Object_0;
            assert forall|key: Seq<char>| #[trigger] fields.dom().contains(key) implies now[key]
                == fields[key] by {
                assert(now[key] == field_converted(key, fields[key], encode));
                law_other_fields_stay(fields[key], encode);
            }
            assert(now =~= fields);
        },
        Tree::Array(items) => {
            let now = ids_converted(tree, encode)->Array_0;
            assert forall|i: int| 0 <= i < items.len() implies #[trigger] now[i] == items[i] by {
                assert(now[i] == ids_converted(items[i], encode));
                law_other_fields_stay(items[i], encode);
            }
            assert(now =~= items);
        },
        _ => {},
    }
}

/// Encoding writes each byte as two characters of the lowercase hex alphabet, the high half
/// first. Hex is an even number of digits, in either case.
pub proof fn law_hex_alphabet(bytes: Seq<u8>, i: int)
    ensures
        hex_of(bytes).len() == 2 * bytes.len(),
        0 <= i < bytes.len() ==> {
            &&& hex_of(bytes)[2 * i] == "0123456789abcdef"@[bytes[i] as int / 16] as u8
            &&& hex_of(bytes)[2 * i + 1] == "0123456789abcdef"@[bytes[i] as int % 16] as u8
        },
        is_hex(bytes) <==> bytes.len() % 2 == 0 && forall|j: int|
            0 <= j < bytes.len() ==> '0' as u8 <= #[trigger] bytes[j] <= '9' as u8 || 'a' as u8
                <= bytes[j] <= 'f' as u8 || 'A' as u8 <= bytes[j] <= 'F' as u8,
{
    reveal_strlit("0123456789abcdef");
    if 0 <= i < bytes.len() {
        assert((2 * i) / 2 == i && (2 * i) % 2 == 0);
        assert((2 * i + 1) / 2 == i && (2 * i + 1) % 2 == 1);
        let high = bytes[i] as int / 16;
        let low = bytes[i] as int % 16;
        assert(0 <= high < 16 && 0 <= low < 16);
        assert forall|n: int| 0 <= n < 16 implies hex_digit(n)
            == #[trigger] "0123456789abcdef"@[n] as u8 by {
            lemma_alphabet(n);
        }
    }
}

proof fn lemma_alphabet(n: int)
    requires
        0 <= n < 16,
    ensures
        hex_digit(n) == "0123456789abcdef"@[n] as u8,
{
    reveal_strlit("0123456789abcdef");
    assert(n == 0 || n == 1 || n == 2 || n == 3 || n == 4 || n == 5 || n == 6 || n == 7 || n == 8
        || n == 9 || n == 10 || n == 11 || n == 12 || n == 13 || n == 14 || n == 15);
}

/// The identifiers of an object are its fields `traceId`, `spanId` and `parentSpanId`. Encoding
/// makes hex of those that are byte strings, and decoding makes bytes of those that are hex;
/// others stay. Any other field is converted in its turn, and no field comes or goes.
pub proof fn law_identifier_fields(
    fields: Map<Seq<char>, Tree>,
    key: Seq<char>,
    bytes: Seq<u8>,
    encode: bool,
)
    requires
        fields.dom().contains(key),
    ensures
        ids_converted(Tree::Object(fields), encode) is Object,
        ids_converted(Tree::Object(fields), encode)->Object_0.dom() == fields.dom(),
        ({
            let now = ids_converted(Tree::Object(fields), encode)->Object_0[key];
            if key == "traceId"@ || key == "spanId"@ || key == "parentSpanId"@ {
                &&& fields[key] == Tree::Bytes(bytes) && encode ==> now == Tree::Bytes(
                    hex_of(bytes),
                )
                &&& fields[key] == Tree::Bytes(bytes) && !encode && is_hex(bytes) ==> now
                    == Tree::Bytes(bytes_of(bytes))
                &&& fields[key] == Tree::Bytes(bytes) && !encode && !is_hex(bytes) ==> now
                    == fields[key]
                &&& fields[key] !is Bytes ==> now == fields[key]
            } else {
                now == ids_converted(fields[key], encode)
            }
        }),
{
    let now = ids_converted(Tree::Object(fields), encode)->Object_0;
    assert(now.dom() =~= fields.dom());
    assert(now[key] == field_converted(key, fields[key], encode));
}

/// Decoding gives back what was encoded, under each of the identifiers' names.
pub proof fn law_identifiers_come_back(fields: Map<Seq<char>, Tree>, key: Seq<char>, bytes: Seq<u8>)
    requires
        key == "traceId"@ || key == "spanId"@ || key == "parentSpanId"@,
    ensures
        ids_converted(
            Tree::Object(Map::<Seq<char>, Tree>::empty().insert(key, Tree::Bytes(bytes))),
            true,
        ) == Tree::Object(
            Map::<Seq<char>, Tree>::empty().insert(key, Tree::Bytes(hex_of(bytes))),
        ),
        ids_converted(
            Tree::Object(Map::<Seq<char>, Tree>::empty().insert(key, Tree::Bytes(hex_of(bytes)))),
            false,
        ) == Tree::Object(Map::<Seq<char>, Tree>::empty().insert(key, Tree::Bytes(bytes))),
{
    let raw = Map::<Seq<char>, Tree>::empty().insert(key, Tree::Bytes(bytes));
    let hex = Map::<Seq<char>, Tree>::empty().insert(key, Tree::Bytes(hex_of(bytes)));
    law_hex_round_trip(bytes);
    law_identifier_fields(raw, key, bytes, true);
    law_identifier_fields(hex, key, hex_of(bytes), false);
    assert(ids_converted(Tree::Object(raw), true)->Object_0 =~= hex);
    assert(ids_converted(Tree::Object(hex), false)->Object_0 =~= raw);
}

/// Arrays are converted item by item, and every other value stays as it is.
pub proof fn law_identifiers_in_arrays(items: Seq<Tree>, i: int, other: Tree, encode: bool)
    ensures
        ids_converted(Tree::Array(items), encode) is Array,
        ids_converted(Tree::Array(items), encode)->Array_0.len() == items.len(),
        0 <= i < items.len() ==> ids_converted(Tree::Array(items), encode)->Array_0[i]
            == ids_converted(items[i], encode),
        other !is Object && other !is Array ==> ids_converted(other, encode) == other,
{
}

} // verus!
