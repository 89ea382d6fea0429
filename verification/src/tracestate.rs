//! The `ot` entry of a W3C trace state.
//!
//! A trace state is a list of vendor entries with commas between them. The `ot` vendor's entry
//! is itself a list, with semicolons, of sub-entries of the form `key:value`.

use crate::text::{chars_of, join_texts, same_text, split_pieces, take_before};
use vstd::prelude::*;

verus! {

/// The value of a vendor entry, where the vendor is `ot`.
pub open spec fn ot_value(vendor: Seq<char>) -> Option<Seq<char>> {
    if vendor.len() >= 3 && vendor[0] == 'o' && vendor[1] == 't' && vendor[2] == '=' {
        Some(vendor.skip(3))
    } else {
        None
    }
}

/// The sub-entries of the `ot` vendor.
pub open spec fn ot_entries(vendors: Seq<Seq<char>>) -> Seq<Seq<char>>
    decreases vendors.len(),
{
    if vendors.len() == 0 {
        Seq::empty()
    } else {
        let own = match ot_value(vendors[0]) {
            Some(value) => crate::text::pieces(value, ';'),
            None => Seq::empty(),
        };
        own + ot_entries(vendors.drop_first())
    }
}

/// The entries of the other vendors.
pub open spec fn other_vendors(vendors: Seq<Seq<char>>) -> Seq<Seq<char>> {
    vendors.filter(|vendor: Seq<char>| ot_value(vendor) is None)
}

/// The key of a sub-entry.
pub open spec fn sub_key(entry: Seq<char>) -> Seq<char> {
    crate::text::before_first(entry, ':')
}

/// The sub-entries that stand under another key than `entry`'s.
pub open spec fn entries_beside(entries: Seq<Seq<char>>, entry: Seq<char>) -> Seq<Seq<char>> {
    entries.filter(|other: Seq<char>| sub_key(other) != sub_key(entry))
}

/// The trace state made of `ot` sub-entries and the entries of other vendors.
pub open spec fn written(entries: Seq<Seq<char>>, others: Seq<Seq<char>>) -> Seq<char> {
    crate::text::joined(
        seq![seq!['o', 't', '='] + crate::text::joined(entries, seq![';'])] + others,
        seq![','],
    )
}

/// A trace state with `entry` as its last `ot` sub-entry, in place of those under its key, and
/// with `ot` before the other vendors.
pub open spec fn merged(tracestate: Seq<char>, entry: Seq<char>) -> Seq<char> {
    let vendors = crate::text::pieces(tracestate, ',');
    written(entries_beside(ot_entries(vendors), entry).push(entry), other_vendors(vendors))
}

/// The value of a vendor entry, where the vendor is `ot`.
fn ot_value_of<'a>(vendor: &'a str) -> (r: Option<&'a str>)
    ensures
        match r {
            Some(value) => ot_value(vendor@) == Some(value@),
            None => ot_value(vendor@) is None,
        },
{
    let chars = chars_of(vendor);
    if chars.len() >= 3 && chars[0] == 'o' && chars[1] == 't' && chars[2] == '=' {
        let value = vendor.substring_char(3, chars.len());
        assert(value@ =~= vendor@.skip(3));
        Some(value)
    } else {
        None
    }
}

/// Adds the sub-entries of one `ot` entry that stand under another key than `entry`'s.
fn gather_beside<'a>(gathered: Vec<&'a str>, value: &'a str, entry: &str) -> (r: Vec<&'a str>)
    ensures
        crate::text::lent_texts(r@) == crate::text::lent_texts(gathered@) + entries_beside(
            crate::text::pieces(value@, ';'),
            entry@,
        ),
{
    let key = take_before(entry, ':');
    let parts = split_pieces(value, ';');
    let ghost own = crate::text::pieces(value@, ';');
    let ghost before = crate::text::lent_texts(gathered@);
    let ghost beside = |other: Seq<char>| sub_key(other) != sub_key(entry@);
    let mut gathered = gathered;
    let mut i: usize = 0;
    proof {
        reveal(Seq::filter);
        assert(own.take(0) =~= Seq::<Seq<char>>::empty());
        assert(before + Seq::<Seq<char>>::empty() =~= before);
    }
    while i < parts.len()
        invariant
            i <= parts@.len(),
            own == crate::text::lent_texts(parts@),
            key@ == sub_key(entry@),
            beside == (|other: Seq<char>| sub_key(other) != sub_key(entry@)),
            crate::text::lent_texts(gathered@) == before + own.take(i as int).filter(beside),
        decreases parts@.len() - i,
    {
        let part = parts[i];
        let ghost so_far = crate::text::lent_texts(gathered@);
        proof {
            reveal(Seq::filter);
            assert(own.take(i + 1).drop_last() =~= own.take(i as int));
        }
        if !same_text(take_before(part, ':'), key) {
            gathered.push(part);
            assert(crate::text::lent_texts(gathered@) =~= so_far.push(part@));
            assert(so_far.push(part@) =~= before + own.take(i as int).filter(beside).push(part@));
        }
        i = i + 1;
    }
    assert(own.take(i as int) =~= own);
    gathered
}

/// Splits vendor entries into the `ot` sub-entries under another key than `entry`'s and the
/// entries of other vendors.
fn sort_vendors<'a>(vendors: &Vec<&'a str>, entry: &str) -> (r: (Vec<&'a str>, Vec<&'a str>))
    ensures
        crate::text::lent_texts(r.0@) == entries_beside(
            ot_entries(crate::text::lent_texts(vendors@)),
            entry@,
        ),
        crate::text::lent_texts(r.1@) == other_vendors(crate::text::lent_texts(vendors@)),
{
    let mut ot_parts: Vec<&'a str> = Vec::new();
    let mut others: Vec<&'a str> = Vec::new();
    let ghost all = crate::text::lent_texts(vendors@);
    let ghost foreign = |vendor: Seq<char>| ot_value(vendor) is None;
    let mut i: usize = 0;
    proof {
        reveal(Seq::filter);
        assert(all.skip(0) =~= all);
        assert(all.take(0) =~= Seq::<Seq<char>>::empty());
        assert(crate::text::lent_texts(ot_parts@) + entries_beside(ot_entries(all), entry@)
            =~= entries_beside(ot_entries(all), entry@));
        assert(crate::text::lent_texts(others@) =~= Seq::<Seq<char>>::empty());
    }
    while i < vendors.len()
        invariant
            i <= vendors@.len(),
            all == crate::text::lent_texts(vendors@),
            foreign == (|vendor: Seq<char>| ot_value(vendor) is None),
            crate::text::lent_texts(ot_parts@) + entries_beside(
                ot_entries(all.skip(i as int)),
                entry@,
            ) == entries_beside(ot_entries(all), entry@),
            crate::text::lent_texts(others@) == all.take(i as int).filter(foreign),
        decreases vendors@.len() - i,
    {
        let vendor = vendors[i];
        let ghost later = ot_entries(all.skip(i + 1));
        let ghost before = crate::text::lent_texts(ot_parts@);
        proof {
            reveal(Seq::filter);
            assert(all.skip(i as int).drop_first() =~= all.skip(i + 1));
            assert(all.take(i + 1).drop_last() =~= all.take(i as int));
        }
        match ot_value_of(vendor) {
            Some(value) => {
                let ghost own = crate::text::pieces(value@, ';');
                ot_parts = gather_beside(ot_parts, value, entry);
                proof {
                    Seq::filter_distributes_over_add(
                        own,
                        later,
                        |other: Seq<char>| sub_key(other) != sub_key(entry@),
                    );
                    assert(before + (entries_beside(own, entry@) + entries_beside(later, entry@))
                        =~= before + entries_beside(own, entry@) + entries_beside(later, entry@));
                }
            },
            None => {
                let ghost so_far = crate::text::lent_texts(others@);
                others.push(vendor);
                assert(crate::text::lent_texts(others@) =~= so_far.push(vendor@));
                assert(Seq::<Seq<char>>::empty() + later =~= later);
            },
        }
        i = i + 1;
    }
    proof {
        reveal(Seq::filter);
        assert(all.skip(i as int) =~= Seq::<Seq<char>>::empty());
        assert(all.take(i as int) =~= all);
        assert(crate::text::lent_texts(ot_parts@) + Seq::<Seq<char>>::empty()
            =~= crate::text::lent_texts(ot_parts@));
    }
    (ot_parts, others)
}

/// Writes a trace state made of `ot` sub-entries and the entries of other vendors.
fn write_tracestate<'a>(entries: &Vec<&'a str>, others: Vec<&'a str>) -> (r: String)
    ensures
        r@ == written(crate::text::lent_texts(entries@), crate::text::lent_texts(others@)),
{
    proof {
        reveal_strlit("ot=");
        reveal_strlit(";");
        reveal_strlit(",");
    }
    assert("ot="@ =~= seq!['o', 't', '=']);
    assert(";"@ =~= seq![';']);
    assert(","@ =~= seq![',']);
    let mut own = "ot=".to_string();
    own.append(join_texts(entries, ";").as_str());
    let mut others = others;
    let ghost foreign = crate::text::lent_texts(others@);
    let mut vendors: Vec<&str> = Vec::new();
    vendors.push(own.as_str());
    vendors.append(&mut others);
    assert(crate::text::lent_texts(vendors@) =~= seq![own@] + foreign);
    join_texts(&vendors, ",")
}

/// Merges a sub-entry into a trace state under the `ot` vendor, in place of those with the
/// same key. The `ot` entry comes first, and the other vendors' entries stay as they are.
pub fn merge_ot_tracestate(tracestate: &str, sub_kv: &str) -> (r: String)
    ensures
        r@ == merged(tracestate@, sub_kv@),
{
    let vendors = split_pieces(tracestate, ',');
    let (kept, others) = sort_vendors(&vendors, sub_kv);
    let mut entries = kept;
    let ghost before = crate::text::lent_texts(entries@);
    entries.push(sub_kv);
    assert(crate::text::lent_texts(entries@) =~= before.push(sub_kv@));
    write_tracestate(&entries, others)
}

/// A list item that is read back as it was written: not empty, without white space at its ends
/// and without the list's separator.
pub open spec fn clean(item: Seq<char>, separator: char) -> bool {
    &&& item.len() > 0
    &&& !crate::text::white_space(item[0])
    &&& !crate::text::white_space(item.last())
    &&& crate::text::lacks(item, separator)
}

proof fn lemma_trimmed_start(text: Seq<char>)
    ensures
        exists|from: int|
            0 <= from <= text.len() && crate::text::trimmed_start(text) == #[trigger] text.skip(
                from,
            ),
        crate::text::trimmed_start(text).len() > 0 ==> !crate::text::white_space(
            crate::text::trimmed_start(text)[0],
        ),
    decreases text.len(),
{
    if text.len() > 0 && crate::text::white_space(text[0]) {
        let rest = text.drop_first();
        lemma_trimmed_start(rest);
        let from = choose|from: int|
            0 <= from <= rest.len() && crate::text::trimmed_start(rest) == #[trigger] rest.skip(
                from,
            );
        assert(rest.skip(from) =~= text.skip(from + 1));
    } else {
        assert(text.skip(0) =~= text);
    }
}

proof fn lemma_trimmed_end(text: Seq<char>)
    ensures
        exists|to: int|
            0 <= to <= text.len() && crate::text::trimmed_end(text) == #[trigger] text.take(to),
        crate::text::trimmed_end(text).len() > 0 ==> !crate::text::white_space(
            crate::text::trimmed_end(text).last(),
        ),
    decreases text.len(),
{
    if text.len() > 0 && crate::text::white_space(text.last()) {
        let rest = text.drop_last();
        lemma_trimmed_end(rest);
        let to = choose|to: int|
            0 <= to <= rest.len() && crate::text::trimmed_end(rest) == #[trigger] rest.take(to);
        assert(rest.take(to) =~= text.take(to));
    } else {
        assert(text.take(text.len() as int) =~= text);
    }
}

/// A trimmed text has no white space at its ends and no character that the text did not have.
proof fn lemma_trimmed(text: Seq<char>, c: char)
    ensures
        crate::text::trimmed(text).len() > 0 ==> !crate::text::white_space(
            crate::text::trimmed(text)[0],
        ) && !crate::text::white_space(crate::text::trimmed(text).last()),
        crate::text::lacks(text, c) ==> crate::text::lacks(crate::text::trimmed(text), c),
{
    lemma_trimmed_start(text);
    let start = crate::text::trimmed_start(text);
    lemma_trimmed_end(start);
    let from = choose|from: int|
        0 <= from <= text.len() && start == #[trigger] text.skip(from);
    let to = choose|to: int|
        0 <= to <= start.len() && crate::text::trimmed_end(start) == #[trigger] start.take(to);
    if crate::text::lacks(text, c) {
        assert forall|i: int| 0 <= i < start.take(to).len() implies #[trigger] start.take(to)[i]
            != c by {
            assert(start.take(to)[i] == text[from + i]);
        }
    }
}

/// The pieces of a text are clean, and have no character that the text did not have.
proof fn lemma_pieces_clean(text: Seq<char>, separator: char, c: char)
    ensures
        forall|i: int|
            0 <= i < crate::text::pieces(text, separator).len() ==> clean(
                #[trigger] crate::text::pieces(text, separator)[i],
                separator,
            ) && (crate::text::lacks(text, c) ==> crate::text::lacks(crate::text::pieces(text, separator)[i], c)),
    decreases text.len(),
{
    let at = crate::text::first_at(text, separator);
    crate::text::lemma_first_at(text, separator);
    let own = text.take(at);
    assert(crate::text::lacks(own, separator)) by {
        assert forall|i: int| 0 <= i < own.len() implies #[trigger] own[i] != separator by {
            assert(own[i] == text[i]);
        }
    }
    if crate::text::lacks(text, c) {
        assert forall|i: int| 0 <= i < own.len() implies #[trigger] own[i] != c by {
            assert(own[i] == text[i]);
        }
    }
    lemma_trimmed(own, separator);
    lemma_trimmed(own, c);
    let all = crate::text::pieces(text, separator);
    let rest = if at < text.len() {
        crate::text::pieces(text.skip(at + 1), separator)
    } else {
        Seq::empty()
    };
    if at < text.len() {
        let later = text.skip(at + 1);
        lemma_pieces_clean(later, separator, c);
        if crate::text::lacks(text, c) {
            assert forall|i: int| 0 <= i < later.len() implies #[trigger] later[i] != c by {
                assert(later[i] == text[at + 1 + i]);
            }
        }
    }
    let piece = crate::text::trimmed(own);
    assert forall|i: int| 0 <= i < all.len() implies clean(#[trigger] all[i], separator) && (crate::text::lacks(
        text,
        c,
    ) ==> crate::text::lacks(all[i], c)) by {
        if piece.len() > 0 {
            assert(all == seq![piece] + rest);
            if i > 0 {
                assert(all[i] == rest[i - 1]);
            } else {
                assert(all[0] == piece);
            }
        } else {
            assert(all == rest);
        }
    }
}

proof fn lemma_joined_first(parts: Seq<Seq<char>>, separator: Seq<char>)
    requires
        parts.len() >= 2,
    ensures
        crate::text::joined(parts, separator) == parts[0] + separator + crate::text::joined(
            parts.drop_first(),
            separator,
        ),
    decreases parts.len(),
{
    let shorter = parts.drop_last();
    let rest = parts.drop_first();
    if parts.len() == 2 {
        assert(crate::text::joined(shorter, separator) == parts[0]);
        assert(crate::text::joined(rest, separator) == parts[1]);
    } else {
        lemma_joined_first(shorter, separator);
        assert(shorter.drop_first() =~= rest.drop_last());
        assert(rest.last() == parts.last());
        let middle = crate::text::joined(rest.drop_last(), separator);
        assert(crate::text::joined(rest, separator) == middle + separator + parts.last());
        assert(shorter[0] == parts[0]);
        assert((parts[0] + separator + middle) + separator + parts.last() =~= parts[0] + separator
            + (middle + separator + parts.last()));
    }
}

/// A list of clean items is read back from its text as it was.
pub proof fn law_list_reads_back(parts: Seq<Seq<char>>, separator: char)
    requires
        forall|i: int| 0 <= i < parts.len() ==> clean(#[trigger] parts[i], separator),
    ensures
        crate::text::pieces(crate::text::joined(parts, seq![separator]), separator) == parts,
    decreases parts.len(),
{
    let text = crate::text::joined(parts, seq![separator]);
    if parts.len() == 0 {
        assert(text.len() == 0);
        assert(text.take(0) =~= Seq::<char>::empty());
        assert(crate::text::pieces(text, separator) =~= parts);
    } else {
        let first = parts[0];
        let rest = parts.drop_first();
        assert(clean(parts[0], separator));
        assert forall|i: int| 0 <= i < rest.len() implies clean(#[trigger] rest[i], separator) by {
            assert(rest[i] == parts[i + 1]);
        }
        assert(crate::text::trimmed(first) == first);
        if parts.len() == 1 {
            crate::text::lemma_first_at_is(text, separator, first.len() as int);
            assert(text.take(first.len() as int) =~= first);
            assert(seq![first] + Seq::<Seq<char>>::empty() =~= parts);
        } else {
            lemma_joined_first(parts, seq![separator]);
            let tail = crate::text::joined(rest, seq![separator]);
            assert forall|i: int| 0 <= i < first.len() implies #[trigger] text[i] != separator by {
                assert(text[i] == first[i]);
            }
            crate::text::lemma_first_at_is(text, separator, first.len() as int);
            assert(text.take(first.len() as int) =~= first);
            assert(text.skip(first.len() as int + 1) =~= tail);
            law_list_reads_back(rest, separator);
            assert(seq![first] + rest =~= parts);
        }
    }
}

proof fn lemma_joined_ends(parts: Seq<Seq<char>>, separator: Seq<char>, c: char)
    requires
        parts.len() > 0,
        parts.last().len() > 0,
        crate::text::lacks(separator, c),
        forall|i: int| 0 <= i < parts.len() ==> crate::text::lacks(#[trigger] parts[i], c),
    ensures
        crate::text::joined(parts, separator).len() > 0,
        crate::text::joined(parts, separator).last() == parts.last().last(),
        crate::text::lacks(crate::text::joined(parts, separator), c),
    decreases parts.len(),
{
    let text = crate::text::joined(parts, separator);
    assert(crate::text::lacks(parts[parts.len() - 1], c));
    if parts.len() > 1 {
        let shorter = parts.drop_last();
        crate::text::lemma_joined_lacks(shorter, separator, c);
        let head = crate::text::joined(shorter, separator);
        assert forall|i: int| 0 <= i < text.len() implies #[trigger] text[i] != c by {
            if i < head.len() {
                assert(text[i] == head[i]);
            } else if i < head.len() + separator.len() {
                assert(text[i] == separator[i - head.len()]);
            } else {
                assert(text[i] == parts.last()[i - head.len() - separator.len()]);
            }
        }
        assert(text.last() == parts.last()[parts.last().len() - 1]);
    }
}

proof fn lemma_ot_entries_lack(vendors: Seq<Seq<char>>, c: char)
    requires
        forall|i: int| 0 <= i < vendors.len() ==> crate::text::lacks(#[trigger] vendors[i], c),
    ensures
        forall|i: int|
            0 <= i < ot_entries(vendors).len() ==> clean(#[trigger] ot_entries(vendors)[i], ';')
                && crate::text::lacks(ot_entries(vendors)[i], c),
    decreases vendors.len(),
{
    if vendors.len() > 0 {
        let rest = vendors.drop_first();
        assert forall|i: int| 0 <= i < rest.len() implies crate::text::lacks(#[trigger] rest[i], c) by {
            assert(rest[i] == vendors[i + 1]);
        }
        lemma_ot_entries_lack(rest, c);
        let all = ot_entries(vendors);
        match ot_value(vendors[0]) {
            Some(value) => {
                assert(crate::text::lacks(vendors[0], c));
                assert forall|i: int| 0 <= i < value.len() implies #[trigger] value[i] != c by {
                    assert(value[i] == vendors[0][i + 3]);
                }
                lemma_pieces_clean(value, ';', c);
                let own = crate::text::pieces(value, ';');
                assert forall|i: int| 0 <= i < all.len() implies clean(#[trigger] all[i], ';')
                    && crate::text::lacks(all[i], c) by {
                    if i < own.len() {
                        assert(all[i] == own[i]);
                    } else {
                        assert(all[i] == ot_entries(rest)[i - own.len()]);
                    }
                }
            },
            None => {
                assert(all =~= ot_entries(rest));
            },
        }
    }
}

proof fn lemma_no_ot_entries(vendors: Seq<Seq<char>>)
    requires
        forall|i: int| 0 <= i < vendors.len() ==> ot_value(#[trigger] vendors[i]) is None,
    ensures
        ot_entries(vendors).len() == 0,
    decreases vendors.len(),
{
    if vendors.len() > 0 {
        let rest = vendors.drop_first();
        assert forall|i: int| 0 <= i < rest.len() implies ot_value(#[trigger] rest[i]) is None by {
            assert(rest[i] == vendors[i + 1]);
        }
        assert(ot_value(vendors[0]) is None);
        lemma_no_ot_entries(rest);
    }
}

proof fn lemma_filter_keeps_all(list: Seq<Seq<char>>, wanted: spec_fn(Seq<char>) -> bool)
    requires
        forall|i: int| 0 <= i < list.len() ==> wanted(#[trigger] list[i]),
    ensures
        list.filter(wanted) == list,
    decreases list.len(),
{
    reveal(Seq::filter);
    if list.len() > 0 {
        let shorter = list.drop_last();
        assert forall|i: int| 0 <= i < shorter.len() implies wanted(#[trigger] shorter[i]) by {
            assert(shorter[i] == list[i]);
        }
        lemma_filter_keeps_all(shorter, wanted);
        assert(wanted(list[list.len() - 1]));
        assert(shorter.push(list.last()) =~= list);
    }
}

/// What is filtered out of a list of which every item has a property has it too.
proof fn lemma_filter_from(
    list: Seq<Seq<char>>,
    wanted: spec_fn(Seq<char>) -> bool,
    separator: char,
    c: char,
)
    requires
        forall|i: int|
            0 <= i < list.len() ==> clean(#[trigger] list[i], separator) && crate::text::lacks(list[i], c),
    ensures
        forall|i: int|
            0 <= i < list.filter(wanted).len() ==> clean(
                #[trigger] list.filter(wanted)[i],
                separator,
            ) && crate::text::lacks(list.filter(wanted)[i], c) && wanted(list.filter(wanted)[i]),
    decreases list.len(),
{
    reveal(Seq::filter);
    if list.len() > 0 {
        let shorter = list.drop_last();
        assert forall|i: int| 0 <= i < shorter.len() implies clean(#[trigger] shorter[i], separator)
            && crate::text::lacks(shorter[i], c) by {
            assert(shorter[i] == list[i]);
        }
        lemma_filter_from(shorter, wanted, separator, c);
        assert(clean(list[list.len() - 1], separator) && crate::text::lacks(list[list.len() - 1], c));
        let kept = shorter.filter(wanted);
        let all = list.filter(wanted);
        assert forall|i: int| 0 <= i < all.len() implies clean(#[trigger] all[i], separator)
            && crate::text::lacks(all[i], c) && wanted(all[i]) by {
            if i < kept.len() {
                assert(all[i] == kept[i]);
            } else {
                assert(all[i] == list.last());
            }
        }
    }
}

/// A trace state that is written from clean parts reads back as those parts.
proof fn lemma_written_reads_back(entries: Seq<Seq<char>>, others: Seq<Seq<char>>)
    requires
        entries.len() > 0,
        forall|i: int|
            0 <= i < entries.len() ==> clean(#[trigger] entries[i], ';') && crate::text::lacks(entries[i], ','),
        forall|i: int|
            0 <= i < others.len() ==> clean(#[trigger] others[i], ',') && ot_value(others[i])
                is None,
    ensures
        ot_entries(crate::text::pieces(written(entries, others), ',')) == entries,
        other_vendors(crate::text::pieces(written(entries, others), ',')) == others,
{
    let list = crate::text::joined(entries, seq![';']);
    let own = seq!['o', 't', '='] + list;
    let vendors = seq![own] + others;
    assert(clean(entries[entries.len() - 1], ';'));
    lemma_joined_ends(entries, seq![';'], ',');
    assert(own.skip(3) =~= list);
    assert(clean(own, ',')) by {
        assert forall|i: int| 0 <= i < own.len() implies #[trigger] own[i] != ',' by {
            if i >= 3 {
                assert(own[i] == list[i - 3]);
            }
        }
        assert(own.last() == list.last());
    }
    assert forall|i: int| 0 <= i < vendors.len() implies clean(#[trigger] vendors[i], ',') by {
        if i > 0 {
            assert(vendors[i] == others[i - 1]);
        }
    }
    law_list_reads_back(vendors, ',');
    law_list_reads_back(entries, ';');
    assert(vendors.drop_first() =~= others);
    lemma_no_ot_entries(others);
    assert(entries + ot_entries(others) =~= entries);
    let foreign = |vendor: Seq<char>| ot_value(vendor) is None;
    lemma_filter_keeps_all(others, foreign);
    assert(seq![own].filter(foreign) =~= Seq::<Seq<char>>::empty()) by {
        reveal(Seq::filter);
        assert(seq![own].drop_last() =~= Seq::<Seq<char>>::empty());
        assert(seq![own].last() == own);
    }
    Seq::filter_distributes_over_add(seq![own], others, foreign);
    assert(Seq::<Seq<char>>::empty() + others =~= others);
}

/// The parts of every trace state are clean.
proof fn lemma_state_parts(tracestate: Seq<char>)
    ensures
        ({
            let vendors = crate::text::pieces(tracestate, ',');
            &&& forall|i: int|
                0 <= i < ot_entries(vendors).len() ==> clean(
                    #[trigger] ot_entries(vendors)[i],
                    ';',
                ) && crate::text::lacks(ot_entries(vendors)[i], ',')
            &&& forall|i: int|
                0 <= i < other_vendors(vendors).len() ==> clean(
                    #[trigger] other_vendors(vendors)[i],
                    ',',
                ) && ot_value(other_vendors(vendors)[i]) is None
        }),
{
    let vendors = crate::text::pieces(tracestate, ',');
    lemma_pieces_clean(tracestate, ',', ',');
    assert forall|i: int| 0 <= i < vendors.len() implies crate::text::lacks(#[trigger] vendors[i], ',') by {
        assert(clean(vendors[i], ','));
    }
    lemma_ot_entries_lack(vendors, ',');
    assert forall|i: int| 0 <= i < vendors.len() implies clean(#[trigger] vendors[i], ',') && crate::text::lacks(
        vendors[i],
        ',',
    ) by {}
    lemma_filter_from(vendors, |vendor: Seq<char>| ot_value(vendor) is None, ',', ',');
}

/// After merging a clean sub-entry, the trace state has the `ot` sub-entries it had under other
/// keys, then the merged one, and the entries it had of other vendors.
pub proof fn law_merge(tracestate: Seq<char>, entry: Seq<char>)
    requires
        clean(entry, ';'),
        crate::text::lacks(entry, ','),
    ensures
        ot_entries(crate::text::pieces(merged(tracestate, entry), ',')) == entries_beside(
            ot_entries(crate::text::pieces(tracestate, ',')),
            entry,
        ).push(entry),
        other_vendors(crate::text::pieces(merged(tracestate, entry), ',')) == other_vendors(
            crate::text::pieces(tracestate, ','),
        ),
{
    let vendors = crate::text::pieces(tracestate, ',');
    lemma_state_parts(tracestate);
    let beside = |other: Seq<char>| sub_key(other) != sub_key(entry);
    lemma_filter_from(ot_entries(vendors), beside, ';', ',');
    let kept = entries_beside(ot_entries(vendors), entry);
    let entries = kept.push(entry);
    assert forall|i: int| 0 <= i < entries.len() implies clean(#[trigger] entries[i], ';') && crate::text::lacks(
        entries[i],
        ',',
    ) by {
        if i < kept.len() {
            assert(entries[i] == kept[i]);
        }
    }
    lemma_written_reads_back(entries, other_vendors(vendors));
}

/// Setting aside the entries under a key again, once one more stands there, leaves the same.
proof fn lemma_beside_again(entries: Seq<Seq<char>>, entry: Seq<char>)
    ensures
        entries_beside(entries_beside(entries, entry).push(entry), entry) == entries_beside(
            entries,
            entry,
        ),
{
    let beside = |other: Seq<char>| sub_key(other) != sub_key(entry);
    let kept = entries.filter(beside);
    assert forall|i: int| 0 <= i < kept.len() implies beside(#[trigger] kept[i]) by {
        entries.lemma_filter_pred(beside, i);
    }
    lemma_filter_keeps_all(kept, beside);
    lemma_last_filtered_out(kept, entry, beside);
}

/// A last item that is not wanted is filtered out.
proof fn lemma_last_filtered_out(
    list: Seq<Seq<char>>,
    last: Seq<char>,
    wanted: spec_fn(Seq<char>) -> bool,
)
    requires
        !wanted(last),
    ensures
        list.push(last).filter(wanted) == list.filter(wanted),
{
    reveal(Seq::filter);
    assert(list.push(last).drop_last() =~= list);
}

/// Merging a clean sub-entry again changes nothing.
pub proof fn law_merge_again(tracestate: Seq<char>, entry: Seq<char>)
    requires
        clean(entry, ';'),
        crate::text::lacks(entry, ','),
    ensures
        merged(merged(tracestate, entry), entry) == merged(tracestate, entry),
{
    law_merge(tracestate, entry);
    lemma_beside_again(ot_entries(crate::text::pieces(tracestate, ',')), entry);
}

/// A vendor entry is one of `ot` exactly if it begins with `ot=`, and its value is the rest.
pub proof fn law_ot_value(vendor: Seq<char>, value: Seq<char>)
    ensures
        ot_value(vendor) == Some(value) <==> vendor == "ot="@ + value,
{
    reveal_strlit("ot=");
    if vendor == "ot="@ + value {
        assert(vendor.skip(3) =~= value);
    }
    if ot_value(vendor) == Some(value) {
        assert(vendor =~= "ot="@ + value);
    }
}

/// The sub-entries of `ot` are those of each `ot` entry in turn, and the other vendors' entries
/// are all the others, in their order.
pub proof fn law_vendors(vendors: Seq<Seq<char>>, vendor: Seq<char>, value: Seq<char>)
    ensures
        ot_entries(Seq::empty()) == Seq::<Seq<char>>::empty(),
        other_vendors(Seq::empty()) == Seq::<Seq<char>>::empty(),
        vendor == "ot="@ + value ==> {
            &&& ot_entries(vendors.push(vendor)) == ot_entries(vendors) + crate::text::pieces(
                value,
                ';',
            )
            &&& other_vendors(vendors.push(vendor)) == other_vendors(vendors)
        },
        !(vendor.len() >= 3 && vendor.take(3) == "ot="@) ==> {
            &&& ot_entries(vendors.push(vendor)) == ot_entries(vendors)
            &&& other_vendors(vendors.push(vendor)) == other_vendors(vendors).push(vendor)
        },
{
    reveal_strlit("ot=");
    reveal(Seq::filter);
    assert(vendors.push(vendor).drop_last() =~= vendors);
    lemma_ot_entries_pushed(vendors, vendor);
    law_ot_value(vendor, value);
    if !(vendor.len() >= 3 && vendor.take(3) == "ot="@) {
        if ot_value(vendor) is Some {
            assert(vendor.take(3) =~= "ot="@);
        }
        assert(ot_entries(vendors) + Seq::<Seq<char>>::empty() =~= ot_entries(vendors));
    }
}

proof fn lemma_ot_entries_pushed(vendors: Seq<Seq<char>>, vendor: Seq<char>)
    ensures
        ot_entries(vendors.push(vendor)) == ot_entries(vendors) + match ot_value(vendor) {
            Some(value) => crate::text::pieces(value, ';'),
            None => Seq::empty(),
        },
    decreases vendors.len(),
{
    let all = vendors.push(vendor);
    let own = match ot_value(vendor) {
        Some(value) => crate::text::pieces(value, ';'),
        None => Seq::empty(),
    };
    if vendors.len() == 0 {
        assert(all.drop_first() =~= Seq::<Seq<char>>::empty());
        assert(all[0] == vendor);
        assert(ot_entries(all.drop_first()) =~= Seq::<Seq<char>>::empty());
        assert(own + Seq::<Seq<char>>::empty() =~= Seq::<Seq<char>>::empty() + own);
    } else {
        let rest = vendors.drop_first();
        assert(all.drop_first() =~= rest.push(vendor));
        lemma_ot_entries_pushed(rest, vendor);
        let first = match ot_value(vendors[0]) {
            Some(value) => crate::text::pieces(value, ';'),
            None => Seq::empty(),
        };
        assert(first + (ot_entries(rest) + own) =~= (first + ot_entries(rest)) + own);
    }
}

/// The key of a sub-entry is what stands before its first colon, or all of it without one.
pub proof fn law_sub_key(key: Seq<char>, value: Seq<char>)
    requires
        crate::text::lacks(key, ':'),
    ensures
        sub_key(key) == key,
        sub_key(key + seq![':'] + value) == key,
{
    crate::text::law_before_first(key, value, ':');
}

/// Of the sub-entries beside a new one, those under its key are left out and the others kept in
/// their order.
pub proof fn law_beside(entries: Seq<Seq<char>>, last: Seq<char>, entry: Seq<char>)
    ensures
        entries_beside(Seq::empty(), entry) == Seq::<Seq<char>>::empty(),
        sub_key(last) == sub_key(entry) ==> entries_beside(entries.push(last), entry)
            == entries_beside(entries, entry),
        sub_key(last) != sub_key(entry) ==> entries_beside(entries.push(last), entry)
            == entries_beside(entries, entry).push(last),
{
    reveal(Seq::filter);
    assert(entries.push(last).drop_last() =~= entries);
}

/// A merged trace state is written out as the `ot` entry, with its sub-entries behind each other
/// and the merged one last, and then the other vendors' entries as they were.
pub proof fn law_merged_text(tracestate: Seq<char>, entry: Seq<char>)
    ensures
        ({
            let vendors = crate::text::pieces(tracestate, ',');
            let entries = entries_beside(ot_entries(vendors), entry).push(entry);
            merged(tracestate, entry) == crate::text::joined(
                seq!["ot="@ + crate::text::joined(entries, seq![';'])] + other_vendors(vendors),
                seq![','],
            )
        }),
{
    reveal_strlit("ot=");
    assert("ot="@ =~= seq!['o', 't', '=']);
}

} // verus!
