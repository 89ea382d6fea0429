//! Text as sequences of characters: ordering, equality and decimal numerals.

use vstd::prelude::*;

verus! {

/// How one text stands to another in character order.
#[derive(Clone, Copy, Debug, PartialEq, Eq, Structural)]
pub enum TextOrder {
    Before,
    Same,
    After,
}

/// Lexicographic order of two texts by their characters' scalar values.
pub open spec fn text_order(a: Seq<char>, b: Seq<char>) -> TextOrder
    decreases a.len(),
{
    if a.len() == 0 {
        if b.len() == 0 {
            TextOrder::Same
        } else {
            TextOrder::Before
        }
    } else if b.len() == 0 {
        TextOrder::After
    } else if a[0] < b[0] {
        TextOrder::Before
    } else if b[0] < a[0] {
        TextOrder::After
    } else {
        text_order(a.drop_first(), b.drop_first())
    }
}

/// Two texts are in the same place exactly if they are equal, and swapping the
/// two texts swaps the verdict.
pub proof fn lemma_text_order_swap(a: Seq<char>, b: Seq<char>)
    ensures
        text_order(a, b) == TextOrder::Same <==> a == b,
        text_order(a, b) == TextOrder::Before <==> text_order(b, a) == TextOrder::After,
    decreases a.len(),
{
    if a.len() > 0 && b.len() > 0 {
        lemma_text_order_swap(a.drop_first(), b.drop_first());
        if a[0] == b[0] && a.drop_first() == b.drop_first() {
            assert(a =~= seq![a[0]] + a.drop_first());
            assert(b =~= seq![b[0]] + b.drop_first());
        }
    } else if a.len() == 0 && b.len() == 0 {
        assert(a =~= b);
    }
}

/// Character order is transitive.
pub proof fn lemma_text_order_transitive(a: Seq<char>, b: Seq<char>, c: Seq<char>)
    requires
        text_order(a, b) == TextOrder::Before,
        text_order(b, c) == TextOrder::Before,
    ensures
        text_order(a, c) == TextOrder::Before,
    decreases a.len(),
{
    if a.len() > 0 && b.len() > 0 && c.len() > 0 && a[0] == b[0] && b[0] == c[0] {
        lemma_text_order_transitive(a.drop_first(), b.drop_first(), c.drop_first());
    }
}

/// Compares two texts in character order.
pub fn compare_text(a: &str, b: &str) -> (r: TextOrder)
    ensures
        r == text_order(a@, b@),
{
    let mut left = a.chars();
    let mut right = b.chars();
    loop
        invariant
            text_order(
                vstd::std_specs::iter::IteratorSpec::remaining(&left),
                vstd::std_specs::iter::IteratorSpec::remaining(&right),
            ) == text_order(a@, b@),
            vstd::std_specs::iter::IteratorSpec::decrease(&left) is Some,
        decreases vstd::std_specs::iter::IteratorSpec::decrease(&left)->0,
    {
        match (left.next(), right.next()) {
            (Some(x), Some(y)) => {
                if x < y {
                    return TextOrder::Before;
                }
                if y < x {
                    return TextOrder::After;
                }
            },
            (Some(_), None) => return TextOrder::After,
            (None, Some(_)) => return TextOrder::Before,
            (None, None) => return TextOrder::Same,
        }
    }
}

/// Whether two texts are equal.
pub fn same_text(a: &str, b: &str) -> (r: bool)
    ensures
        r == (a@ == b@),
{
    proof {
        lemma_text_order_swap(a@, b@);
    }
    match compare_text(a, b) {
        TextOrder::Same => true,
        _ => false,
    }
}

/// The characters of a text.
pub fn chars_of(text: &str) -> (r: Vec<char>)
    ensures
        r@ == text@,
{
    let mut chars: Vec<char> = Vec::new();
    for c in it: text.chars()
        invariant
            chars@ == it.seq().take(it.index()),
            it.seq() == text@,
    {
        chars.push(c);
        assert(it.seq().take(it.index() + 1) =~= it.seq().take(it.index()).push(c));
    }
    assert(text@.take(text@.len() as int) =~= text@);
    chars
}

/// The views of a list of texts.
pub open spec fn texts(list: Seq<String>) -> Seq<Seq<char>> {
    list.map_values(|text: String| text@)
}

/// The texts of `parts` one after the other, with `separator` between neighbours.
pub open spec fn joined(parts: Seq<Seq<char>>, separator: Seq<char>) -> Seq<char>
    decreases parts.len(),
{
    if parts.len() == 0 {
        Seq::empty()
    } else if parts.len() == 1 {
        parts[0]
    } else {
        joined(parts.drop_last(), separator) + separator + parts.last()
    }
}

/// The decimal digit `n` as a character.
pub open spec fn digit_char(n: nat) -> char {
    (48 + n) as char
}

/// The decimal digits of a natural number, without leading zeros.
pub open spec fn digits(n: nat) -> Seq<char>
    decreases n,
{
    if n < 10 {
        seq![digit_char(n)]
    } else {
        digits(n / 10).push(digit_char(n % 10))
    }
}

/// An integer in decimal: its digits, after a minus sign where it is negative.
pub open spec fn decimal(n: int) -> Seq<char> {
    if n < 0 {
        seq!['-'] + digits((-n) as nat)
    } else {
        digits(n as nat)
    }
}

fn digit_text(n: u64) -> (r: &'static str)
    requires
        n < 10,
    ensures
        r@ == seq![digit_char(n as nat)],
{
    proof {
        reveal_strlit("0");
        reveal_strlit("1");
        reveal_strlit("2");
        reveal_strlit("3");
        reveal_strlit("4");
        reveal_strlit("5");
        reveal_strlit("6");
        reveal_strlit("7");
        reveal_strlit("8");
        reveal_strlit("9");
    }
    match n {
        0 => "0",
        1 => "1",
        2 => "2",
        3 => "3",
        4 => "4",
        5 => "5",
        6 => "6",
        7 => "7",
        8 => "8",
        _ => "9",
    }
}

fn digits_text(n: u64) -> (r: String)
    ensures
        r@ == digits(n as nat),
    decreases n,
{
    if n < 10 {
        digit_text(n).to_string()
    } else {
        let mut text = digits_text(n / 10);
        text.append(digit_text(n % 10));
        assert(text@ =~= digits((n / 10) as nat).push(digit_char((n % 10) as nat)));
        text
    }
}

/// An integer in decimal.
pub fn decimal_text(n: i64) -> (r: String)
    ensures
        r@ == decimal(n as int),
{
    if n < 0 {
        proof {
            reveal_strlit("-");
        }
        let magnitude: u64 = (-(n as i128)) as u64;
        let mut text = "-".to_string();
        text.append(digits_text(magnitude).as_str());
        assert(text@ =~= seq!['-'] + digits((-n) as nat));
        text
    } else {
        digits_text(n as u64)
    }
}

/// `String::from_utf8`: the text that the bytes encode, where they are valid UTF-8.
#[verifier::external_body]
pub(crate) fn utf8_text(bytes: Vec<u8>) -> (r: Option<String>)
    ensures
        match r {
            Some(text) => vstd::utf8::valid_utf8(bytes@) && text@ == vstd::utf8::decode_utf8(
                bytes@,
            ),
            None => !vstd::utf8::valid_utf8(bytes@),
        },
{
    String::from_utf8(bytes).ok()
}

/// Whether two byte strings are equal.
pub fn same_bytes(a: &[u8], b: &[u8]) -> (r: bool)
    ensures
        r == (a@ == b@),
{
    if a.len() != b.len() {
        return false;
    }
    let mut i: usize = 0;
    while i < a.len()
        invariant
            i <= a@.len(),
            a@.len() == b@.len(),
            forall|j: int| 0 <= j < i ==> a@[j] == b@[j],
        decreases a@.len() - i,
    {
        if a[i] != b[i] {
            return false;
        }
        i = i + 1;
    }
    assert(a@ =~= b@);
    true
}

/// The characters with the Unicode property `White_Space`.
pub open spec fn white_space(c: char) -> bool {
    ||| '\u{9}' <= c <= '\u{d}'
    ||| c == ' '
    ||| c == '\u{85}'
    ||| c == '\u{a0}'
    ||| c == '\u{1680}'
    ||| '\u{2000}' <= c <= '\u{200a}'
    ||| c == '\u{2028}'
    ||| c == '\u{2029}'
    ||| c == '\u{202f}'
    ||| c == '\u{205f}'
    ||| c == '\u{3000}'
}

fn is_white_space(c: char) -> (r: bool)
    ensures
        r == white_space(c),
{
    ('\u{9}' <= c && c <= '\u{d}') || c == ' ' || c == '\u{85}' || c == '\u{a0}' || c
        == '\u{1680}' || ('\u{2000}' <= c && c <= '\u{200a}') || c == '\u{2028}' || c
        == '\u{2029}' || c == '\u{202f}' || c == '\u{205f}' || c == '\u{3000}'
}

/// A text without the white space at its start.
pub open spec fn trimmed_start(text: Seq<char>) -> Seq<char>
    decreases text.len(),
{
    if text.len() > 0 && white_space(text[0]) {
        trimmed_start(text.drop_first())
    } else {
        text
    }
}

/// A text without the white space at its end.
pub open spec fn trimmed_end(text: Seq<char>) -> Seq<char>
    decreases text.len(),
{
    if text.len() > 0 && white_space(text.last()) {
        trimmed_end(text.drop_last())
    } else {
        text
    }
}

/// A text without the white space at its ends.
pub open spec fn trimmed(text: Seq<char>) -> Seq<char> {
    trimmed_end(trimmed_start(text))
}

/// Where `c` first stands in a text; the text's length where it does not.
pub open spec fn first_at(text: Seq<char>, c: char) -> int
    decreases text.len(),
{
    if text.len() == 0 || text[0] == c {
        0
    } else {
        1 + first_at(text.drop_first(), c)
    }
}

/// A text up to the first `c`; the whole text where there is none.
pub open spec fn before_first(text: Seq<char>, c: char) -> Seq<char> {
    text.take(first_at(text, c))
}

/// What stands between the separators of a text, trimmed, and without what is then empty.
pub open spec fn pieces(text: Seq<char>, separator: char) -> Seq<Seq<char>>
    decreases text.len(),
    via pieces_decreases
{
    let at = first_at(text, separator);
    let piece = trimmed(text.take(at));
    let rest = if at < text.len() {
        pieces(text.skip(at + 1), separator)
    } else {
        Seq::empty()
    };
    if piece.len() == 0 {
        rest
    } else {
        seq![piece] + rest
    }
}

#[via_fn]
proof fn pieces_decreases(text: Seq<char>, separator: char) {
    lemma_first_at(text, separator);
}

/// Where `c` first stands, it stands, and nowhere before.
pub proof fn lemma_first_at(text: Seq<char>, c: char)
    ensures
        0 <= first_at(text, c) <= text.len(),
        first_at(text, c) < text.len() ==> text[first_at(text, c)] == c,
        forall|i: int| 0 <= i < first_at(text, c) ==> #[trigger] text[i] != c,
    decreases text.len(),
{
    if text.len() > 0 && text[0] != c {
        let rest = text.drop_first();
        lemma_first_at(rest, c);
        assert forall|i: int| 0 <= i < first_at(text, c) implies #[trigger] text[i] != c by {
            if i > 0 {
                assert(rest[i - 1] == text[i]);
            }
        }
    }
}

/// A place where `c` stands with none before it, or the end of a text without it, is where it
/// first stands.
pub proof fn lemma_first_at_is(text: Seq<char>, c: char, at: int)
    requires
        0 <= at <= text.len(),
        at < text.len() ==> text[at] == c,
        forall|i: int| 0 <= i < at ==> #[trigger] text[i] != c,
    ensures
        first_at(text, c) == at,
{
    lemma_first_at(text, c);
    let found = first_at(text, c);
    if found < at {
        assert(text[found] == c);
    } else if at < found {
        assert(text[at] != c);
    }
}

/// The place where `c` first stands from `from` on; the end where it does not.
fn find_char(chars: &Vec<char>, from: usize, c: char) -> (r: usize)
    requires
        from <= chars@.len(),
    ensures
        r == from + first_at(chars@.skip(from as int), c),
        from <= r <= chars@.len(),
{
    let mut at: usize = from;
    let ghost rest = chars@.skip(from as int);
    while at < chars.len()
        invariant
            from <= at <= chars@.len(),
            rest == chars@.skip(from as int),
            forall|i: int| 0 <= i < at - from ==> #[trigger] rest[i] != c,
        decreases chars@.len() - at,
    {
        if chars[at] == c {
            proof {
                lemma_first_at_is(rest, c, at - from);
            }
            return at;
        }
        assert(rest[at - from] == chars@[at as int]);
        at = at + 1;
    }
    proof {
        lemma_first_at_is(rest, c, at - from);
    }
    at
}

/// The ends of a part of a text once it is trimmed.
fn trim_range(chars: &Vec<char>, from: usize, to: usize) -> (r: (usize, usize))
    requires
        from <= to <= chars@.len(),
    ensures
        from <= r.0 <= r.1 <= to,
        chars@.subrange(r.0 as int, r.1 as int) == trimmed(
            chars@.subrange(from as int, to as int),
        ),
{
    let mut start: usize = from;
    while start < to && is_white_space(chars[start])
        invariant
            from <= start <= to <= chars@.len(),
            trimmed_start(chars@.subrange(from as int, to as int)) == trimmed_start(
                chars@.subrange(start as int, to as int),
            ),
        decreases to - start,
    {
        assert(chars@.subrange(start as int, to as int).drop_first() =~= chars@.subrange(
            start + 1,
            to as int,
        ));
        start = start + 1;
    }
    let mut end: usize = to;
    while end > start && is_white_space(chars[end - 1])
        invariant
            from <= start <= end <= to <= chars@.len(),
            trimmed_end(chars@.subrange(start as int, to as int)) == trimmed_end(
                chars@.subrange(start as int, end as int),
            ),
        decreases end - start,
    {
        assert(chars@.subrange(start as int, end as int).drop_last() =~= chars@.subrange(
            start as int,
            end - 1,
        ));
        end = end - 1;
    }
    (start, end)
}

/// The views of a list of lent texts.
pub open spec fn lent_texts(list: Seq<&str>) -> Seq<Seq<char>> {
    list.map_values(|text: &str| text@)
}

/// What stands between the separators of a text, trimmed, and without what is then empty.
pub fn split_pieces<'a>(text: &'a str, separator: char) -> (r: Vec<&'a str>)
    ensures
        lent_texts(r@) == pieces(text@, separator),
{
    let chars = chars_of(text);
    let mut list: Vec<&'a str> = Vec::new();
    let mut from: usize = 0;
    assert(text@.skip(0) =~= text@);
    assert(lent_texts(list@) + pieces(text@, separator) =~= pieces(text@, separator));
    loop
        invariant
            from <= chars@.len(),
            chars@ == text@,
            lent_texts(list@) + pieces(text@.skip(from as int), separator) == pieces(
                text@,
                separator,
            ),
        decreases chars@.len() - from,
    {
        let ghost rest = text@.skip(from as int);
        let to = find_char(&chars, from, separator);
        assert(rest.take(to - from) =~= chars@.subrange(from as int, to as int));
        let (start, end) = trim_range(&chars, from, to);
        let ghost before = lent_texts(list@);
        let ghost tail = if to < chars@.len() {
            pieces(rest.skip(to - from + 1), separator)
        } else {
            Seq::empty()
        };
        if start < end {
            let piece = text.substring_char(start, end);
            list.push(piece);
            assert(lent_texts(list@) =~= before.push(piece@));
            assert(before + (seq![piece@] + tail) =~= before.push(piece@) + tail);
        }
        assert(lent_texts(list@) + tail == pieces(text@, separator));
        if to == chars.len() {
            assert(lent_texts(list@) + Seq::<Seq<char>>::empty() =~= lent_texts(list@));
            return list;
        }
        assert(rest.skip(to - from + 1) =~= text@.skip(to + 1));
        from = to + 1;
    }
}

/// A text up to the first `c`; the whole text where there is none.
pub fn take_before<'a>(text: &'a str, c: char) -> (r: &'a str)
    ensures
        r@ == before_first(text@, c),
{
    let chars = chars_of(text);
    assert(chars@.skip(0) =~= chars@);
    let at = find_char(&chars, 0, c);
    text.substring_char(0, at)
}

/// Texts one after the other, with a separator between neighbours.
pub fn join_texts(list: &Vec<&str>, separator: &str) -> (r: String)
    ensures
        r@ == joined(lent_texts(list@), separator@),
{
    let mut text = String::new();
    let mut i: usize = 0;
    let ghost all = lent_texts(list@);
    while i < list.len()
        invariant
            i <= list@.len(),
            all == lent_texts(list@),
            text@ == joined(all.take(i as int), separator@),
        decreases list@.len() - i,
    {
        assert(all.take(i + 1).drop_last() =~= all.take(i as int));
        if i > 0 {
            text.append(separator);
        }
        text.append(list[i]);
        proof {
            if i == 0 {
                assert(text@ =~= all[0]);
            }
        }
        i = i + 1;
    }
    assert(all.take(i as int) =~= all);
    text
}

/// A text does not hold a character.
pub open spec fn lacks(text: Seq<char>, c: char) -> bool {
    forall|i: int| 0 <= i < text.len() ==> #[trigger] text[i] != c
}

/// Joined texts hold no character that neither they nor the separator hold.
pub proof fn lemma_joined_lacks(parts: Seq<Seq<char>>, separator: Seq<char>, c: char)
    requires
        lacks(separator, c),
        forall|i: int| 0 <= i < parts.len() - 1 ==> lacks(#[trigger] parts[i], c),
        parts.len() > 0 ==> lacks(parts.last(), c),
    ensures
        lacks(joined(parts, separator), c),
    decreases parts.len(),
{
    if parts.len() > 1 {
        let shorter = parts.drop_last();
        assert(lacks(parts[parts.len() - 2], c));
        lemma_joined_lacks(shorter, separator, c);
        let text = joined(parts, separator);
        let head = joined(shorter, separator);
        assert forall|i: int| 0 <= i < text.len() implies #[trigger] text[i] != c by {
            if i < head.len() {
                assert(text[i] == head[i]);
            } else if i < head.len() + separator.len() {
                assert(text[i] == separator[i - head.len()]);
            } else {
                assert(text[i] == parts.last()[i - head.len() - separator.len()]);
            }
        }
    }
}

/// Nothing joined is empty, one text joined is itself, and each further text comes behind the
/// separator.
pub proof fn law_joined(parts: Seq<Seq<char>>, part: Seq<char>, separator: Seq<char>)
    ensures
        joined(Seq::empty(), separator) == Seq::<char>::empty(),
        joined(seq![part], separator) == part,
        parts.len() > 0 ==> joined(parts.push(part), separator) == joined(parts, separator)
            + separator + part,
{
    assert(parts.push(part).drop_last() =~= parts);
}

/// The number that decimal digits spell.
pub open spec fn spelled(text: Seq<char>) -> int
    decreases text.len(),
{
    if text.len() == 0 {
        0
    } else {
        10 * spelled(text.drop_last()) + (text.last() as int - '0' as int)
    }
}

proof fn lemma_digits_spell(n: nat)
    ensures
        spelled(digits(n)) == n,
        digits(n).len() > 0,
        forall|i: int| 0 <= i < digits(n).len() ==> '0' <= #[trigger] digits(n)[i] <= '9',
        n > 0 ==> digits(n)[0] != '0',
    decreases n,
{
    if n < 10 {
        assert(digits(n).drop_last() =~= Seq::<char>::empty());
        assert(spelled(digits(n).drop_last()) == 0);
    } else {
        let head = digits(n / 10);
        lemma_digits_spell(n / 10);
        assert(digits(n).drop_last() =~= head);
        assert(digits(n)[0] == head[0]);
        assert forall|i: int| 0 <= i < digits(n).len() implies '0' <= #[trigger] digits(n)[i]
            <= '9' by {
            if i < head.len() {
                assert(digits(n)[i] == head[i]);
            }
        }
    }
}

/// An integer in decimal spells the integer: digits without leading zeros, behind a minus sign
/// where it is negative.
pub proof fn law_decimal(n: int)
    ensures
        n >= 0 ==> spelled(decimal(n)) == n,
        n < 0 ==> decimal(n)[0] == '-' && spelled(decimal(n).drop_first()) == -n,
        decimal(n).len() > 0,
        forall|i: int|
            (if n < 0 {
                1int
            } else {
                0
            }) <= i < decimal(n).len() ==> '0' <= #[trigger] decimal(n)[i] <= '9',
        n > 0 ==> decimal(n)[0] != '0',
        n < 0 ==> decimal(n)[1] != '0',
        n == 0 ==> decimal(n) == seq!['0'],
{
    if n < 0 {
        lemma_digits_spell((-n) as nat);
        assert(decimal(n).drop_first() =~= digits((-n) as nat));
    } else {
        lemma_digits_spell(n as nat);
    }
}

/// Every character is white space that stands in a text.
pub open spec fn blank(text: Seq<char>) -> bool {
    forall|i: int| 0 <= i < text.len() ==> white_space(#[trigger] text[i])
}

proof fn lemma_trimmed_start_of(before: Seq<char>, text: Seq<char>)
    requires
        blank(before),
        text.len() > 0 ==> !white_space(text[0]),
    ensures
        trimmed_start(before + text) == text,
    decreases before.len(),
{
    if before.len() == 0 {
        assert(before + text =~= text);
    } else {
        let rest = before.drop_first();
        assert forall|i: int| 0 <= i < rest.len() implies white_space(#[trigger] rest[i]) by {
            assert(rest[i] == before[i + 1]);
        }
        lemma_trimmed_start_of(rest, text);
        assert(white_space(before[0]));
        assert((before + text).drop_first() =~= rest + text);
    }
}

proof fn lemma_trimmed_end_of(text: Seq<char>, after: Seq<char>)
    requires
        blank(after),
        text.len() > 0 ==> !white_space(text.last()),
    ensures
        trimmed_end(text + after) == text,
    decreases after.len(),
{
    if after.len() == 0 {
        assert(text + after =~= text);
    } else {
        let rest = after.drop_last();
        assert forall|i: int| 0 <= i < rest.len() implies white_space(#[trigger] rest[i]) by {
            assert(rest[i] == after[i]);
        }
        lemma_trimmed_end_of(text, rest);
        assert(white_space(after[after.len() - 1]));
        assert((text + after).drop_last() =~= text + rest);
    }
}

/// Trimming takes away the white space on both sides of a text and nothing else.
pub proof fn law_trimmed(before: Seq<char>, text: Seq<char>, after: Seq<char>)
    requires
        blank(before),
        blank(after),
        text.len() > 0 ==> !white_space(text[0]) && !white_space(text.last()),
    ensures
        trimmed(before + text + after) == text,
{
    if text.len() == 0 {
        let all = before + text + after;
        assert forall|i: int| 0 <= i < all.len() implies white_space(#[trigger] all[i]) by {
            if i < before.len() {
                assert(all[i] == before[i]);
            } else {
                assert(all[i] == after[i - before.len()]);
            }
        }
        lemma_trimmed_start_of(all, text);
        assert(all + text =~= all);
        assert(trimmed_end(text) =~= text);
    } else {
        let tail = text + after;
        assert(before + text + after =~= before + tail);
        lemma_trimmed_start_of(before, tail);
        lemma_trimmed_end_of(text, after);
    }
}

/// The white space of Unicode: tab to carriage return, space, next line, and the spaces and
/// separators beyond.
pub proof fn law_white_space(c: char)
    ensures
        white_space(c) <==> seq![
            '\u{9}',
            '\u{a}',
            '\u{b}',
            '\u{c}',
            '\u{d}',
            ' ',
            '\u{85}',
            '\u{a0}',
            '\u{1680}',
            '\u{2000}',
            '\u{2001}',
            '\u{2002}',
            '\u{2003}',
            '\u{2004}',
            '\u{2005}',
            '\u{2006}',
            '\u{2007}',
            '\u{2008}',
            '\u{2009}',
            '\u{200a}',
            '\u{2028}',
            '\u{2029}',
            '\u{202f}',
            '\u{205f}',
            '\u{3000}',
        ].contains(c),
{
    let all = seq![
        '\u{9}',
        '\u{a}',
        '\u{b}',
        '\u{c}',
        '\u{d}',
        ' ',
        '\u{85}',
        '\u{a0}',
        '\u{1680}',
        '\u{2000}',
        '\u{2001}',
        '\u{2002}',
        '\u{2003}',
        '\u{2004}',
        '\u{2005}',
        '\u{2006}',
        '\u{2007}',
        '\u{2008}',
        '\u{2009}',
        '\u{200a}',
        '\u{2028}',
        '\u{2029}',
        '\u{202f}',
        '\u{205f}',
        '\u{3000}',
    ];
    if white_space(c) {
        let at: int = if c <= '\u{d}' {
            c as int - 9
        } else if c == ' ' {
            5
        } else if c == '\u{85}' {
            6
        } else if c == '\u{a0}' {
            7
        } else if c == '\u{1680}' {
            8
        } else if c <= '\u{200a}' {
            c as int - 0x2000 + 9
        } else if c == '\u{2028}' {
            20
        } else if c == '\u{2029}' {
            21
        } else if c == '\u{202f}' {
            22
        } else if c == '\u{205f}' {
            23
        } else {
            24
        };
        assert(all[at] == c);
    }
}

/// A text falls apart at its first separator: what stands before it is one piece, trimmed,
/// unless that is empty, and the pieces of what stands behind it follow.
pub proof fn law_pieces(head: Seq<char>, tail: Seq<char>, separator: char)
    requires
        lacks(head, separator),
    ensures
        pieces(head, separator) == if trimmed(head).len() == 0 {
            Seq::<Seq<char>>::empty()
        } else {
            seq![trimmed(head)]
        },
        pieces(head + seq![separator] + tail, separator) == pieces(head, separator) + pieces(
            tail,
            separator,
        ),
{
    let whole = head + seq![separator] + tail;
    lemma_first_at_is(head, separator, head.len() as int);
    assert(head.take(head.len() as int) =~= head);
    assert forall|i: int| 0 <= i < head.len() implies #[trigger] whole[i] != separator by {
        assert(whole[i] == head[i]);
    }
    lemma_first_at_is(whole, separator, head.len() as int);
    assert(whole.take(head.len() as int) =~= head);
    assert(whole.skip(head.len() as int + 1) =~= tail);
    assert(seq![trimmed(head)] + Seq::<Seq<char>>::empty() =~= seq![trimmed(head)]);
    assert(Seq::<Seq<char>>::empty() + pieces(tail, separator) =~= pieces(tail, separator));
}

/// What stands before the first `c` of a text is the text up to it, or all of it without one.
pub proof fn law_before_first(head: Seq<char>, tail: Seq<char>, c: char)
    requires
        lacks(head, c),
    ensures
        before_first(head, c) == head,
        before_first(head + seq![c] + tail, c) == head,
{
    let whole = head + seq![c] + tail;
    lemma_first_at_is(head, c, head.len() as int);
    assert(head.take(head.len() as int) =~= head);
    assert forall|i: int| 0 <= i < head.len() implies #[trigger] whole[i] != c by {
        assert(whole[i] == head[i]);
    }
    lemma_first_at_is(whole, c, head.len() as int);
    assert(whole.take(head.len() as int) =~= head);
}

/// Texts are ordered by the first character in which they differ, and a text comes before one
/// that goes on after it.
pub proof fn law_text_order(
    common: Seq<char>,
    a: char,
    b: char,
    rest: Seq<char>,
    other: Seq<char>,
)
    ensures
        a < b ==> text_order(common + seq![a] + rest, common + seq![b] + other)
            == TextOrder::Before,
        text_order(common, common + seq![b] + other) == TextOrder::Before,
        text_order(common, common) == TextOrder::Same,
    decreases common.len(),
{
    let left = common + seq![a] + rest;
    let right = common + seq![b] + other;
    if common.len() == 0 {
        assert(left[0] == a);
        assert(right[0] == b);
    } else {
        let shorter = common.drop_first();
        law_text_order(shorter, a, b, rest, other);
        assert(left.drop_first() =~= shorter + seq![a] + rest);
        assert(right.drop_first() =~= shorter + seq![b] + other);
        assert(left[0] == common[0] && right[0] == common[0]);
    }
}

} // verus!
