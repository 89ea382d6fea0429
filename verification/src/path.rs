//! Paths into event values, and what reading, writing and removing at a path means.

use crate::text::chars_of;
use crate::value::{Tree, Value};
use crate::vrl_bridge::{from_vrl, vrl_insert, vrl_parse, vrl_path_text, vrl_remove};
use vstd::prelude::*;

verus! {

/// One step of a path: into an object's field, or to an array's item.
///
/// A negative index counts from the end of the array.
#[derive(Debug, PartialEq, Eq)]
pub enum PathSegment {
    Field(String),
    Index(isize),
}

/// What a [`PathSegment`] is.
#[verifier::ext_equal]
pub enum Step {
    Field(Seq<char>),
    Index(int),
}

impl PathSegment {
    /// What the segment is.
    pub open spec fn view(self) -> Step {
        match self {
            PathSegment::Field(field) => Step::Field(field@),
            PathSegment::Index(index) => Step::Index(index as int),
        }
    }

    fn duplicate(&self) -> (r: PathSegment)
        ensures
            r@ == self@,
    {
        match self {
            PathSegment::Field(field) => PathSegment::Field(field.clone()),
            PathSegment::Index(index) => PathSegment::Index(*index),
        }
    }
}

/// What the segments of a path are.
pub open spec fn steps(segments: Seq<PathSegment>) -> Seq<Step> {
    segments.map_values(|segment: PathSegment| segment@)
}

/// The position that `index` means in an array of length `len`.
pub open spec fn position(len: nat, index: int) -> int {
    if index < 0 {
        len + index
    } else {
        index
    }
}

/// The value at `path` inside `tree`.
pub open spec fn value_at(tree: Tree, path: Seq<Step>) -> Option<Tree>
    decreases path.len(),
{
    if path.len() == 0 {
        Some(tree)
    } else {
        match (path[0], tree) {
            (Step::Field(key), Tree::Object(fields)) => if fields.dom().contains(key) {
                value_at(fields[key], path.drop_first())
            } else {
                None
            },
            (Step::Index(index), Tree::Array(items)) => {
                let at = position(items.len(), index);
                if 0 <= at < items.len() {
                    value_at(items[at], path.drop_first())
                } else {
                    None
                }
            },
            _ => None,
        }
    }
}

/// `items` with `value` put at `index`: over the item there, or, outside the array, beyond
/// as many nulls as it takes.
pub open spec fn placed(items: Seq<Tree>, index: int, value: Tree) -> Seq<Tree> {
    let at = position(items.len(), index);
    if 0 <= at < items.len() {
        items.update(at, value)
    } else if at < 0 {
        seq![value] + Seq::new((-at - 1) as nat, |i: int| Tree::Null) + items
    } else {
        (items + Seq::new((at - items.len()) as nat, |i: int| Tree::Null)).push(value)
    }
}

/// `tree` with `value` put at `path`. Where a step meets no collection of its own sort,
/// a new one takes the place of what was there.
pub open spec fn put_at(tree: Option<Tree>, path: Seq<Step>, value: Tree) -> Tree
    decreases path.len(),
{
    if path.len() == 0 {
        value
    } else {
        match path[0] {
            Step::Field(key) => {
                let fields = match tree {
                    Some(Tree::Object(fields)) => fields,
                    _ => Map::empty(),
                };
                let inner = if fields.dom().contains(key) {
                    Some(fields[key])
                } else {
                    None
                };
                Tree::Object(fields.insert(key, put_at(inner, path.drop_first(), value)))
            },
            Step::Index(index) => {
                let items = match tree {
                    Some(Tree::Array(items)) => items,
                    _ => Seq::empty(),
                };
                let at = position(items.len(), index);
                let inner = if 0 <= at < items.len() {
                    Some(items[at])
                } else {
                    None
                };
                Tree::Array(placed(items, index, put_at(inner, path.drop_first(), value)))
            },
        }
    }
}

/// `tree` without the value at `path`. The root itself is emptied where it is a collection
/// and becomes null where it is not.
pub open spec fn removed_at(tree: Tree, path: Seq<Step>) -> Tree
    decreases path.len(),
{
    if path.len() == 0 {
        match tree {
            Tree::Object(_) => Tree::Object(Map::empty()),
            Tree::Array(_) => Tree::Array(Seq::empty()),
            _ => Tree::Null,
        }
    } else {
        match (path[0], tree) {
            (Step::Field(key), Tree::Object(fields)) => if !fields.dom().contains(key) {
                tree
            } else if path.len() == 1 {
                Tree::Object(fields.remove(key))
            } else {
                Tree::Object(fields.insert(key, removed_at(fields[key], path.drop_first())))
            },
            (Step::Index(index), Tree::Array(items)) => {
                let at = position(items.len(), index);
                if at < 0 || at >= items.len() {
                    tree
                } else if path.len() == 1 {
                    Tree::Array(items.remove(at))
                } else {
                    Tree::Array(items.update(at, removed_at(items[at], path.drop_first())))
                }
            },
            _ => tree,
        }
    }
}

/// Every index of the path is one up to which an array of values can be allocated.
pub open spec fn indexes_in_reach(path: Seq<Step>) -> bool {
    forall|i: int|
        0 <= i < path.len() ==> (#[trigger] path[i] matches Step::Index(index)
            ==> -(isize::MAX / 64) <= index < isize::MAX / 64)
}

/// A path that a configuration names.
#[derive(Debug, PartialEq, Eq)]
pub struct ConfigValuePath {
    pub segments: Vec<PathSegment>,
}

/// What is wrong with a path's text.
#[derive(Debug, PartialEq, Eq)]
pub enum PathParseError {
    InvalidPathSyntax { path: String },
}

/// The number that the digits at the head of `text` spell, after `so_far`.
pub open spec fn leading_number(text: Seq<char>, so_far: nat) -> nat
    decreases text.len(),
{
    if text.len() > 0 && '0' <= text[0] <= '9' {
        leading_number(text.drop_first(), so_far * 10 + (text[0] as nat - 48) as nat)
    } else {
        so_far
    }
}

/// No index in the text of a path is too large for an `isize`. A bracket inside a quoted
/// field starts no index.
pub open spec fn index_digits_fit(text: Seq<char>, quoted: bool) -> bool
    decreases text.len(),
{
    if text.len() == 0 {
        true
    } else if quoted {
        if text[0] == '\\' && text.len() > 1 {
            index_digits_fit(text.skip(2), true)
        } else {
            index_digits_fit(text.skip(1), text[0] != '"')
        }
    } else {
        &&& text[0] == '[' ==> if text.len() > 1 && text[1] == '-' {
            leading_number(text.skip(2), 0) <= isize::MAX + 1
        } else {
            leading_number(text.skip(1), 0) <= isize::MAX
        }
        &&& index_digits_fit(text.skip(1), text[0] == '"')
    }
}

proof fn lemma_leading_number_grows(text: Seq<char>, so_far: nat)
    ensures
        leading_number(text, so_far) >= so_far,
    decreases text.len(),
{
    if text.len() > 0 && '0' <= text[0] <= '9' {
        lemma_leading_number_grows(
            text.drop_first(),
            so_far * 10 + (text[0] as nat - 48) as nat,
        );
    }
}

fn number_fits(chars: &Vec<char>, from: usize, limit: u64) -> (r: bool)
    requires
        from <= chars@.len(),
    ensures
        r == (leading_number(chars@.skip(from as int), 0) <= limit),
{
    let mut at: usize = from;
    let mut number: u128 = 0;
    while at < chars.len()
        invariant
            from <= at <= chars@.len(),
            number <= limit,
            leading_number(chars@.skip(from as int), 0) == leading_number(
                chars@.skip(at as int),
                number as nat,
            ),
        decreases chars@.len() - at,
    {
        let c = chars[at];
        assert(chars@.skip(at as int).drop_first() =~= chars@.skip(at + 1));
        if c < '0' || '9' < c {
            return true;
        }
        number = number * 10 + (c as u128 - 48);
        if number > limit as u128 {
            proof {
                lemma_leading_number_grows(chars@.skip(at + 1), number as nat);
            }
            return false;
        }
        at = at + 1;
    }
    true
}

/// Whether no index in the text of a path is too large for an `isize`.
pub fn path_indexes_fit(text: &str) -> (r: bool)
    ensures
        r == index_digits_fit(text@, false),
{
    let chars = chars_of(text);
    let mut at: usize = 0;
    let mut quoted = false;
    assert(chars@.skip(0) =~= chars@);
    while at < chars.len()
        invariant
            at <= chars@.len(),
            chars@ == text@,
            index_digits_fit(text@, false) == index_digits_fit(chars@.skip(at as int), quoted),
        decreases chars@.len() - at,
    {
        let c = chars[at];
        let ghost rest = chars@.skip(at as int);
        assert(rest.skip(1) =~= chars@.skip(at + 1));
        if quoted {
            if c == '\\' && at + 1 < chars.len() {
                assert(rest.skip(2) =~= chars@.skip(at + 2));
                at = at + 2;
            } else {
                quoted = c != '"';
                at = at + 1;
            }
        } else {
            if c == '[' {
                let fits = if at + 1 < chars.len() && chars[at + 1] == '-' {
                    assert(rest.skip(2) =~= chars@.skip(at + 2));
                    number_fits(&chars, at + 2, isize::MAX as u64 + 1)
                } else {
                    number_fits(&chars, at + 1, isize::MAX as u64)
                };
                if !fits {
                    return false;
                }
            }
            quoted = c == '"';
            at = at + 1;
        }
    }
    true
}

/// A field's characters, with a backslash before quotes and backslashes.
pub open spec fn escaped(field: Seq<char>) -> Seq<char>
    decreases field.len(),
{
    if field.len() == 0 {
        Seq::empty()
    } else if field[0] == '"' || field[0] == '\\' {
        seq!['\\', field[0]] + escaped(field.drop_first())
    } else {
        seq![field[0]] + escaped(field.drop_first())
    }
}

/// A field in the text of a path: as it is where it is plain, else in quotes.
pub open spec fn rendered_field(field: Seq<char>) -> Seq<char> {
    if crate::vrl_bridge::plain_field(field) {
        field
    } else {
        seq!['"'] + escaped(field) + seq!['"']
    }
}

/// The text of a path.
pub open spec fn rendered(path: Seq<Step>) -> Seq<char>
    decreases path.len(),
{
    if path.len() == 0 {
        Seq::empty()
    } else {
        let before = rendered(path.drop_last());
        match path.last() {
            Step::Field(field) => if path.len() == 1 {
                before + rendered_field(field)
            } else {
                before + seq!['.'] + rendered_field(field)
            },
            Step::Index(index) => before + seq!['['] + crate::text::decimal(index) + seq![']'],
        }
    }
}

/// Plain fields are written with dots between them.
pub proof fn law_plain_path_text(fields: Seq<Seq<char>>)
    requires
        fields.len() > 0 ==> crate::vrl_bridge::plain_fields(fields),
    ensures
        rendered(crate::vrl_bridge::field_steps(fields)) == crate::text::joined(
            fields,
            seq!['.'],
        ),
    decreases fields.len(),
{
    let path = crate::vrl_bridge::field_steps(fields);
    if fields.len() > 0 {
        let shorter = fields.drop_last();
        assert forall|i: int| 0 <= i < shorter.len() implies crate::vrl_bridge::plain_field(
            #[trigger] shorter[i],
        ) by {
            assert(shorter[i] == fields[i]);
        }
        law_plain_path_text(shorter);
        assert(path.drop_last() =~= crate::vrl_bridge::field_steps(shorter));
        assert(crate::vrl_bridge::plain_field(fields[fields.len() - 1]));
        if fields.len() == 1 {
            assert(rendered(path) =~= fields[0]);
        }
    }
}

proof fn lemma_no_indexes(text: Seq<char>)
    requires
        crate::text::lacks(text, '['),
        crate::text::lacks(text, '"'),
    ensures
        index_digits_fit(text, false),
    decreases text.len(),
{
    if text.len() > 0 {
        let rest = text.skip(1);
        assert forall|i: int| 0 <= i < rest.len() implies #[trigger] rest[i] != '[' && rest[i]
            != '"' by {
            assert(rest[i] == text[i + 1]);
        }
        lemma_no_indexes(rest);
        assert(text[0] != '[' && text[0] != '"');
    }
}

/// The text of plain fields has no index in it.
pub proof fn lemma_plain_text_fits(fields: Seq<Seq<char>>)
    requires
        crate::vrl_bridge::plain_fields(fields),
    ensures
        index_digits_fit(crate::text::joined(fields, seq!['.']), false),
{
    assert forall|i: int| 0 <= i < fields.len() implies crate::text::lacks(#[trigger] fields[i], '[')
        && crate::text::lacks(fields[i], '"') by {
        assert(crate::vrl_bridge::plain_field(fields[i]));
    }
    assert(crate::text::lacks(fields[fields.len() - 1], '['));
    crate::text::lemma_joined_lacks(fields, seq!['.'], '[');
    crate::text::lemma_joined_lacks(fields, seq!['.'], '"');
    lemma_no_indexes(crate::text::joined(fields, seq!['.']));
}

impl Value {
    /// The value at a path.
    pub fn get_at(&self, path: &Vec<PathSegment>) -> (r: Option<&Value>)
        ensures
            crate::value::tree_at(r) == value_at(self@, steps(path@)),
    {
        broadcast use crate::value::lemma_array_view;

        let ghost all = steps(path@);
        let mut value = self;
        let mut i: usize = 0;
        assert(all.skip(0) =~= all);
        while i < path.len()
            invariant
                i <= path@.len(),
                all == steps(path@),
                value_at(self@, all) == value_at(value@, all.skip(i as int)),
            decreases path@.len() - i,
        {
            broadcast use crate::value::lemma_array_view;

            assert(all.skip(i as int).drop_first() =~= all.skip(i + 1));
            match (&path[i], value) {
                (PathSegment::Field(field), Value::Object(object)) => match object.get(
                    field.as_str(),
                ) {
                    Some(inner) => {
                        value = inner;
                    },
                    None => {
                        return None;
                    },
                },
                (PathSegment::Index(index), Value::Array(items)) => {
                    let index: isize = *index;
                    let len: usize = items.len();
                    let at: i128 = if index < 0 {
                        len as i128 + index as i128
                    } else {
                        index as i128
                    };
                    if at < 0 || at >= len as i128 {
                        return None;
                    }
                    value = &items[at as usize];
                },
                _ => {
                    return None;
                },
            }
            i = i + 1;
        }
        assert(all.skip(i as int) =~= Seq::<Step>::empty());
        Some(value)
    }

    /// Puts a value at a path, and returns what was there. An index up to which no array can
    /// be allocated is left out.
    pub fn insert_at(&mut self, path: &Vec<PathSegment>, value: Value) -> (r: Option<Value>)
        requires
            indexes_in_reach(steps(path@)),
        ensures
            final(self)@ == put_at(Some(old(self)@), steps(path@), value@),
            crate::value::tree_of(r) == value_at(old(self)@, steps(path@)),
    {
        let mut whole = Value::Null;
        std::mem::swap(&mut whole, self);
        let mut target = whole.into_vrl();
        let before = vrl_insert(&mut target, path, value.into_vrl());
        *self = from_vrl(target);
        match before {
            Some(before) => Some(from_vrl(before)),
            None => None,
        }
    }

    /// Takes the value at a path out, and returns it.
    pub fn remove_at(&mut self, path: &Vec<PathSegment>) -> (r: Option<Value>)
        ensures
            final(self)@ == removed_at(old(self)@, steps(path@)),
            crate::value::tree_of(r) == value_at(old(self)@, steps(path@)),
    {
        let mut whole = Value::Null;
        std::mem::swap(&mut whole, self);
        let mut target = whole.into_vrl();
        let taken = vrl_remove(&mut target, path);
        *self = from_vrl(target);
        match taken {
            Some(taken) => Some(from_vrl(taken)),
            None => None,
        }
    }
}

impl ConfigValuePath {
    /// The steps of the path.
    pub open spec fn view(self) -> Seq<Step> {
        steps(self.segments@)
    }

    /// Reads a path. A text with an index that fits no `isize` is left out.
    pub fn try_from(path: String) -> (r: Result<ConfigValuePath, PathParseError>)
        requires
            index_digits_fit(path@, false),
        ensures
            match r {
                Ok(parsed) => crate::vrl_bridge::parsed_path(path@) == Some(parsed@),
                Err(PathParseError::InvalidPathSyntax { path: text }) =>
                    crate::vrl_bridge::parsed_path(path@) is None && text@ == path@,
            },
            forall|fields: Seq<Seq<char>>|
                crate::vrl_bridge::plain_fields(fields) && #[trigger] crate::text::joined(
                    fields,
                    seq!['.'],
                ) == path@ ==> r is Ok && r->Ok_0@ == crate::vrl_bridge::field_steps(fields),
    {
        match vrl_parse(path.as_str()) {
            Some(segments) => Ok(ConfigValuePath { segments }),
            None => Err(PathParseError::InvalidPathSyntax { path }),
        }
    }

    /// The path's text.
    pub fn to_text(&self) -> (r: String)
        ensures
            r@ == rendered(self@),
    {
        vrl_path_text(&self.segments)
    }

    /// The path one field further.
    pub fn with_field_appended(&self, field: &str) -> (r: ConfigValuePath)
        ensures
            r@ == self@.push(Step::Field(field@)),
    {
        let mut longer = self.clone();
        longer.segments.push(PathSegment::Field(field.to_string()));
        assert(longer@ =~= self@.push(Step::Field(field@)));
        longer
    }

    /// Whether every index of the path is one up to which an array can be allocated.
    pub fn in_reach(&self) -> (r: bool)
        ensures
            r == indexes_in_reach(self@),
    {
        let mut i: usize = 0;
        while i < self.segments.len()
            invariant
                i <= self.segments@.len(),
                indexes_in_reach(self@.take(i as int)),
            decreases self.segments@.len() - i,
        {
            match &self.segments[i] {
                PathSegment::Index(index) => {
                    let index: isize = *index;
                    let limit: isize = isize::MAX / 64;
                    if index < -limit || index >= limit {
                        assert(self@[i as int] == Step::Index(index as int));
                        return false;
                    }
                },
                PathSegment::Field(_) => {},
            }
            i = i + 1;
            proof {
                let path = self@.take(i as int);
                assert forall|j: int| 0 <= j < path.len() implies (
                #[trigger] path[j] matches Step::Index(index) ==> -(isize::MAX / 64) <= index
                    < isize::MAX / 64) by {
                    if j < i - 1 {
                        assert(path[j] == self@.take(i - 1)[j]);
                    }
                }
            }
        }
        assert(self@.take(i as int) =~= self@);
        true
    }
}

impl Clone for ConfigValuePath {
    /// The same path again.
    fn clone(&self) -> (r: ConfigValuePath)
        ensures
            r@ == self@,
    {
        let mut segments: Vec<PathSegment> = Vec::new();
        let mut i: usize = 0;
        while i < self.segments.len()
            invariant
                i <= self.segments@.len(),
                segments@.len() == i,
                forall|j: int| 0 <= j < i ==> (#[trigger] segments@[j])@ == self.segments@[j]@,
            decreases self.segments@.len() - i,
        {
            segments.push(self.segments[i].duplicate());
            i = i + 1;
        }
        assert(steps(segments@) =~= self@);
        ConfigValuePath { segments }
    }
}

proof fn lemma_placed(items: Seq<Tree>, index: int, value: Tree)
    ensures
        ({
            let now = placed(items, index, value);
            let at = position(now.len(), index);
            0 <= at < now.len() && now[at] == value
        }),
{
}

/// What was put at a path is there.
pub proof fn law_put_then_get(tree: Option<Tree>, path: Seq<Step>, value: Tree)
    ensures
        value_at(put_at(tree, path, value), path) == Some(value),
    decreases path.len(),
{
    if path.len() > 0 {
        match path[0] {
            Step::Field(key) => {
                let fields = match tree {
                    Some(Tree::Object(fields)) => fields,
                    _ => Map::empty(),
                };
                let inner = if fields.dom().contains(key) {
                    Some(fields[key])
                } else {
                    None
                };
                law_put_then_get(inner, path.drop_first(), value);
            },
            Step::Index(index) => {
                let items = match tree {
                    Some(Tree::Array(items)) => items,
                    _ => Seq::empty(),
                };
                let at = position(items.len(), index);
                let inner = if 0 <= at < items.len() {
                    Some(items[at])
                } else {
                    None
                };
                law_put_then_get(inner, path.drop_first(), value);
                lemma_placed(items, index, put_at(inner, path.drop_first(), value));
            },
        }
    }
}

/// Where nothing stands, nothing is removed.
pub proof fn lemma_nothing_removed(tree: Tree, path: Seq<Step>)
    requires
        value_at(tree, path) is None,
    ensures
        removed_at(tree, path) == tree,
    decreases path.len(),
{
    let rest = path.drop_first();
    match (path[0], tree) {
        (Step::Field(key), Tree::Object(fields)) => {
            if fields.dom().contains(key) {
                if path.len() == 1 {
                    assert(value_at(fields[key], rest) is Some);
                } else {
                    lemma_nothing_removed(fields[key], rest);
                    assert(fields.insert(key, fields[key]) =~= fields);
                }
            }
        },
        (Step::Index(index), Tree::Array(items)) => {
            let at = position(items.len(), index);
            if 0 <= at < items.len() {
                if path.len() == 1 {
                    assert(value_at(items[at], rest) is Some);
                } else {
                    lemma_nothing_removed(items[at], rest);
                    assert(items.update(at, items[at]) =~= items);
                }
            }
        },
        _ => {},
    }
}

/// A field that was removed is gone. (In place of a removed array item stands the next one.)
pub proof fn law_remove_then_get(tree: Tree, path: Seq<Step>)
    requires
        path.len() > 0,
        path.last() is Field,
    ensures
        value_at(removed_at(tree, path), path) is None,
    decreases path.len(),
{
    let rest = path.drop_first();
    if path.len() > 1 {
        assert(rest.last() == path.last());
        match (path[0], tree) {
            (Step::Field(key), Tree::Object(fields)) => {
                if fields.dom().contains(key) {
                    law_remove_then_get(fields[key], rest);
                }
            },
            (Step::Index(index), Tree::Array(items)) => {
                let at = position(items.len(), index);
                if 0 <= at < items.len() {
                    law_remove_then_get(items[at], rest);
                }
            },
            _ => {},
        }
    }
}

/// Two paths part at a field: they take the same steps up to one where they name different
/// fields.
pub open spec fn part_at_field(a: Seq<Step>, b: Seq<Step>) -> bool
    decreases a.len(),
{
    if a.len() == 0 || b.len() == 0 {
        false
    } else if a[0] == b[0] {
        part_at_field(a.drop_first(), b.drop_first())
    } else {
        a[0] is Field && b[0] is Field
    }
}

/// The value at a missing place is missing.
pub open spec fn value_in(tree: Option<Tree>, path: Seq<Step>) -> Option<Tree> {
    match tree {
        Some(tree) => value_at(tree, path),
        None => None,
    }
}

/// Putting a value at a path leaves alone what stands at a path that parts from it at a field.
pub proof fn law_put_elsewhere(
    tree: Option<Tree>,
    path: Seq<Step>,
    value: Tree,
    other: Seq<Step>,
)
    requires
        part_at_field(path, other),
    ensures
        value_at(put_at(tree, path, value), other) == value_in(tree, other),
    decreases path.len(),
{
    match path[0] {
        Step::Field(key) => {
            let fields = match tree {
                Some(Tree::Object(fields)) => fields,
                _ => Map::empty(),
            };
            if path[0] == other[0] {
                let inner = if fields.dom().contains(key) {
                    Some(fields[key])
                } else {
                    None
                };
                law_put_elsewhere(inner, path.drop_first(), value, other.drop_first());
            }
        },
        Step::Index(index) => {
            let items = match tree {
                Some(Tree::Array(items)) => items,
                _ => Seq::empty(),
            };
            let at = position(items.len(), index);
            let inner = if 0 <= at < items.len() {
                Some(items[at])
            } else {
                None
            };
            law_put_elsewhere(inner, path.drop_first(), value, other.drop_first());
            lemma_placed(items, index, put_at(inner, path.drop_first(), value));
        },
    }
}

/// Removing what stands at a path leaves alone what stands at a path that parts from it at a
/// field.
pub proof fn law_remove_elsewhere(tree: Tree, path: Seq<Step>, other: Seq<Step>)
    requires
        part_at_field(path, other),
    ensures
        value_at(removed_at(tree, path), other) == value_at(tree, other),
    decreases path.len(),
{
    if path[0] == other[0] {
        assert(part_at_field(path.drop_first(), other.drop_first()));
        match (path[0], tree) {
            (Step::Field(key), Tree::Object(fields)) => {
                if fields.dom().contains(key) {
                    law_remove_elsewhere(fields[key], path.drop_first(), other.drop_first());
                }
            },
            (Step::Index(index), Tree::Array(items)) => {
                let at = position(items.len(), index);
                if 0 <= at < items.len() {
                    law_remove_elsewhere(items[at], path.drop_first(), other.drop_first());
                }
            },
            _ => {},
        }
    }
}

/// A path is written step by step: a field behind a dot, unless it is the first step, and an
/// index in brackets. A field that is not plain stands in quotes, with a backslash before quotes
/// and backslashes.
pub proof fn law_path_text(path: Seq<Step>, field: Seq<char>, index: int, c: char)
    ensures
        rendered(Seq::empty()) == Seq::<char>::empty(),
        rendered(seq![Step::Field(field)]) == rendered_field(field),
        path.len() > 0 ==> rendered(path.push(Step::Field(field))) == rendered(path) + seq!['.']
            + rendered_field(field),
        rendered(path.push(Step::Index(index))) == rendered(path) + seq!['[']
            + crate::text::decimal(index) + seq![']'],
        crate::vrl_bridge::plain_field(field) ==> rendered_field(field) == field,
        !crate::vrl_bridge::plain_field(field) ==> rendered_field(field) == seq!['"'] + escaped(
            field,
        ) + seq!['"'],
        escaped(Seq::empty()) == Seq::<char>::empty(),
        escaped(seq![c] + field) == (if c == '"' || c == '\\' {
            seq!['\\', c]
        } else {
            seq![c]
        }) + escaped(field),
{
    assert(path.push(Step::Field(field)).drop_last() =~= path);
    assert(path.push(Step::Index(index)).drop_last() =~= path);
    assert(seq![Step::Field(field)].drop_last() =~= Seq::<Step>::empty());
    assert(rendered(seq![Step::Field(field)].drop_last()) =~= Seq::<char>::empty());
    assert(Seq::<char>::empty() + rendered_field(field) =~= rendered_field(field));
    assert((seq![c] + field).drop_first() =~= field);
}

/// Characters are all decimal digits.
pub open spec fn all_digits(text: Seq<char>) -> bool {
    forall|i: int| 0 <= i < text.len() ==> '0' <= #[trigger] text[i] <= '9'
}

proof fn lemma_number_goes_on(head: Seq<char>, tail: Seq<char>, so_far: nat)
    requires
        all_digits(head),
    ensures
        leading_number(head + tail, so_far) == leading_number(
            tail,
            leading_number(head, so_far),
        ),
    decreases head.len(),
{
    if head.len() == 0 {
        assert(head + tail =~= tail);
    } else {
        let rest = head.drop_first();
        assert forall|i: int| 0 <= i < rest.len() implies '0' <= #[trigger] rest[i] <= '9' by {
            assert(rest[i] == head[i + 1]);
        }
        assert('0' <= head[0] <= '9');
        assert((head + tail).drop_first() =~= rest + tail);
        lemma_number_goes_on(rest, tail, so_far * 10 + (head[0] as nat - 48) as nat);
    }
}

proof fn lemma_digits_lead(n: nat)
    ensures
        leading_number(crate::text::digits(n), 0) == n,
        all_digits(crate::text::digits(n)),
    decreases n,
{
    let none = Seq::<char>::empty();
    let last = seq![crate::text::digit_char(n % 10)];
    assert(last.drop_first() =~= none);
    reveal_with_fuel(leading_number, 2);
    if n >= 10 {
        let head = crate::text::digits(n / 10);
        lemma_digits_lead(n / 10);
        assert(crate::text::digits(n) =~= head + last);
        lemma_number_goes_on(head, last, 0);
        assert forall|i: int| 0 <= i < crate::text::digits(n).len() implies '0'
            <= #[trigger] crate::text::digits(n)[i] <= '9' by {
            if i < head.len() {
                assert(crate::text::digits(n)[i] == head[i]);
            }
        }
    } else {
        assert(crate::text::digits(n) =~= last);
    }
}

/// What holds neither a bracket nor a quote does not matter for the sizes of indexes, and
/// neither does a quoted field.
pub proof fn law_plain_text_has_no_index(head: Seq<char>, tail: Seq<char>)
    requires
        crate::text::lacks(head, '"'),
    ensures
        crate::text::lacks(head, '[') ==> index_digits_fit(head + tail, false)
            == index_digits_fit(tail, false),
        crate::text::lacks(head, '\\') ==> index_digits_fit(
            seq!['"'] + head + seq!['"'] + tail,
            false,
        ) == index_digits_fit(tail, false),
    decreases head.len(),
{
    if crate::text::lacks(head, '[') {
        if head.len() == 0 {
            assert(head + tail =~= tail);
        } else {
            let rest = head.drop_first();
            assert forall|i: int| 0 <= i < rest.len() implies #[trigger] rest[i] != '"' && rest[i]
                != '[' by {
                assert(rest[i] == head[i + 1]);
            }
            law_plain_text_has_no_index(rest, tail);
            assert(head[0] != '[' && head[0] != '"');
            assert((head + tail).skip(1) =~= rest + tail);
        }
    }
    if crate::text::lacks(head, '\\') {
        let quoted = seq!['"'] + head + seq!['"'] + tail;
        assert(quoted.skip(1) =~= head + seq!['"'] + tail);
        lemma_quoted(head, tail);
    }
}

proof fn lemma_quoted(head: Seq<char>, tail: Seq<char>)
    requires
        crate::text::lacks(head, '"'),
        crate::text::lacks(head, '\\'),
    ensures
        index_digits_fit(head + seq!['"'] + tail, true) == index_digits_fit(tail, false),
    decreases head.len(),
{
    let text = head + seq!['"'] + tail;
    if head.len() == 0 {
        assert(text[0] == '"');
        assert(text.skip(1) =~= tail);
    } else {
        let rest = head.drop_first();
        assert forall|i: int| 0 <= i < rest.len() implies #[trigger] rest[i] != '"' && rest[i]
            != '\\' by {
            assert(rest[i] == head[i + 1]);
        }
        lemma_quoted(rest, tail);
        assert(text[0] == head[0]);
        assert(head[0] != '"' && head[0] != '\\');
        assert(text.skip(1) =~= rest + seq!['"'] + tail);
    }
}

/// An index fits exactly if an `isize` holds it: up to the largest one, or, behind a minus sign,
/// down to the smallest.
pub proof fn law_index_fits(n: nat, tail: Seq<char>)
    ensures
        index_digits_fit(seq!['['] + crate::text::digits(n) + seq![']'] + tail, false) <==> n
            <= isize::MAX && index_digits_fit(tail, false),
        index_digits_fit(seq!['[', '-'] + crate::text::digits(n) + seq![']'] + tail, false)
            <==> -n >= isize::MIN && index_digits_fit(tail, false),
{
    let number = crate::text::digits(n);
    let after = seq![']'] + tail;
    lemma_digits_lead(n);
    lemma_number_goes_on(number, after, 0);
    assert(after[0] == ']');
    let plain = number + seq![']'];
    assert forall|i: int| 0 <= i < plain.len() implies #[trigger] plain[i] != '"' && plain[i]
        != '[' by {
        if i < number.len() {
            assert(plain[i] == number[i]);
        }
    }
    law_plain_text_has_no_index(plain, tail);
    assert(number + after =~= plain + tail);
    let up = seq!['['] + number + seq![']'] + tail;
    assert(up.skip(1) =~= number + after);
    assert(number.len() > 0);
    assert(up[1] == number[0]);
    let down = seq!['[', '-'] + number + seq![']'] + tail;
    assert(down.skip(2) =~= number + after);
    let signed = seq!['-'] + plain;
    assert forall|i: int| 0 <= i < signed.len() implies #[trigger] signed[i] != '"' && signed[i]
        != '[' by {
        if i > 0 {
            assert(signed[i] == plain[i - 1]);
        }
    }
    law_plain_text_has_no_index(signed, tail);
    assert(down.skip(1) =~= signed + tail);
}

} // verus!
