//! The decoded value tree and its mathematical model.

use vstd::prelude::*;
use vstd::slice::slice_subrange;
use vstd::utf8::{encode_utf8, encode_utf8_decode_utf8};

verus! {

/// A node of the decoded tree. Strings and opaque payloads borrow from the
/// buffer they were decoded from; a table owns its children.
#[derive(Debug, PartialEq, Eq)]
pub enum Data<'d> {
    /// Key/value pairs, in the order in which they stand on the wire.
    Table(Vec<(Data<'d>, Data<'d>)>),
    Uint64(u64),
    Uint32(u32),
    Uint16(u16),
    Boolean(bool),
    /// A tag that the codec carries without reading it, with its payload.
    Unknown(u8, &'d [u8]),
    String(&'d str),
}

/// What a [`Data`] tree stands for: the same tree over sequences.
pub enum Value {
    Table(Seq<(Value, Value)>),
    Uint64(u64),
    Uint32(u32),
    Uint16(u16),
    Boolean(bool),
    Unknown(u8, Seq<u8>),
    String(Seq<char>),
}

impl<'d> View for Data<'d> {
    type V = Value;

    open spec fn view(&self) -> Value
        decreases self,
    {
        match self {
            Data::Table(items) => Value::Table(Data::views(items@)),
            Data::Uint64(x) => Value::Uint64(*x),
            Data::Uint32(x) => Value::Uint32(*x),
            Data::Uint16(x) => Value::Uint16(*x),
            Data::Boolean(b) => Value::Boolean(*b),
            Data::Unknown(tag, payload) => Value::Unknown(*tag, payload@),
            Data::String(text) => Value::String(text@),
        }
    }
}

impl<'d> Data<'d> {
    /// What the pairs of a table stand for, pair by pair.
    pub open spec fn views(items: Seq<(Data<'d>, Data<'d>)>) -> Seq<(Value, Value)>
        decreases items,
    {
        Seq::new(
            items.len(),
            |i: int|
                if 0 <= i < items.len() {
                    (items[i].0.view(), items[i].1.view())
                } else {
                    arbitrary()
                },
        )
    }
}

/// Whether `pair` has the string `name` as its key.
pub open spec fn keyed(pair: (Value, Value), name: Seq<char>) -> bool {
    pair.0 == Value::String(name)
}

/// Where the first pair with the key `name` stands in `items`, looking from
/// `from` on.
pub open spec fn slot_from(items: Seq<(Value, Value)>, name: Seq<char>, from: int) -> Option<int>
    decreases items.len() - from,
{
    if from < 0 || from >= items.len() {
        None
    } else if keyed(items[from], name) {
        Some(from)
    } else {
        slot_from(items, name, from + 1)
    }
}

/// Where the first pair with the key `name` stands in `items`.
pub open spec fn slot(items: Seq<(Value, Value)>, name: Seq<char>) -> Option<int> {
    slot_from(items, name, 0)
}

impl Value {
    /// The value under the key `name`: that of the first pair with that
    /// key, and nothing where no pair has it or `self` is no table.
    pub open spec fn field(self, name: Seq<char>) -> Option<Value> {
        match self {
            Value::Table(items) => match slot(items, name) {
                Some(i) => Some(items[i].1),
                None => None,
            },
            _ => None,
        }
    }

    /// The table with `value` under the key `name`: in the place of the
    /// first pair with that key where there is one, and else in a new pair
    /// behind all others. What is no table stays as it is.
    pub open spec fn with_field(self, name: Seq<char>, value: Value) -> Value {
        match self {
            Value::Table(items) => match slot(items, name) {
                Some(i) => Value::Table(items.update(i, (items[i].0, value))),
                None => Value::Table(items.push((Value::String(name), value))),
            },
            _ => self,
        }
    }

    /// The value at the end of `path`: each name in turn is looked up as a
    /// field of what the names before it led to. Nothing where a name is
    /// missing or what it is looked up in is no table.
    pub open spec fn at(self, path: Seq<Seq<char>>) -> Option<Value>
        decreases path.len(),
    {
        if path.len() == 0 {
            Some(self)
        } else {
            match self.field(path[0]) {
                Some(child) => child.at(path.drop_first()),
                None => None,
            }
        }
    }

    /// The tree with `value` in the place of what stands at the end of
    /// `path`, and the tree itself where nothing stands there.
    pub open spec fn with_at(self, path: Seq<Seq<char>>, value: Value) -> Value
        decreases path.len(),
    {
        if path.len() == 0 {
            value
        } else {
            match self.field(path[0]) {
                Some(child) => self.with_field(
                    path[0],
                    child.with_at(path.drop_first(), value),
                ),
                None => self,
            }
        }
    }
}

/// The names of a path as sequences of characters.
pub open spec fn names(path: Seq<&str>) -> Seq<Seq<char>> {
    path.map_values(|name: &str| name@)
}

/// The slot found from `from` on is in range, holds the key, and no pair
/// between `from` and it does; where none is found, no pair from `from` on
/// holds the key.
pub proof fn lemma_slot_from(items: Seq<(Value, Value)>, name: Seq<char>, from: int)
    requires
        0 <= from,
    ensures
        match slot_from(items, name, from) {
            Some(i) => {
                &&& from <= i < items.len()
                &&& keyed(items[i], name)
                &&& forall|j: int| from <= j < i ==> !keyed(#[trigger] items[j], name)
            },
            None => forall|j: int| from <= j < items.len() ==> !keyed(#[trigger] items[j], name),
        },
    decreases items.len() - from,
{
    if from < items.len() && !keyed(items[from], name) {
        lemma_slot_from(items, name, from + 1);
    }
}

/// A pair that holds the key, with no pair from `from` up to it that does,
/// is the slot found from `from` on.
pub proof fn lemma_slot_is(items: Seq<(Value, Value)>, name: Seq<char>, from: int, i: int)
    requires
        0 <= from <= i < items.len(),
        keyed(items[i], name),
        forall|j: int| from <= j < i ==> !keyed(#[trigger] items[j], name),
    ensures
        slot_from(items, name, from) == Some(i),
    decreases i - from,
{
    if from < i {
        assert(!keyed(items[from], name));
        lemma_slot_is(items, name, from + 1, i);
    }
}

/// Setting a field twice to the same value is setting it once: the second
/// call finds the pair that the first one wrote and leaves it as it is, so
/// that no key comes to stand twice.
pub proof fn lemma_set_field_twice(table: Value, name: Seq<char>, value: Value)
    ensures
        table.with_field(name, value).with_field(name, value) == table.with_field(name, value),
{
    if table is Table {
        let items = table->Table_0;
        lemma_slot_from(items, name, 0);
        match slot(items, name) {
            Some(i) => {
                let once = items.update(i, (items[i].0, value));
                assert forall|j: int| 0 <= j < i implies !keyed(#[trigger] once[j], name) by {
                    assert(once[j] == items[j]);
                }
                lemma_slot_is(once, name, 0, i);
                assert(once.update(i, (once[i].0, value)) =~= once);
            },
            None => {
                let once = items.push((Value::String(name), value));
                let last = items.len() as int;
                assert forall|j: int| 0 <= j < last implies !keyed(#[trigger] once[j], name) by {
                    assert(once[j] == items[j]);
                }
                lemma_slot_is(once, name, 0, last);
                assert(once.update(last, (once[last].0, value)) =~= once);
            },
        }
    }
}

/// Setting a field to the value it has changes nothing.
pub proof fn lemma_set_same(table: Value, name: Seq<char>)
    requires
        table.field(name) is Some,
    ensures
        table.with_field(name, table.field(name)->0) == table,
{
    let items = table->Table_0;
    lemma_slot_from(items, name, 0);
    let i = slot(items, name)->0;
    assert(items.update(i, (items[i].0, items[i].1)) =~= items);
}

/// A field that was set is found, with the value it was set to.
pub proof fn lemma_field_of_set(table: Value, name: Seq<char>, value: Value)
    requires
        table is Table,
    ensures
        table.with_field(name, value).field(name) == Some(value),
{
    let items = table->Table_0;
    lemma_slot_from(items, name, 0);
    match slot(items, name) {
        Some(i) => {
            let once = items.update(i, (items[i].0, value));
            assert forall|j: int| 0 <= j < i implies !keyed(#[trigger] once[j], name) by {
                assert(once[j] == items[j]);
            }
            lemma_slot_is(once, name, 0, i);
        },
        None => {
            let once = items.push((Value::String(name), value));
            let last = items.len() as int;
            assert forall|j: int| 0 <= j < last implies !keyed(#[trigger] once[j], name) by {
                assert(once[j] == items[j]);
            }
            lemma_slot_is(once, name, 0, last);
        },
    }
}

/// Whether two texts are the same, character by character.
pub fn same_text(a: &str, b: &str) -> (same: bool)
    ensures
        same == (a@ == b@),
{
    let x = a.as_bytes();
    let y = b.as_bytes();
    proof {
        encode_utf8_decode_utf8(a@);
        encode_utf8_decode_utf8(b@);
    }
    if x.len() != y.len() {
        return false;
    }
    let mut i: usize = 0;
    while i < x.len()
        invariant
            i <= x.len(),
            x.len() == y.len(),
            x@ == encode_utf8(a@),
            y@ == encode_utf8(b@),
            forall|j: int| 0 <= j < i ==> x@[j] == y@[j],
        decreases x.len() - i,
    {
        if x[i] != y[i] {
            return false;
        }
        i = i + 1;
    }
    assert(x@ =~= y@);
    true
}

impl<'d> Data<'d> {
    /// Changing one pair of a table changes the same pair of what the
    /// table stands for.
    pub proof fn lemma_views_update(
        items: Seq<(Data<'d>, Data<'d>)>,
        i: int,
        pair: (Data<'d>, Data<'d>),
    )
        requires
            0 <= i < items.len(),
        ensures
            Data::views(items.update(i, pair)) == Data::views(items).update(i, (pair.0@, pair.1@)),
    {
        assert(Data::views(items.update(i, pair)) =~= Data::views(items).update(
            i,
            (pair.0@, pair.1@),
        ));
    }

    /// The text of a string, and nothing for any other value.
    pub fn as_str(&self) -> (text: Option<&str>)
        ensures
            match *self {
                Data::String(t) => text == Some(t),
                _ => text is None,
            },
    {
        match self {
            Data::String(x) => Some(x),
            _ => None,
        }
    }

    /// The pairs of a table, open to change, and nothing for any other
    /// value. The table ends up with the pairs as the caller leaves them.
    pub fn as_items_mut(&mut self) -> (items: Option<&mut [(Data<'d>, Data<'d>)]>)
        ensures
            match items {
                Some(pairs) => {
                    &&& *old(self) is Table
                    &&& pairs@ == old(self)->Table_0@
                    &&& *final(self) is Table
                    &&& final(self)->Table_0@ == final(pairs)@
                },
                None => !(*old(self) is Table) && *final(self) == *old(self),
            },
    {
        match self {
            Data::Table(x) => Some(x.as_mut_slice()),
            _ => None,
        }
    }

    /// The value under the key `name`: that of the first pair with that
    /// key, and nothing where no pair has it or the value is no table.
    pub fn field(&self, name: &str) -> (child: Option<&Data<'d>>)
        ensures
            match child {
                Some(value) => self@.field(name@) == Some(value@),
                None => self@.field(name@) is None,
            },
    {
        match self {
            Data::Table(items) => match find(items, name) {
                Some(i) => Some(&items[i].1),
                None => None,
            },
            _ => None,
        }
    }

    /// The value under the key `name`, open to change: that of the first
    /// pair with that key. The table ends up with that value as the caller
    /// leaves it, and is otherwise as it was.
    pub fn get<'item>(&'item mut self, name: &str) -> (child: Option<&'item mut Data<'d>>) where
        'd: 'item,

        ensures
            match child {
                Some(value) => {
                    &&& old(self)@.field(name@) == Some(value@)
                    &&& final(self)@ == old(self)@.with_field(name@, final(value)@)
                },
                None => old(self)@.field(name@) is None && *final(self) == *old(self),
            },
    {
        match self {
            Data::Table(items) => match find(items, name) {
                Some(i) => Some(value_at(items, i)),
                None => None,
            },
            _ => None,
        }
    }

    /// Puts `value` under the key `name`: in the place of the value of the
    /// first pair with that key, and where there is none in a new pair
    /// behind all others. Only a table has fields.
    pub fn set_field<'i>(&mut self, name: &'i str, value: Data<'i>) where 'i: 'd
        requires
            *old(self) is Table,
        ensures
            final(self)@ == old(self)@.with_field(name@, value@),
    {
        match self {
            Data::Table(items) => {
                let ghost before = items@;
                match find(items, name) {
                    Some(i) => {
                        items[i].1 = value;
                        proof {
                            Data::lemma_views_update(
                                before,
                                i as int,
                                (before[i as int].0, value),
                            );
                        }
                    },
                    None => {
                        items.push((Data::String(name), value));
                        assert(Data::views(items@) =~= Data::views(before).push(
                            (Value::String(name@), value@),
                        ));
                    },
                }
            },
            _ => unreached(),
        }
    }

    /// Whether the value is the string `name`.
    pub fn is_text(&self, name: &str) -> (same: bool)
        ensures
            same == (self@ == Value::String(name@)),
    {
        match self {
            Data::String(x) => same_text(x, name),
            _ => false,
        }
    }
}

/// The value of the pair at `i`, open to change.
fn value_at<'a, 'd>(items: &'a mut Vec<(Data<'d>, Data<'d>)>, i: usize) -> (value: &'a mut Data<'d>)
    requires
        i < old(items).len(),
    ensures
        *value == old(items)@[i as int].1,
        Data::views(final(items)@) == Data::views(old(items)@).update(
            i as int,
            (Data::views(old(items)@)[i as int].0, final(value)@),
        ),
{
    proof {
        let before = items@;
        assert forall|pair: (Data<'d>, Data<'d>)| #[trigger]
            Data::views(before.update(i as int, pair)) == Data::views(before).update(
                i as int,
                (pair.0@, pair.1@),
            ) by {
            Data::lemma_views_update(before, i as int, pair);
        }
    }
    &mut items[i].1
}

/// Where the first pair with the key `name` stands in `items`.
pub fn find<'d>(items: &Vec<(Data<'d>, Data<'d>)>, name: &str) -> (found: Option<usize>)
    ensures
        match found {
            Some(i) => slot(Data::views(items@), name@) == Some(i as int) && i < items.len(),
            None => slot(Data::views(items@), name@) is None,
        },
{
    let ghost pairs = Data::views(items@);
    let mut i: usize = 0;
    while i < items.len()
        invariant
            i <= items.len(),
            pairs == Data::views(items@),
            slot_from(pairs, name@, i as int) == slot(pairs, name@),
        decreases items.len() - i,
    {
        if items[i].0.is_text(name) {
            return Some(i);
        }
        i = i + 1;
    }
    None
}

/// The value at the end of `path`: each name in turn is looked up with
/// [`Data::field`] in what the names before it led to.
pub fn lookup_ref<'item, 'd>(tree: &'item Data<'d>, path: &[&str]) -> (found: Option<
    &'item Data<'d>,
>)
    ensures
        match found {
            Some(value) => tree@.at(names(path@)) == Some(value@),
            None => tree@.at(names(path@)) is None,
        },
    decreases path.len(),
{
    if path.len() == 0 {
        Some(tree)
    } else {
        let rest = slice_subrange(path, 1, path.len());
        assert(names(rest@) =~= names(path@).drop_first());
        assert(names(path@)[0] == path@[0]@);
        match tree.field(path[0]) {
            Some(child) => lookup_ref(child, rest),
            None => None,
        }
    }
}

/// The value at the end of `path`, open to change: each name in turn is
/// looked up with [`Data::get`] in what the names before it led to. The
/// tree ends up with that value as the caller leaves it, and otherwise
/// stands for what it stood for.
pub fn lookup<'item, 'd>(tree: &'item mut Data<'d>, path: &[&str]) -> (found: Option<
    &'item mut Data<'d>,
>)
    ensures
        match found {
            Some(value) => {
                &&& old(tree)@.at(names(path@)) == Some(value@)
                &&& final(tree)@ == old(tree)@.with_at(names(path@), final(value)@)
            },
            None => old(tree)@.at(names(path@)) is None && final(tree)@ == old(tree)@,
        },
    decreases path.len(),
{
    if path.len() == 0 {
        Some(tree)
    } else {
        let rest = slice_subrange(path, 1, path.len());
        assert(names(rest@) =~= names(path@).drop_first());
        assert(names(path@)[0] == path@[0]@);
        match tree.get(path[0]) {
            Some(child) => {
                proof {
                    lemma_set_same(old(tree)@, path@[0]@);
                }
                lookup(child, rest)
            },
            None => None,
        }
    }
}

} // verus!
