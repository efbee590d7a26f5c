//! The CBOR data item.
use vstd::prelude::*;

verus! {

/// A decoded or to-be-encoded CBOR data item.
///
/// `Integer` holds the full range that major types 0 and 1 can represent
/// directly (-2^64 to 2^64 - 1). There is no bignum support.
#[derive(Debug, PartialEq)]
pub enum Value {
    Integer(i128),
    Bytes(Vec<u8>),
    Text(String),
    Bool(bool),
    Null,
    Tag(u64, Box<Value>),
    Array(Vec<Value>),
    Entries(Vec<(Value, Value)>),
}

/// What a [`Value`] stands for, over mathematical sequences.
#[verifier::ext_equal]
pub enum Item {
    Integer(int),
    Bytes(Seq<u8>),
    Text(Seq<char>),
    Bool(bool),
    Null,
    Tag(u64, Box<Item>),
    Array(Seq<Item>),
    Entries(Seq<(Item, Item)>),
}

/// The item that a value stands for.
pub open spec fn value_item(v: Value) -> Item
    decreases v,
{
    match v {
        Value::Integer(i) => Item::Integer(i as int),
        Value::Bytes(b) => Item::Bytes(b@),
        Value::Text(t) => Item::Text(t@),
        Value::Bool(b) => Item::Bool(b),
        Value::Null => Item::Null,
        Value::Tag(t, inner) => Item::Tag(t, Box::new(value_item(*inner))),
        Value::Array(a) => Item::Array(
            Seq::new(
                a@.len(),
                |i: int|
                    if 0 <= i < a@.len() {
                        value_item(a@[i])
                    } else {
                        Item::Null
                    },
            ),
        ),
        Value::Entries(a) => Item::Entries(
            Seq::new(
                a@.len(),
                |i: int|
                    if 0 <= i < a@.len() {
                        (value_item(a@[i].0), value_item(a@[i].1))
                    } else {
                        (Item::Null, Item::Null)
                    },
            ),
        ),
    }
}

/// The items that a list of values stands for.
pub open spec fn value_items(values: Seq<Value>) -> Seq<Item> {
    values.map_values(|v: Value| v@)
}

/// The pairs of items that a list of entries stands for.
pub open spec fn entry_items(entries: Seq<(Value, Value)>) -> Seq<(Item, Item)> {
    entries.map_values(|e: (Value, Value)| (e.0@, e.1@))
}

impl View for Value {
    type V = Item;

    open spec fn view(&self) -> Item {
        value_item(*self)
    }
}

/// The view of a value holds the views of its parts.
pub broadcast proof fn lemma_view(v: Value)
    ensures
        #![trigger v@]
        v matches Value::Array(a) ==> v@ == Item::Array(value_items(a@)),
        v matches Value::Entries(a) ==> v@ == Item::Entries(entry_items(a@)),
        v matches Value::Tag(t, inner) ==> v@ == Item::Tag(t, Box::new((*inner)@)),
        v matches Value::Integer(i) ==> v@ == Item::Integer(i as int),
        v matches Value::Bytes(b) ==> v@ == Item::Bytes(b@),
        v matches Value::Text(t) ==> v@ == Item::Text(t@),
        v matches Value::Bool(b) ==> v@ == Item::Bool(b),
        v is Null ==> v@ == Item::Null,
{
    match v {
        Value::Array(a) => {
            assert(v@->Array_0 =~= value_items(a@));
        },
        Value::Entries(a) => {
            assert(v@->Entries_0 =~= entry_items(a@));
        },
        _ => {},
    }
}

/// The elements of an array are below it.
pub(crate) proof fn lemma_element_below(v: Value, i: int)
    requires
        v is Array,
        0 <= i < v->Array_0@.len(),
    ensures
        decreases_to!(v => v->Array_0@[i]),
{
}

/// The keys and values of a table are below it.
pub(crate) proof fn lemma_entry_below(v: Value, i: int)
    requires
        v is Entries,
        0 <= i < v->Entries_0@.len(),
    ensures
        decreases_to!(v => v->Entries_0@[i].0),
        decreases_to!(v => v->Entries_0@[i].1),
{
    assert(decreases_to!(v->Entries_0@ => v->Entries_0@[i]));
}

/// A value of its own that stands for the same item.
fn copy_of(v: &Value) -> (r: Value)
    ensures
        r@ == v@,
    decreases v,
{
    match v {
        Value::Integer(i) => Value::Integer(*i),
        Value::Bytes(b) => {
            let mut out: Vec<u8> = Vec::new();
            out.extend_from_slice(b.as_slice());
            assert(out@ =~= b@);
            Value::Bytes(out)
        },
        Value::Text(t) => Value::Text(t.clone()),
        Value::Bool(b) => Value::Bool(*b),
        Value::Null => Value::Null,
        Value::Tag(t, inner) => Value::Tag(*t, Box::new(copy_of(&**inner))),
        Value::Array(a) => {
            let mut out: Vec<Value> = Vec::new();
            let mut i: usize = 0;
            while i < a.len()
                invariant
                    i <= a@.len(),
                    *v == Value::Array(*a),
                    out@.len() == i,
                    forall|k: int| 0 <= k < i ==> out@[k]@ == a@[k]@,
                decreases a@.len() - i,
            {
                let e = &a[i];
                proof {
                    lemma_element_below(*v, i as int);
                }
                out.push(copy_of(e));
                i += 1;
            }
            let r = Value::Array(out);
            assert(r@->Array_0 =~= v@->Array_0);
            r
        },
        Value::Entries(a) => {
            let mut out: Vec<(Value, Value)> = Vec::new();
            let mut i: usize = 0;
            while i < a.len()
                invariant
                    i <= a@.len(),
                    *v == Value::Entries(*a),
                    out@.len() == i,
                    forall|k: int|
                        0 <= k < i ==> (#[trigger] out@[k]).0@ == a@[k].0@ && out@[k].1@ == a@[k].1@,
                decreases a@.len() - i,
            {
                proof {
                    lemma_entry_below(*v, i as int);
                }
                let k = copy_of(&a[i].0);
                let e = copy_of(&a[i].1);
                out.push((k, e));
                i += 1;
            }
            let r = Value::Entries(out);
            assert(r@->Entries_0 =~= v@->Entries_0);
            r
        },
    }
}

impl Clone for Value {
    fn clone(&self) -> (r: Self)
        ensures
            r@ == self@,
    {
        copy_of(self)
    }
}

impl Value {
    /// The entries of a table.
    pub fn as_map(&self) -> (r: Option<&[(Value, Value)]>)
        ensures
            match *self {
                Value::Entries(entries) => r matches Some(s) && s@ == entries@ && self@
                    == Item::Entries(entry_items(s@)),
                _ => r is None && !(self@ is Entries),
            },
    {
        proof {
            lemma_view(*self);
        }
        match self {
            Value::Entries(entries) => Some(entries.as_slice()),
            _ => None,
        }
    }

    /// The elements of an array.
    pub fn as_array(&self) -> (r: Option<&[Value]>)
        ensures
            match *self {
                Value::Array(items) => r matches Some(s) && s@ == items@ && self@ == Item::Array(
                    value_items(s@),
                ),
                _ => r is None && !(self@ is Array),
            },
    {
        proof {
            lemma_view(*self);
        }
        match self {
            Value::Array(items) => Some(items.as_slice()),
            _ => None,
        }
    }

    /// The characters of a text string.
    pub fn as_text(&self) -> (r: Option<&str>)
        ensures
            match r {
                Some(s) => self@ == Item::Text(s@),
                None => !(self@ is Text),
            },
    {
        proof {
            lemma_view(*self);
        }
        match self {
            Value::Text(s) => Some(s.as_str()),
            _ => None,
        }
    }

    /// The bytes of a byte string.
    pub fn as_bytes(&self) -> (r: Option<&[u8]>)
        ensures
            match r {
                Some(s) => self@ == Item::Bytes(s@),
                None => !(self@ is Bytes),
            },
    {
        proof {
            lemma_view(*self);
        }
        match self {
            Value::Bytes(b) => Some(b.as_slice()),
            _ => None,
        }
    }

    /// The value of a boolean.
    pub fn as_bool(&self) -> (r: Option<bool>)
        ensures
            match r {
                Some(b) => self@ == Item::Bool(b),
                None => !(self@ is Bool),
            },
    {
        proof {
            lemma_view(*self);
        }
        match self {
            Value::Bool(b) => Some(*b),
            _ => None,
        }
    }

    /// A value with a tag.
    pub fn tagged(tag: u64, inner: Value) -> (r: Value)
        ensures
            r@ == Item::Tag(tag, Box::new(inner@)),
    {
        let r = Value::Tag(tag, Box::new(inner));
        proof {
            lemma_view(r);
        }
        r
    }
}

impl From<i8> for Value {
    fn from(n: i8) -> (r: Self) {
        Value::Integer(n as i128)
    }
}

impl vstd::std_specs::convert::FromSpecImpl<i8> for Value {
    open spec fn obeys_from_spec() -> bool {
        true
    }

    open spec fn from_spec(n: i8) -> Self {
        Value::Integer(n as i128)
    }
}

impl From<i16> for Value {
    fn from(n: i16) -> (r: Self) {
        Value::Integer(n as i128)
    }
}

impl vstd::std_specs::convert::FromSpecImpl<i16> for Value {
    open spec fn obeys_from_spec() -> bool {
        true
    }

    open spec fn from_spec(n: i16) -> Self {
        Value::Integer(n as i128)
    }
}

impl From<i32> for Value {
    fn from(n: i32) -> (r: Self) {
        Value::Integer(n as i128)
    }
}

impl vstd::std_specs::convert::FromSpecImpl<i32> for Value {
    open spec fn obeys_from_spec() -> bool {
        true
    }

    open spec fn from_spec(n: i32) -> Self {
        Value::Integer(n as i128)
    }
}

impl From<i64> for Value {
    fn from(n: i64) -> (r: Self) {
        Value::Integer(n as i128)
    }
}

impl vstd::std_specs::convert::FromSpecImpl<i64> for Value {
    open spec fn obeys_from_spec() -> bool {
        true
    }

    open spec fn from_spec(n: i64) -> Self {
        Value::Integer(n as i128)
    }
}

impl From<i128> for Value {
    fn from(n: i128) -> (r: Self) {
        Value::Integer(n as i128)
    }
}

impl vstd::std_specs::convert::FromSpecImpl<i128> for Value {
    open spec fn obeys_from_spec() -> bool {
        true
    }

    open spec fn from_spec(n: i128) -> Self {
        Value::Integer(n as i128)
    }
}

impl From<u8> for Value {
    fn from(n: u8) -> (r: Self) {
        Value::Integer(n as i128)
    }
}

impl vstd::std_specs::convert::FromSpecImpl<u8> for Value {
    open spec fn obeys_from_spec() -> bool {
        true
    }

    open spec fn from_spec(n: u8) -> Self {
        Value::Integer(n as i128)
    }
}

impl From<u16> for Value {
    fn from(n: u16) -> (r: Self) {
        Value::Integer(n as i128)
    }
}

impl vstd::std_specs::convert::FromSpecImpl<u16> for Value {
    open spec fn obeys_from_spec() -> bool {
        true
    }

    open spec fn from_spec(n: u16) -> Self {
        Value::Integer(n as i128)
    }
}

impl From<u32> for Value {
    fn from(n: u32) -> (r: Self) {
        Value::Integer(n as i128)
    }
}

impl vstd::std_specs::convert::FromSpecImpl<u32> for Value {
    open spec fn obeys_from_spec() -> bool {
        true
    }

    open spec fn from_spec(n: u32) -> Self {
        Value::Integer(n as i128)
    }
}

impl From<u64> for Value {
    fn from(n: u64) -> (r: Self) {
        Value::Integer(n as i128)
    }
}

impl vstd::std_specs::convert::FromSpecImpl<u64> for Value {
    open spec fn obeys_from_spec() -> bool {
        true
    }

    open spec fn from_spec(n: u64) -> Self {
        Value::Integer(n as i128)
    }
}

} // verus!
