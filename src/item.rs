use vstd::prelude::*;

use crate::raw_string::RawString;

verus! {

/// Whitespace and comments around a key, a value or a table header.
pub struct Decor {
    pub prefix: RawString,
    pub suffix: RawString,
}

impl Decor {
    pub open spec fn within(&self, n: nat) -> bool {
        self.prefix.within(n) && self.suffix.within(n)
    }

    pub open spec fn is_detached(&self) -> bool {
        self.prefix.is_detached() && self.suffix.is_detached()
    }

    pub open spec fn detached_from(&self, prev: Decor, src: Seq<char>) -> bool {
        self.prefix.detached_from(prev.prefix, src) && self.suffix.detached_from(prev.suffix, src)
    }

    /// No decoration at all.
    pub fn new() -> (r: Decor)
        ensures
            r.prefix is Empty,
            r.suffix is Empty,
    {
        Decor { prefix: RawString::Empty, suffix: RawString::Empty }
    }

    fn despan(self, input: &str) -> (r: Decor)
        requires
            self.within(input@.len()),
        ensures
            r.detached_from(self, input@),
            r.is_detached(),
    {
        Decor { prefix: self.prefix.despan(input), suffix: self.suffix.despan(input) }
    }
}

/// A key of a table: its name, and how it was written.
pub struct Key {
    pub name: String,
    pub repr: RawString,
    pub decor: Decor,
}

impl Key {
    pub open spec fn within(&self, n: nat) -> bool {
        self.repr.within(n) && self.decor.within(n)
    }

    pub open spec fn is_detached(&self) -> bool {
        self.repr.is_detached() && self.decor.is_detached()
    }

    pub open spec fn detached_from(&self, prev: Key, src: Seq<char>) -> bool {
        self.name@ == prev.name@ && self.repr.detached_from(prev.repr, src)
            && self.decor.detached_from(prev.decor, src)
    }

    /// A key written in the default way.
    pub fn new(name: String) -> (r: Key)
        ensures
            r.name@ == name@,
            r.repr is Empty,
            r.decor.prefix is Empty,
            r.decor.suffix is Empty,
    {
        Key { name, repr: RawString::Empty, decor: Decor::new() }
    }

    /// The name of the key.
    pub fn get(&self) -> (r: &str)
        ensures
            r@ == self.name@,
    {
        self.name.as_str()
    }

    fn despan(self, input: &str) -> (r: Key)
        requires
            self.within(input@.len()),
        ensures
            r.detached_from(self, input@),
            r.is_detached(),
    {
        Key { name: self.name, repr: self.repr.despan(input), decor: self.decor.despan(input) }
    }
}

/// The data a scalar value holds.
pub enum Scalar {
    Integer(i64),
    Boolean(bool),
    Str(String),
}

/// A scalar value, with how it was written.
pub struct Value {
    pub scalar: Scalar,
    pub repr: RawString,
    pub decor: Decor,
}

impl Value {
    pub open spec fn within(&self, n: nat) -> bool {
        self.repr.within(n) && self.decor.within(n)
    }

    pub open spec fn is_detached(&self) -> bool {
        self.repr.is_detached() && self.decor.is_detached()
    }

    pub open spec fn same_scalar(&self, other: Value) -> bool {
        match (self.scalar, other.scalar) {
            (Scalar::Integer(a), Scalar::Integer(b)) => a == b,
            (Scalar::Boolean(a), Scalar::Boolean(b)) => a == b,
            (Scalar::Str(a), Scalar::Str(b)) => a@ == b@,
            _ => false,
        }
    }

    pub open spec fn detached_from(&self, prev: Value, src: Seq<char>) -> bool {
        self.same_scalar(prev) && self.repr.detached_from(prev.repr, src)
            && self.decor.detached_from(prev.decor, src)
    }

    /// The integer this value holds, if it is one.
    pub fn as_integer(&self) -> (r: Option<i64>)
        ensures
            r == (match self.scalar {
                Scalar::Integer(i) => Some(i),
                _ => None,
            }),
    {
        match &self.scalar {
            Scalar::Integer(i) => Some(*i),
            _ => None,
        }
    }

    /// The boolean this value holds, if it is one.
    pub fn as_bool(&self) -> (r: Option<bool>)
        ensures
            r == (match self.scalar {
                Scalar::Boolean(b) => Some(b),
                _ => None,
            }),
    {
        match &self.scalar {
            Scalar::Boolean(b) => Some(*b),
            _ => None,
        }
    }

    /// The string this value holds, if it is one.
    pub fn as_str(&self) -> (r: Option<&str>)
        ensures
            self.scalar is Str <==> r is Some,
            r is Some ==> r->Some_0@ == self.scalar->Str_0@,
    {
        match &self.scalar {
            Scalar::Str(s) => Some(s.as_str()),
            _ => None,
        }
    }

    fn despan(self, input: &str) -> (r: Value)
        requires
            self.within(input@.len()),
        ensures
            r.detached_from(self, input@),
            r.is_detached(),
    {
        Value { scalar: self.scalar, repr: self.repr.despan(input), decor: self.decor.despan(input) }
    }
}

/// A node of the document tree.
pub enum Item {
    Empty,
    Value(Value),
    Table(Table),
}

/// One key and the item stored under it.
pub struct TableEntry {
    pub key: Key,
    pub value: Item,
}

/// An ordered mapping from key names to items; keys are unique.
pub struct Table {
    pub entries: Vec<TableEntry>,
    pub decor: Decor,
    pub position: Option<usize>,
}

impl Table {
    /// The table's entries with names unique.
    pub open spec fn wf(&self) -> bool {
        keys_unique(*self)
    }

    /// The position of the entry named `name`, if any.
    pub open spec fn index_of(&self, name: Seq<char>) -> Option<int> {
        if exists|i: int| 0 <= i < self.entries@.len() && #[trigger] self.entries@[i].key.name@ == name {
            Some(choose|i: int| 0 <= i < self.entries@.len() && #[trigger] self.entries@[i].key.name@ == name)
        } else {
            None
        }
    }

    /// An empty table.
    pub fn new() -> (r: Table)
        ensures
            r.entries@.len() == 0,
            r.position is None,
            r.decor.prefix is Empty,
            r.decor.suffix is Empty,
            r.wf(),
    {
        Table { entries: Vec::new(), decor: Decor::new(), position: None }
    }

    /// An empty table placed at `position` in the document.
    pub fn with_pos(position: Option<usize>) -> (r: Table)
        ensures
            r.entries@.len() == 0,
            r.position == position,
            r.decor.prefix is Empty,
            r.decor.suffix is Empty,
            r.wf(),
    {
        Table { entries: Vec::new(), decor: Decor::new(), position }
    }

    /// The number of entries.
    pub fn len(&self) -> (r: usize)
        ensures
            r == self.entries@.len(),
    {
        self.entries.len()
    }

    /// Whether the table has no entries.
    pub fn is_empty(&self) -> (r: bool)
        ensures
            r == (self.entries@.len() == 0),
    {
        self.entries.len() == 0
    }

    /// The entries, in the order in which they were added.
    pub fn iter(&self) -> (r: &[TableEntry])
        ensures
            r@ == self.entries@,
    {
        self.entries.as_slice()
    }

    /// Where the entry named `name` stands, if there is one.
    pub fn position_of(&self, name: &str) -> (r: Option<usize>)
        ensures
            match r {
                Some(i) => i < self.entries@.len() && self.entries@[i as int].key.name@ == name@,
                None => forall|i: int| 0 <= i < self.entries@.len() ==> #[trigger] self.entries@[i].key.name@ != name@,
            },
    {
        let target = String::from_str(name);
        let mut i: usize = 0;
        while i < self.entries.len()
            invariant
                i <= self.entries@.len(),
                target@ == name@,
                forall|j: int| 0 <= j < i ==> #[trigger] self.entries@[j].key.name@ != name@,
            decreases self.entries@.len() - i,
        {
            if self.entries[i].key.name == target {
                return Some(i);
            }
            i = i + 1;
        }
        None
    }

    /// Whether an entry is named `name`.
    pub fn contains_key(&self, name: &str) -> (r: bool)
        ensures
            r == exists|i: int| 0 <= i < self.entries@.len() && #[trigger] self.entries@[i].key.name@ == name@,
    {
        match self.position_of(name) {
            Some(_) => true,
            None => false,
        }
    }

    /// The item stored under `name`, if any.
    pub fn get(&self, name: &str) -> (r: Option<&Item>)
        requires
            self.wf(),
        ensures
            match self.index_of(name@) {
                Some(i) => r is Some && *r->Some_0 == self.entries@[i].value,
                None => r is None,
            },
    {
        match self.position_of(name) {
            Some(i) => {
                proof {
                    let j = self.index_of(name@)->Some_0;
                    assert(self.entries@[i as int].key.name@ == name@);
                    if j != i {
                        if j < i {
                            assert(self.entries@[j].key.name@ != self.entries@[i as int].key.name@);
                        } else {
                            assert(self.entries@[i as int].key.name@ != self.entries@[j].key.name@);
                        }
                    }
                }
                Some(&self.entries[i].value)
            },
            None => None,
        }
    }
}

impl Item {
    /// The table this item holds, if it is one.
    pub fn as_table(&self) -> (r: Option<&Table>)
        ensures
            self is Table <==> r is Some,
            r is Some ==> *r->Some_0 == self->Table_0,
    {
        match self {
            Item::Table(t) => Some(t),
            _ => None,
        }
    }

    /// The table this item holds, if it is one, for editing.
    pub fn as_table_mut(&mut self) -> (r: Option<&mut Table>)
        ensures
            *old(self) is Table <==> r is Some,
            r is Some ==> *r->Some_0 == (*old(self))->Table_0 && *final(self) == Item::Table(
                *final(r->Some_0),
            ),
            r is None ==> *final(self) == *old(self),
    {
        match self {
            Item::Table(t) => Some(t),
            _ => None,
        }
    }

    /// The value this item holds, if it is one.
    pub fn as_value(&self) -> (r: Option<&Value>)
        ensures
            self is Value <==> r is Some,
            r is Some ==> *r->Some_0 == self->Value_0,
    {
        match self {
            Item::Value(v) => Some(v),
            _ => None,
        }
    }

    /// Whether this item is a table.
    pub fn is_table(&self) -> (r: bool)
        ensures
            r == self is Table,
    {
        match self {
            Item::Table(_) => true,
            _ => false,
        }
    }
}

/// All spans of an item lie inside a source of length `n`.
pub open spec fn item_within(it: Item, n: nat) -> bool
    decreases it,
{
    match it {
        Item::Empty => true,
        Item::Value(v) => v.within(n),
        Item::Table(t) => t.decor.within(n) && forall|i: int|
            0 <= i < t.entries@.len() ==> (#[trigger] t.entries@[i]).key.within(n) && item_within(
                t.entries@[i].value,
                n,
            ),
    }
}

/// No text anywhere in the item depends on a source.
pub open spec fn item_detached(it: Item) -> bool
    decreases it,
{
    match it {
        Item::Empty => true,
        Item::Value(v) => v.is_detached(),
        Item::Table(t) => t.decor.is_detached() && forall|i: int|
            0 <= i < t.entries@.len() ==> (#[trigger] t.entries@[i]).key.is_detached()
                && item_detached(t.entries@[i].value),
    }
}

/// `now` is what detaching `prev` against `src` gives: the same shape, the
/// same keys in the same order, the same scalars, and each text detached.
pub open spec fn item_detached_from(now: Item, prev: Item, src: Seq<char>) -> bool
    decreases prev,
{
    match prev {
        Item::Empty => now is Empty,
        Item::Value(v) => now is Value && now->Value_0.detached_from(v, src),
        Item::Table(t) => now is Table && now->Table_0.decor.detached_from(t.decor, src)
            && now->Table_0.position == t.position && now->Table_0.entries@.len()
            == t.entries@.len() && forall|i: int|
            0 <= i < t.entries@.len() ==> (#[trigger] now->Table_0.entries@[i]).key.detached_from(
                t.entries@[i].key,
                src,
            ) && item_detached_from(now->Table_0.entries@[i].value, t.entries@[i].value, src),
    }
}

/// The names of a table's keys, in order.
pub open spec fn key_names(t: Table) -> Seq<Seq<char>> {
    t.entries@.map_values(|e: TableEntry| e.key.name@)
}

/// Where a key was written in the source, if it was.
pub open spec fn key_start(k: Key) -> int {
    match k.repr {
        RawString::Spanned { start, end } => start as int,
        _ => -1,
    }
}

/// The keys of the table were written in the source in the order of its entries.
pub open spec fn in_source_order(t: Table) -> bool {
    &&& forall|i: int| 0 <= i < t.entries@.len() ==> 0 <= key_start(#[trigger] t.entries@[i].key)
    &&& forall|i: int, j: int|
        0 <= i < j < t.entries@.len() ==> key_start(#[trigger] t.entries@[i].key) < key_start(
            #[trigger] t.entries@[j].key,
        )
}

/// No two entries of a table have the same key name.
pub open spec fn keys_unique(t: Table) -> bool {
    forall|i: int, j: int|
        0 <= i < j < t.entries@.len() ==> #[trigger] t.entries@[i].key.name@
            != #[trigger] t.entries@[j].key.name@
}

/// Detaches every text of an item against `input`.
pub fn despan_item(it: Item, input: &str) -> (r: Item)
    requires
        item_within(it, input@.len()),
    ensures
        item_detached_from(r, it, input@),
        item_detached(r),
    decreases it,
{
    let ghost whole = it;
    match it {
        Item::Empty => Item::Empty,
        Item::Value(v) => Item::Value(v.despan(input)),
        Item::Table(t) => {
            let ghost orig_vec = t.entries;
            let ghost orig = t.entries@;
            assert(orig.len() <= usize::MAX) by {
                assert(orig.len() == t.entries.len());
            }
            let Table { entries, decor, position } = t;
            let mut rest = entries;
            let mut out: Vec<TableEntry> = Vec::new();
            let mut k: usize = 0;
            while rest.len() > 0
                invariant
                    rest@ == orig.subrange(k as int, orig.len() as int),
                    k <= orig.len(),
                    orig.len() <= usize::MAX,
                    orig == orig_vec@,
                    whole is Table,
                    whole == it,
                    orig_vec == whole->Table_0.entries,
                    out@.len() == k,
                    forall|i: int|
                        0 <= i < orig.len() ==> (#[trigger] orig[i]).key.within(input@.len())
                            && item_within(orig[i].value, input@.len()),
                    forall|i: int|
                        0 <= i < k ==> (#[trigger] out@[i]).key.detached_from(orig[i].key, input@)
                            && item_detached_from(out@[i].value, orig[i].value, input@)
                            && out@[i].key.is_detached() && item_detached(out@[i].value),
                decreases rest.len(),
            {
                let e = rest.remove(0);
                assert(e == orig[k as int]);
                let TableEntry { key, value } = e;
                proof {
                    assert(decreases_to!(whole => whole->Table_0));
                    assert(decreases_to!(whole->Table_0 => orig_vec));
                    assert(decreases_to!(orig_vec => orig_vec[k as int]));
                    assert(decreases_to!(orig_vec[k as int] => orig_vec[k as int].value));
                    assert(decreases_to!(it => value));
                }
                let key2 = key.despan(input);
                let value2 = despan_item(value, input);
                out.push(TableEntry { key: key2, value: value2 });
                k = k + 1;
            }
            Item::Table(Table { entries: out, decor: decor.despan(input), position })
        },
    }
}

} // verus!
