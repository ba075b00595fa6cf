//! The runtime value model: a dynamically typed value tree with named
//! fields, indexed arrays and typed-key maps. Module outputs are trees of
//! these values, and conditions read them through the scan context's root
//! structure.

use vstd::prelude::*;

verus! {

/// A key of a map value: maps are keyed by strings or by integers.
#[derive(Debug, PartialEq, Eq)]
pub enum MapKey {
    /// An integer key.
    Int(i64),
    /// A string key, held as its UTF-8 bytes.
    Str(Vec<u8>),
}

/// A dynamically typed runtime value.
#[derive(Debug, PartialEq, Eq)]
pub enum RuntimeValue {
    /// A 64-bit signed integer.
    Int(i64),
    /// The IEEE-754 bit pattern of a 64-bit float.
    FloatBits(u64),
    /// A boolean.
    Bool(bool),
    /// A string interned in the scan's string pool, by identifier.
    String(u32),
    /// Owned raw bytes.
    Bytes(Vec<u8>),
    /// A structure of named fields.
    Struct(RuntimeStruct),
    /// An indexed sequence of values.
    Array(Vec<RuntimeValue>),
    /// A map from typed keys to values.
    Mapping(Vec<(MapKey, RuntimeValue)>),
}

/// A structure of named fields, looked up by name; field names are unique
/// and keep insertion order.
#[derive(Debug, PartialEq, Eq)]
pub struct RuntimeStruct {
    fields: Vec<(String, RuntimeValue)>,
}

/// Index of the field with the given name, or -1 when absent.
pub open spec fn spec_field_index(fields: Seq<(String, RuntimeValue)>, name: Seq<char>) -> int
    decreases fields.len(),
{
    if fields.len() == 0 {
        -1
    } else if fields[0].0@ == name {
        0
    } else {
        let r = spec_field_index(fields.drop_first(), name);
        if r < 0 {
            -1
        } else {
            r + 1
        }
    }
}

/// `spec_field_index` reports the first position holding `name`, or -1
/// when no position does.
pub proof fn lemma_field_index_props(fields: Seq<(String, RuntimeValue)>, name: Seq<char>)
    ensures
        (spec_field_index(fields, name) == -1) <==> (forall|j: int|
            0 <= j < fields.len() ==> (#[trigger] fields[j]).0@ != name),
        spec_field_index(fields, name) != -1 ==> {
            let f = spec_field_index(fields, name);
            &&& 0 <= f < fields.len()
            &&& fields[f].0@ == name
            &&& forall|j: int| 0 <= j < f ==> (#[trigger] fields[j]).0@ != name
        },
    decreases fields.len(),
{
    if fields.len() == 0 {
    } else if fields[0].0@ == name {
    } else {
        lemma_field_index_props(fields.drop_first(), name);
        assert forall|j: int| 1 <= j < fields.len() implies fields.drop_first()[j - 1]
            == fields[j] by {}
    }
}

/// Two field tables with the same names at every position index any name
/// identically.
pub proof fn lemma_field_index_same_names(
    f1: Seq<(String, RuntimeValue)>,
    f2: Seq<(String, RuntimeValue)>,
    name: Seq<char>,
)
    requires
        f1.len() == f2.len(),
        forall|x: int| 0 <= x < f1.len() ==> (#[trigger] f1[x]).0@ == (#[trigger] f2[x]).0@,
    ensures
        spec_field_index(f1, name) == spec_field_index(f2, name),
    decreases f1.len(),
{
    if f1.len() > 0 {
        assert(f1[0].0@ == f2[0].0@);
        if f1[0].0@ != name {
            lemma_field_index_same_names(f1.drop_first(), f2.drop_first(), name);
            assert forall|x: int| 0 <= x < f1.drop_first().len() implies (
            #[trigger] f1.drop_first()[x]).0@ == (#[trigger] f2.drop_first()[x]).0@ by {
                assert(f1.drop_first()[x] == f1[x + 1]);
                assert(f2.drop_first()[x] == f2[x + 1]);
            }
        }
    }
}

impl RuntimeStruct {
    /// The named fields, in insertion order.
    pub closed spec fn fields(self) -> Seq<(String, RuntimeValue)> {
        self.fields@
    }

    /// Field names are unique.
    pub open spec fn wf(self) -> bool {
        forall|i: int, j: int|
            0 <= i < j < self.fields().len() ==> (#[trigger] self.fields()[i]).0@ != (
            #[trigger] self.fields()[j]).0@
    }

    /// Creates a structure with no fields.
    pub fn new() -> (r: RuntimeStruct)
        ensures
            r.fields() == Seq::<(String, RuntimeValue)>::empty(),
            r.wf(),
    {
        let r = RuntimeStruct { fields: Vec::new() };
        proof {
            assert(r.fields() =~= Seq::<(String, RuntimeValue)>::empty());
        }
        r
    }

    /// The number of fields.
    pub fn len(&self) -> (r: usize)
        ensures
            r == self.fields().len(),
    {
        self.fields.len()
    }

    /// Sets a field: a field with the same name is overwritten, keeping its
    /// position; otherwise the field is appended.
    pub fn insert(&mut self, name: String, value: RuntimeValue)
        requires
            old(self).wf(),
        ensures
            final(self).wf(),
            final(self).fields() == {
                let f = spec_field_index(old(self).fields(), name@);
                if f >= 0 {
                    old(self).fields().update(f, (name, value))
                } else {
                    old(self).fields().push((name, value))
                }
            },
    {
        proof {
            lemma_field_index_props(self.fields(), name@);
        }
        let n = self.fields.len();
        for i in 0..n
            invariant
                *self == *old(self),
                self.wf(),
                n == self.fields().len(),
                forall|j: int| 0 <= j < i ==> (#[trigger] self.fields()[j]).0@ != name@,
        {
            let same = self.fields[i].0 == name;
            if same {
                proof {
                    lemma_field_index_props(self.fields(), name@);
                    let f = spec_field_index(self.fields(), name@);
                    if f < i as int {
                        assert(self.fields()[f].0@ != name@);
                        assert(self.fields()[f].0@ == name@);
                    } else if f > i as int {
                        assert(self.fields()[i as int].0@ != name@);
                    }
                }
                self.fields.set(i, (name, value));
                return;
            }
            proof {
                assert(self.fields()[i as int].0@ != name@);
            }
        }
        proof {
            lemma_field_index_props(self.fields(), name@);
        }
        self.fields.push((name, value));
    }

    /// Looks a field up by name.
    pub fn get(&self, name: &str) -> (r: Option<&RuntimeValue>)
        requires
            self.wf(),
        ensures
            r is Some <==> spec_field_index(self.fields(), name@) >= 0,
            r is Some ==> *r->0 == self.fields()[spec_field_index(self.fields(), name@)].1,
    {
        proof {
            lemma_field_index_props(self.fields(), name@);
        }
        let key: String = name.to_owned();
        let n = self.fields.len();
        for i in 0..n
            invariant
                self.wf(),
                key@ == name@,
                n == self.fields().len(),
                forall|j: int| 0 <= j < i ==> (#[trigger] self.fields()[j]).0@ != name@,
        {
            let same = self.fields[i].0 == key;
            if same {
                proof {
                    lemma_field_index_props(self.fields(), name@);
                    let f = spec_field_index(self.fields(), name@);
                    if f < i as int {
                        assert(self.fields()[f].0@ != name@);
                        assert(self.fields()[f].0@ == name@);
                    } else if f > i as int {
                        assert(self.fields()[i as int].0@ != name@);
                    }
                }
                return Some(&self.fields[i].1);
            }
            proof {
                assert(self.fields()[i as int].0@ != name@);
            }
        }
        proof {
            lemma_field_index_props(self.fields(), name@);
        }
        None
    }

    /// The field at a position, for walking the structure in order.
    pub fn field_at(&self, i: usize) -> (r: &(String, RuntimeValue))
        requires
            i < self.fields().len(),
        ensures
            *r == self.fields()[i as int],
    {
        &self.fields[i]
    }
}

/// Looks up an array element by index.
pub fn array_get(items: &Vec<RuntimeValue>, index: usize) -> (r: Option<&RuntimeValue>)
    ensures
        r is Some <==> index < items@.len(),
        r is Some ==> *r->0 == items@[index as int],
{
    if index < items.len() {
        Some(&items[index])
    } else {
        None
    }
}

/// Whether two map keys are the same key.
pub fn map_key_eq(a: &MapKey, b: &MapKey) -> (r: bool)
    ensures
        r == match (a, b) {
            (MapKey::Int(x), MapKey::Int(y)) => x == y,
            (MapKey::Str(x), MapKey::Str(y)) => x@ == y@,
            _ => false,
        },
{
    match (a, b) {
        (MapKey::Int(x), MapKey::Int(y)) => *x == *y,
        (MapKey::Str(x), MapKey::Str(y)) => crate::bytes::bytes_eq(x.as_slice(), b_str(b)),
        _ => false,
    }
}

/// The byte slice of a string key.
fn b_str(k: &MapKey) -> (r: &[u8])
    requires
        k is Str,
    ensures
        r@ == k->Str_0@,
{
    match k {
        MapKey::Str(v) => v.as_slice(),
        MapKey::Int(_) => unreached(),
    }
}

/// Looks up a map entry by key: the first entry whose key equals `key`.
pub fn map_get<'v>(entries: &'v Vec<(MapKey, RuntimeValue)>, key: &MapKey) -> (r: Option<
    &'v RuntimeValue,
>)
    ensures
        r is Some ==> exists|i: int|
            0 <= i < entries@.len() && *r->0 == (#[trigger] entries@[i]).1,
        r is None ==> forall|i: int|
            0 <= i < entries@.len() ==> !spec_map_key_eq((#[trigger] entries@[i]).0, *key),
{
    let n = entries.len();
    for i in 0..n
        invariant
            n == entries@.len(),
            forall|j: int| 0 <= j < i ==> !spec_map_key_eq((#[trigger] entries@[j]).0, *key),
    {
        if map_key_eq(&entries[i].0, key) {
            return Some(&entries[i].1);
        }
    }
    None
}

/// Whether two map keys denote the same key.
pub open spec fn spec_map_key_eq(a: MapKey, b: MapKey) -> bool {
    match (a, b) {
        (MapKey::Int(x), MapKey::Int(y)) => x == y,
        (MapKey::Str(x), MapKey::Str(y)) => x@ == y@,
        _ => false,
    }
}

} // verus!
