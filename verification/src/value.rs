//! The value tree and its mathematical model.

use vstd::prelude::*;
use crate::text::same_text;

verus! {

/// What a [`Json`] value stands for in contracts.  An object is the sequence
/// of its entries, in the order in which they are written out.
pub enum JsonValue {
    Array(Seq<JsonValue>),
    Object(Seq<(Seq<char>, JsonValue)>),
    String(Seq<char>),
    /// A number, as its literal.
    Number(Seq<char>),
    True,
    False,
    Null,
}

/// The entries of an object: keys with their values.
pub type Entries = Seq<(Seq<char>, JsonValue)>;

/// The position of the first entry with the key `key`, or the number of
/// entries where there is none.
pub open spec fn position_of_key(entries: Entries, key: Seq<char>) -> int
    decreases entries.len(),
{
    if entries.len() == 0 {
        0
    } else if entries[0].0 == key {
        0
    } else {
        1 + position_of_key(entries.drop_first(), key)
    }
}

/// Whether an entry has the key `key`.
pub open spec fn has_key(entries: Entries, key: Seq<char>) -> bool {
    position_of_key(entries, key) < entries.len()
}

/// The value that the first entry with the key `key` holds.
pub open spec fn lookup(entries: Entries, key: Seq<char>) -> Option<JsonValue> {
    if has_key(entries, key) {
        Some(entries[position_of_key(entries, key)].1)
    } else {
        None
    }
}

/// The entries after `key` has been given the value `value`: the first entry
/// with that key holds the new value in its old place, and where there was
/// none a new entry stands at the end.
pub open spec fn put(entries: Entries, key: Seq<char>, value: JsonValue) -> Entries {
    if has_key(entries, key) {
        entries.update(position_of_key(entries, key), (key, value))
    } else {
        entries.push((key, value))
    }
}

/// No two entries have the same key.
pub open spec fn distinct_keys(entries: Entries) -> bool {
    forall|i: int, j: int|
        0 <= i < j < entries.len() ==> (#[trigger] entries[i]).0 != (#[trigger] entries[j]).0
}

/// Where the first entry with a key stands: no entry before it has the key,
/// and it has it, unless the position is the number of entries.
pub proof fn lemma_position_of_key(entries: Entries, key: Seq<char>)
    ensures
        0 <= position_of_key(entries, key) <= entries.len(),
        forall|i: int|
            0 <= i < position_of_key(entries, key) ==> (#[trigger] entries[i]).0 != key,
        has_key(entries, key) ==> entries[position_of_key(entries, key)].0 == key,
    decreases entries.len(),
{
    if entries.len() > 0 && entries[0].0 != key {
        let rest = entries.drop_first();
        lemma_position_of_key(rest, key);
        assert forall|i: int| 0 <= i < position_of_key(entries, key) implies (
        #[trigger] entries[i]).0 != key by {
            if i > 0 {
                assert(entries[i] == rest[i - 1]);
            }
        }
    }
}

/// The first entry with a key is known by its place: it has the key and no
/// entry before it has.
pub proof fn lemma_position_found(entries: Entries, key: Seq<char>, at: int)
    requires
        0 <= at <= entries.len(),
        forall|i: int| 0 <= i < at ==> (#[trigger] entries[i]).0 != key,
        at < entries.len() ==> entries[at].0 == key,
    ensures
        position_of_key(entries, key) == at,
    decreases entries.len(),
{
    if entries.len() > 0 && at > 0 {
        let rest = entries.drop_first();
        assert(entries[0].0 != key);
        assert forall|i: int| 0 <= i < at - 1 implies (#[trigger] rest[i]).0 != key by {
            assert(rest[i] == entries[i + 1]);
        }
        lemma_position_found(rest, key, at - 1);
    }
}

/// Giving a key a value keeps the keys distinct.
pub proof fn lemma_put_distinct(entries: Entries, key: Seq<char>, value: JsonValue)
    requires
        distinct_keys(entries),
    ensures
        distinct_keys(put(entries, key, value)),
{
    lemma_position_of_key(entries, key);
    let after = put(entries, key, value);
    assert forall|i: int, j: int| 0 <= i < j < after.len() implies (#[trigger] after[i]).0 != (
    #[trigger] after[j]).0 by {
        if has_key(entries, key) {
            assert(after[i].0 == entries[i].0);
            assert(after[j].0 == entries[j].0);
        } else {
            if j < entries.len() {
                assert(after[i] == entries[i]);
                assert(after[j] == entries[j]);
            } else {
                assert(after[i] == entries[i]);
            }
        }
    }
}

/// Whether the characters of `s` from position `from` on can stand between
/// quotes and be read back: every quote among them stands behind a backslash
/// that escapes it, and the last of them is no such backslash.  `escaped`
/// tells whether the character before `from` was a backslash that escapes.
pub open spec fn quotable_from(s: Seq<char>, from: int, escaped: bool) -> bool
    decreases s.len() - from,
{
    if !(0 <= from < s.len()) {
        !escaped
    } else if s[from] == '"' && !escaped {
        false
    } else {
        quotable_from(s, from + 1, s[from] == '\\' && !escaped)
    }
}

/// Text that reads back as it is when it stands between quotes: every quote
/// in it is escaped, and it does not end in a backslash that escapes.
pub open spec fn quotable(s: Seq<char>) -> bool {
    quotable_from(s, 0, false)
}

/// Text that holds neither a quote nor a backslash is quotable.
pub proof fn lemma_plain_is_quotable(s: Seq<char>, from: int)
    requires
        0 <= from,
        forall|i: int| 0 <= i < s.len() ==> s[i] != '"' && s[i] != '\\',
    ensures
        quotable_from(s, from, false),
        from == 0 ==> quotable(s),
    decreases s.len() - from,
{
    if from < s.len() {
        lemma_plain_is_quotable(s, from + 1);
    }
}

/// The greatest depth among the first `n` of `items`.
pub open spec fn deepest_item(items: Seq<JsonValue>, n: nat) -> nat
    decreases items, n,
{
    if n == 0 || n > items.len() {
        0
    } else {
        let before = deepest_item(items, (n - 1) as nat);
        let last = items[n - 1].depth();
        if last > before {
            last
        } else {
            before
        }
    }
}

/// The greatest depth among the values of the first `n` of `entries`.
pub open spec fn deepest_entry(entries: Entries, n: nat) -> nat
    decreases entries, n,
{
    if n == 0 || n > entries.len() {
        0
    } else {
        let before = deepest_entry(entries, (n - 1) as nat);
        let last = entries[n - 1].1.depth();
        if last > before {
            last
        } else {
            before
        }
    }
}

impl JsonValue {
    /// How deep the values in this value lie: the greatest number of arrays
    /// and objects of this value that stand around one of its values.  That
    /// is none for a string, a number, `true`, `false`, `null` and an array
    /// or object that holds nothing, and else one more than for the deepest
    /// of what is held.
    pub open spec fn depth(self) -> nat
        decreases self, 0nat,
    {
        match self {
            JsonValue::Array(items) => if items.len() == 0 {
                0
            } else {
                1 + deepest_item(items, items.len())
            },
            JsonValue::Object(entries) => if entries.len() == 0 {
                0
            } else {
                1 + deepest_entry(entries, entries.len())
            },
            _ => 0,
        }
    }

    /// At every depth, no object has two entries with the same key.
    pub open spec fn wf(self) -> bool
        decreases self,
    {
        match self {
            JsonValue::Array(items) => forall|i: int|
                0 <= i < items.len() ==> (#[trigger] items[i]).wf(),
            JsonValue::Object(entries) => {
                &&& distinct_keys(entries)
                &&& forall|i: int| 0 <= i < entries.len() ==> (#[trigger] entries[i]).1.wf()
            },
            _ => true,
        }
    }
}

/// An object: keys with their values, each key once.  The entries are kept
/// in the order in which their keys first came, and can be reached through
/// the methods of the object alone: none of them gives a key a second entry.
#[derive(Debug)]
pub struct Object {
    keys: Vec<String>,
    values: Vec<Json>,
}

/// A value: an array, an object, a string, a number or one of `true`,
/// `false` and `null`.  A number is held as its literal.
#[derive(Debug)]
pub enum Json {
    Array(Vec<Json>),
    Object(Object),
    String(String),
    Number(String),
    True,
    False,
    Null,
}

impl View for Json {
    type V = JsonValue;

    open spec fn view(&self) -> JsonValue
        decreases self,
    {
        match self {
            Json::Array(items) => JsonValue::Array(
                Seq::new(
                    items@.len(),
                    |i: int|
                        if 0 <= i < items@.len() {
                            items@[i].view()
                        } else {
                            JsonValue::Null
                        },
                ),
            ),
            Json::Object(object) => JsonValue::Object(object.view()),
            Json::String(s) => JsonValue::String(s@),
            Json::Number(s) => JsonValue::Number(s@),
            Json::True => JsonValue::True,
            Json::False => JsonValue::False,
            Json::Null => JsonValue::Null,
        }
    }
}

impl View for Object {
    type V = Entries;

    closed spec fn view(&self) -> Entries
        decreases self,
    {
        Seq::new(
            self.keys@.len(),
            |i: int|
                (
                    self.keys@[i]@,
                    if 0 <= i < self.values@.len() {
                        self.values@[i].view()
                    } else {
                        JsonValue::Null
                    },
                ),
        )
    }
}

/// What each of `items` stands for.
pub open spec fn item_views(items: Seq<Json>) -> Seq<JsonValue> {
    Seq::new(items.len(), |i: int| items[i]@)
}

/// An array stands for what its items stand for.
pub proof fn lemma_array_view(items: Vec<Json>)
    ensures
        Json::Array(items)@ == JsonValue::Array(item_views(items@)),
{
    assert(Json::Array(items)@->Array_0 =~= item_views(items@));
}

impl Object {
    /// Every key has its value, and no two entries have the same key.
    #[verifier::type_invariant]
    spec fn keys_once(&self) -> bool {
        &&& self.keys@.len() == self.values@.len()
        &&& forall|i: int, j: int|
            0 <= i < j < self.keys@.len() ==> (#[trigger] self.keys@[i])@ != (
            #[trigger] self.keys@[j])@
    }

    /// What the invariant says of the entries.
    proof fn lemma_keys_once(&self)
        requires
            self.keys_once(),
        ensures
            distinct_keys(self@),
    {
        assert forall|i: int, j: int| 0 <= i < j < self@.len() implies (#[trigger] self@[i]).0 != (
        #[trigger] self@[j]).0 by {
            assert(self@[i].0 == self.keys@[i]@);
            assert(self@[j].0 == self.keys@[j]@);
        }
    }

    /// An object without entries.
    pub fn new() -> (r: Object)
        ensures
            r@ == Seq::<(Seq<char>, JsonValue)>::empty(),
    {
        let r = Object { keys: Vec::new(), values: Vec::new() };
        assert(r@ =~= Seq::<(Seq<char>, JsonValue)>::empty());
        r
    }

    /// The number of entries.  No two of them have the same key.
    pub fn len(&self) -> (r: usize)
        ensures
            r == self@.len(),
            distinct_keys(self@),
    {
        proof {
            use_type_invariant(self);
            self.lemma_keys_once();
        }
        self.keys.len()
    }

    /// Whether the object has no entry.
    pub fn is_empty(&self) -> (r: bool)
        ensures
            r == (self@.len() == 0),
    {
        self.keys.len() == 0
    }

    /// The key of the entry at position `i`.
    pub fn key_at(&self, i: usize) -> (r: &str)
        requires
            i < self@.len(),
        ensures
            r@ == self@[i as int].0,
    {
        self.keys[i].as_str()
    }

    /// The value of the entry at position `i`.
    pub fn value_at(&self, i: usize) -> (r: &Json)
        requires
            i < self@.len(),
        ensures
            r@ == self@[i as int].1,
            decreases_to!(self => r),
    {
        proof {
            use_type_invariant(self);
        }
        &self.values[i]
    }

    /// The position of the first entry with the key `key`, or the number of
    /// entries where there is none.
    pub fn position(&self, key: &str) -> (r: usize)
        ensures
            r == position_of_key(self@, key@),
    {
        let mut i: usize = 0;
        while i < self.keys.len()
            invariant
                0 <= i <= self@.len(),
                self@.len() == self.keys@.len(),
                forall|k: int| 0 <= k < i ==> (#[trigger] self@[k]).0 != key@,
            decreases self@.len() - i,
        {
            if same_text(self.keys[i].as_str(), key) {
                proof {
                    lemma_position_found(self@, key@, i as int);
                }
                return i;
            }
            i = i + 1;
        }
        proof {
            lemma_position_found(self@, key@, i as int);
        }
        i
    }

    /// The value that `key` has, if it has one.
    pub fn get(&self, key: &str) -> (r: Option<&Json>)
        ensures
            match r {
                Some(value) => lookup(self@, key@) == Some(value@),
                None => lookup(self@, key@) is None,
            },
    {
        let i = self.position(key);
        proof {
            use_type_invariant(self);
        }
        if i < self.keys.len() {
            Some(&self.values[i])
        } else {
            None
        }
    }

    /// The value that `key` has, to be changed in place, if it has one.
    pub fn get_mut(&mut self, key: &str) -> (r: Option<&mut Json>)
        ensures
            match r {
                Some(value) => {
                    &&& lookup(old(self)@, key@) == Some(value@)
                    &&& final(self)@ == old(self)@.update(
                        position_of_key(old(self)@, key@),
                        (key@, final(value)@),
                    )
                },
                None => lookup(old(self)@, key@) is None && *final(self) == *old(self),
            },
    {
        let i = self.position(key);
        proof {
            use_type_invariant(&*self);
            lemma_position_of_key(self@, key@);
        }
        if i < self.keys.len() {
            Some(&mut self.values[i])
        } else {
            None
        }
    }

    /// Gives `key` the value `value`.  Where the key had a value, the new
    /// one takes its place; where it had none, a new entry goes to the end.
    pub fn insert(&mut self, key: String, value: Json)
        ensures
            final(self)@ == put(old(self)@, key@, value@),
            distinct_keys(final(self)@),
    {
        proof {
            use_type_invariant(&*self);
            self.lemma_keys_once();
            lemma_put_distinct(self@, key@, value@);
            lemma_position_of_key(self@, key@);
        }
        let i = self.position(key.as_str());
        if i < self.keys.len() {
            self.values[i] = value;
            proof {
                assert(self@ =~= put(old(self)@, key@, value@));
            }
        } else {
            let mut taken = Object::new();
            std::mem::swap(self, &mut taken);
            let mut keys = taken.keys;
            let mut values = taken.values;
            keys.push(key);
            values.push(value);
            let ghost after = Object { keys, values };
            proof {
                assert(after@ =~= put(old(self)@, key@, value@));
                assert forall|i: int, j: int| 0 <= i < j < keys@.len() implies (
                #[trigger] keys@[i])@ != (#[trigger] keys@[j])@ by {
                    assert(after@[i].0 == keys@[i]@);
                    assert(after@[j].0 == keys@[j]@);
                }
            }
            *self = Object { keys, values };
        }
    }
}

} // verus!
