//! Looking into a value.

use vstd::prelude::*;
use crate::value::{
    Json, JsonValue, Object, has_key, item_views, lemma_array_view, lookup,
    position_of_key,
};

verus! {

impl Json {
    /// The value that `key` has in this object.  `None` where this is no
    /// object, or an object without that key.
    pub fn get(&self, key: &str) -> (r: Option<&Json>)
        ensures
            match r {
                Some(value) => self@ matches JsonValue::Object(entries) && lookup(entries, key@)
                    == Some(value@),
                None => self@ matches JsonValue::Object(entries) ==> lookup(entries, key@) is None,
            },
    {
        match self {
            Json::Object(object) => object.get(key),
            _ => None,
        }
    }

    /// The item at position `i` of this array.  `None` where this is no
    /// array, or an array with no more than `i` items.
    pub fn nth(&self, i: usize) -> (r: Option<&Json>)
        ensures
            match r {
                Some(value) => self@ matches JsonValue::Array(items) && i < items.len() && items[i as int]
                    == value@,
                None => self@ matches JsonValue::Array(items) ==> i >= items.len(),
            },
    {
        match self {
            Json::Array(items) => {
                proof {
                    lemma_array_view(*items);
                }
                if i < items.len() {
                    Some(&items[i])
                } else {
                    None
                }
            },
            _ => None,
        }
    }

    /// The literal of this number, or `None` where this is no number.
    pub fn number(&self) -> (r: Option<&str>)
        ensures
            match r {
                Some(literal) => self@ == JsonValue::Number(literal@),
                None => !(self@ is Number),
            },
    {
        match self {
            Json::Number(n) => Some(n.as_str()),
            _ => None,
        }
    }

    /// The literal of this number.
    pub fn expect_number(&self) -> (r: &str)
        requires
            self@ is Number,
        ensures
            self@ == JsonValue::Number(r@),
    {
        match self {
            Json::Number(n) => n.as_str(),
            _ => vstd::pervasive::unreached(),
        }
    }

    /// The characters of this string, or `None` where this is no string.
    pub fn string(&self) -> (r: Option<&str>)
        ensures
            match r {
                Some(s) => self@ == JsonValue::String(s@),
                None => !(self@ is String),
            },
    {
        match self {
            Json::String(s) => Some(s.as_str()),
            _ => None,
        }
    }

    /// The characters of this string.
    pub fn expect_string(&self) -> (r: &str)
        requires
            self@ is String,
        ensures
            self@ == JsonValue::String(r@),
    {
        match self {
            Json::String(s) => s.as_str(),
            _ => vstd::pervasive::unreached(),
        }
    }

    /// The entries of this object, or `None` where this is no object.
    pub fn object(&self) -> (r: Option<&Object>)
        ensures
            match r {
                Some(object) => self@ == JsonValue::Object(object@),
                None => !(self@ is Object),
            },
    {
        match self {
            Json::Object(object) => Some(object),
            _ => None,
        }
    }

    /// The entries of this object.
    pub fn expect_object(&self) -> (r: &Object)
        requires
            self@ is Object,
        ensures
            self@ == JsonValue::Object(r@),
    {
        match self.object() {
            Some(object) => object,
            None => vstd::pervasive::unreached(),
        }
    }

    /// The items of this array, or `None` where this is no array.
    pub fn array(&self) -> (r: Option<&[Json]>)
        ensures
            match r {
                Some(items) => self@ == JsonValue::Array(item_views(items@)),
                None => !(self@ is Array),
            },
    {
        match self {
            Json::Array(items) => {
                proof {
                    lemma_array_view(*items);
                }
                Some(items.as_slice())
            },
            _ => None,
        }
    }

    /// The items of this array.
    pub fn expect_array(&self) -> (r: &[Json])
        requires
            self@ is Array,
        ensures
            self@ == JsonValue::Array(item_views(r@)),
    {
        match self.array() {
            Some(items) => items,
            None => vstd::pervasive::unreached(),
        }
    }

    /// Whether this is `true` or `false`, or `None` where it is neither.
    pub fn boolean(&self) -> (r: Option<bool>)
        ensures
            r == match self@ {
                JsonValue::True => Some(true),
                JsonValue::False => Some(false),
                _ => None,
            },
    {
        match self {
            Json::True => Some(true),
            Json::False => Some(false),
            _ => None,
        }
    }

    /// Whether this is `true`, given that it is `true` or `false`.
    pub fn expect_boolean(&self) -> (r: bool)
        requires
            self@ is True || self@ is False,
        ensures
            r == (self@ is True),
    {
        match self {
            Json::True => true,
            _ => false,
        }
    }

    /// The literal of this number, to be changed in place, or `None` where
    /// this is no number.
    pub fn number_mut(&mut self) -> (r: Option<&mut String>)
        ensures
            match r {
                Some(literal) => old(self)@ == JsonValue::Number(literal@) && final(self)@
                    == JsonValue::Number(final(literal)@),
                None => !(old(self)@ is Number) && *final(self) == *old(self),
            },
    {
        match self {
            Json::Number(n) => Some(n),
            _ => None,
        }
    }

    /// The literal of this number, to be changed in place.
    pub fn expect_number_mut(&mut self) -> (r: &mut String)
        requires
            old(self)@ is Number,
        ensures
            old(self)@ == JsonValue::Number(r@),
            final(self)@ == JsonValue::Number(final(r)@),
    {
        match self {
            Json::Number(n) => n,
            _ => vstd::pervasive::unreached(),
        }
    }

    /// The characters of this string, to be changed in place, or `None`
    /// where this is no string.
    pub fn string_mut(&mut self) -> (r: Option<&mut String>)
        ensures
            match r {
                Some(s) => old(self)@ == JsonValue::String(s@) && final(self)@
                    == JsonValue::String(final(s)@),
                None => !(old(self)@ is String) && *final(self) == *old(self),
            },
    {
        match self {
            Json::String(s) => Some(s),
            _ => None,
        }
    }

    /// The characters of this string, to be changed in place.
    pub fn expect_string_mut(&mut self) -> (r: &mut String)
        requires
            old(self)@ is String,
        ensures
            old(self)@ == JsonValue::String(r@),
            final(self)@ == JsonValue::String(final(r)@),
    {
        match self {
            Json::String(s) => s,
            _ => vstd::pervasive::unreached(),
        }
    }

    /// The entries of this object, to be changed in place, or `None` where
    /// this is no object.
    pub fn object_mut(&mut self) -> (r: Option<&mut Object>)
        ensures
            match r {
                Some(object) => old(self)@ == JsonValue::Object(object@) && final(self)@
                    == JsonValue::Object(final(object)@),
                None => !(old(self)@ is Object) && *final(self) == *old(self),
            },
    {
        match self {
            Json::Object(object) => Some(object),
            _ => None,
        }
    }

    /// The entries of this object, to be changed in place.
    pub fn expect_object_mut(&mut self) -> (r: &mut Object)
        requires
            old(self)@ is Object,
        ensures
            old(self)@ == JsonValue::Object(r@),
            final(self)@ == JsonValue::Object(final(r)@),
    {
        match self {
            Json::Object(object) => object,
            _ => vstd::pervasive::unreached(),
        }
    }

    /// The items of this array, to be changed in place, or `None` where this
    /// is no array.
    pub fn array_mut(&mut self) -> (r: Option<&mut Vec<Json>>)
        ensures
            match r {
                Some(items) => old(self)@ == JsonValue::Array(item_views(items@)) && final(self)@
                    == JsonValue::Array(item_views(final(items)@)),
                None => !(old(self)@ is Array) && *final(self) == *old(self),
            },
    {
        match self {
            Json::Array(items) => {
                proof {
                    lemma_array_view(*items);
                    lemma_array_view(*final(items));
                }
                Some(items)
            },
            _ => None,
        }
    }

    /// The items of this array, to be changed in place.
    pub fn expect_array_mut(&mut self) -> (r: &mut Vec<Json>)
        requires
            old(self)@ is Array,
        ensures
            old(self)@ == JsonValue::Array(item_views(r@)),
            final(self)@ == JsonValue::Array(item_views(final(r)@)),
    {
        match self {
            Json::Array(items) => {
                proof {
                    lemma_array_view(*items);
                    lemma_array_view(*final(items));
                }
                items
            },
            _ => vstd::pervasive::unreached(),
        }
    }

    /// The value that `key` has in this object, to be changed in place.
    /// `None` where this is no object, or an object without that key.
    pub fn get_mut(&mut self, key: &str) -> (r: Option<&mut Json>)
        ensures
            match r {
                Some(value) => {
                    &&& old(self)@ matches JsonValue::Object(entries)
                    &&& lookup(entries, key@) == Some(value@)
                    &&& final(self)@ == JsonValue::Object(
                        entries.update(position_of_key(entries, key@), (key@, final(value)@)),
                    )
                },
                None => {
                    &&& old(self)@ matches JsonValue::Object(entries) ==> lookup(entries, key@) is None
                    &&& *final(self) == *old(self)
                },
            },
    {
        match self {
            Json::Object(object) => object.get_mut(key),
            _ => None,
        }
    }

    /// The item at position `i` of this array, to be changed in place.
    /// `None` where this is no array, or an array with no more than `i`
    /// items.
    pub fn nth_mut(&mut self, i: usize) -> (r: Option<&mut Json>)
        ensures
            match r {
                Some(value) => {
                    &&& old(self)@ matches JsonValue::Array(items)
                    &&& i < items.len()
                    &&& items[i as int] == value@
                    &&& final(self)@ == JsonValue::Array(items.update(i as int, final(value)@))
                },
                None => {
                    &&& old(self)@ matches JsonValue::Array(items) ==> i >= items.len()
                    &&& *final(self) == *old(self)
                },
            },
    {
        match self {
            Json::Array(items) => {
                proof {
                    lemma_array_view(*items);
                    lemma_array_view(*final(items));
                    assert forall|x: Json| i < items@.len() implies #[trigger] item_views(
                        items@.update(i as int, x),
                    ) == item_views(items@).update(i as int, x@) by {
                        assert(item_views(items@.update(i as int, x)) =~= item_views(
                            items@,
                        ).update(i as int, x@));
                    }
                }
                if i < items.len() {
                    Some(&mut items[i])
                } else {
                    None
                }
            },
            _ => None,
        }
    }

    /// Whether this is `null`.
    pub fn is_null(&self) -> (r: bool)
        ensures
            r == (self@ is Null),
    {
        match self {
            Json::Null => true,
            _ => false,
        }
    }
}

/// `json[key]` is the value that `key` has in the object `json`.  It is for
/// an object that has the key.
impl std::ops::Index<&str> for Json {
    type Output = Json;

    fn index(&self, key: &str) -> (r: &Json)
        ensures
            self@ matches JsonValue::Object(entries) && lookup(entries, key@) == Some(r@),
    {
        match self.get(key) {
            Some(value) => value,
            None => vstd::pervasive::unreached(),
        }
    }
}

impl vstd::std_specs::core::IndexSpecImpl<&str> for Json {
    open spec fn index_req(&self, key: &&str) -> bool {
        self@ matches JsonValue::Object(entries) && has_key(entries, key@)
    }
}

/// `json[i]` is the item at position `i` of the array `json`.  It is for an
/// array with more than `i` items.
impl std::ops::Index<usize> for Json {
    type Output = Json;

    fn index(&self, i: usize) -> (r: &Json)
        ensures
            self@ matches JsonValue::Array(items) && items[i as int] == r@,
    {
        match self.nth(i) {
            Some(value) => value,
            None => vstd::pervasive::unreached(),
        }
    }
}

impl vstd::std_specs::core::IndexSpecImpl<usize> for Json {
    open spec fn index_req(&self, i: &usize) -> bool {
        self@ matches JsonValue::Array(items) && *i < items.len()
    }
}

} // verus!
