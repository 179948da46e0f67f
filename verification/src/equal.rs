//! When two values are the same.

use vstd::prelude::*;
use vstd::std_specs::cmp::PartialEqSpecImpl;
use crate::text::same_text;
use crate::value::{
    Json, JsonValue, Object, item_views, lemma_array_view, lookup,
};

verus! {

/// Two values are the same where they are of one kind and hold the same:
/// arrays the same items in the same order, objects the same values under
/// the same keys in any order, strings the same characters, and numbers the
/// same literal.
pub open spec fn same(left: JsonValue, right: JsonValue) -> bool
    decreases left,
{
    match left {
        JsonValue::Array(items) => {
            &&& right matches JsonValue::Array(others)
            &&& items.len() == others.len()
            &&& forall|i: int| 0 <= i < items.len() ==> same(#[trigger] items[i], others[i])
        },
        JsonValue::Object(entries) => {
            &&& right matches JsonValue::Object(others)
            &&& entries.len() == others.len()
            &&& forall|i: int|
                0 <= i < entries.len() ==> (lookup(others, (#[trigger] entries[i]).0) matches Some(
                    value,
                ) && same(entries[i].1, value))
        },
        JsonValue::String(s) => right == JsonValue::String(s),
        JsonValue::Number(literal) => right == JsonValue::Number(literal),
        JsonValue::True => right is True,
        JsonValue::False => right is False,
        JsonValue::Null => right is Null,
    }
}

impl Json {
    /// Whether this value and `other` are the same.
    #[verifier::loop_isolation(false)]
    pub fn same_as(&self, other: &Json) -> (r: bool)
        ensures
            r == same(self@, other@),
        decreases self,
    {
        match self {
            Json::Array(items) => {
                proof {
                    lemma_array_view(*items);
                }
                match other {
                    Json::Array(others) => {
                        proof {
                            lemma_array_view(*others);
                        }
                        if items.len() != others.len() {
                            return false;
                        }
                        let mut i: usize = 0;
                        while i < items.len()
                            invariant
                                0 <= i <= items@.len(),
                                items@.len() == others@.len(),
                                self == Json::Array(*items),
                                forall|k: int|
                                    0 <= k < i ==> same(
                                        #[trigger] item_views(items@)[k],
                                        item_views(others@)[k],
                                    ),
                            decreases items@.len() - i,
                        {
                            if !items[i].same_as(&others[i]) {
                                proof {
                                    assert(!same(
                                        item_views(items@)[i as int],
                                        item_views(others@)[i as int],
                                    ));
                                }
                                return false;
                            }
                            i = i + 1;
                        }
                        true
                    },
                    _ => false,
                }
            },
            Json::Object(object) => {
                match other {
                    Json::Object(others) => {
                        if object.len() != others.len() {
                            return false;
                        }
                        let mut i: usize = 0;
                        while i < object.len()
                            invariant
                                0 <= i <= object@.len(),
                                object@.len() == others@.len(),
                                self == Json::Object(*object),
                                forall|k: int|
                                    0 <= k < i ==> (lookup(others@, (#[trigger] object@[k]).0) matches Some(
                                        value,
                                    ) && same(object@[k].1, value)),
                            decreases object@.len() - i,
                        {
                            let found = others.get(object.key_at(i));
                            let agree = match found {
                                Some(value) => object.value_at(i).same_as(value),
                                None => false,
                            };
                            if !agree {
                                proof {
                                    let entry = object@[i as int];
                                    assert(!(lookup(others@, entry.0) matches Some(value) && same(
                                        entry.1,
                                        value,
                                    )));
                                }
                                return false;
                            }
                            i = i + 1;
                        }
                        true
                    },
                    _ => false,
                }
            },
            Json::String(s) => match other {
                Json::String(t) => same_text(s.as_str(), t.as_str()),
                _ => false,
            },
            Json::Number(s) => match other {
                Json::Number(t) => same_text(s.as_str(), t.as_str()),
                _ => false,
            },
            Json::True => match other {
                Json::True => true,
                _ => false,
            },
            Json::False => match other {
                Json::False => true,
                _ => false,
            },
            Json::Null => match other {
                Json::Null => true,
                _ => false,
            },
        }
    }
}

impl PartialEq for Json {
    fn eq(&self, other: &Json) -> (r: bool) {
        self.same_as(other)
    }
}

impl PartialEqSpecImpl for Json {
    open spec fn obeys_eq_spec() -> bool {
        true
    }

    open spec fn eq_spec(&self, other: &Json) -> bool {
        same(self@, other@)
    }
}

} // verus!
