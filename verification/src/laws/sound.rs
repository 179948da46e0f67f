//! What holds of every value that the parser makes.

use vstd::prelude::*;
use crate::equal::same;
use crate::laws::lexemes::reads_back;
use crate::lexer::token::TokenType;
use crate::syntax::{Input, Parsed, unquoted};
use crate::value::{
    Entries, JsonValue, distinct_keys, lemma_position_of_key, lemma_put_distinct, lookup, put,
};

verus! {

/// Where the parser made a value from position `curr` on, no object in the
/// value has a key twice, and the parser took at least one token and none
/// but those that are there.
pub open spec fn sound(input: Input, curr: int, parsed: Parsed) -> bool {
    parsed matches Parsed::Done(value, next) ==> value.wf() && curr < next <= input.tokens.len()
}

/// Giving a key a value that holds no key twice keeps the values free of
/// keys held twice.
pub proof fn lemma_put_wf(entries: Entries, key: Seq<char>, value: JsonValue)
    requires
        forall|i: int| 0 <= i < entries.len() ==> (#[trigger] entries[i]).1.wf(),
        value.wf(),
    ensures
        forall|i: int|
            0 <= i < put(entries, key, value).len() ==> (#[trigger] put(entries, key, value)[i]).1.wf(),
{
    lemma_position_of_key(entries, key);
    let after = put(entries, key, value);
    assert forall|i: int| 0 <= i < after.len() implies (#[trigger] after[i]).1.wf() by {
        if i < entries.len() && i != crate::value::position_of_key(entries, key) {
            assert(after[i] == entries[i]);
        }
    }
}

/// What the parser makes of a value is sound.
pub proof fn lemma_value_sound(input: Input, curr: int, depth: nat)
    ensures
        sound(input, curr, input.value(curr, depth)),
    decreases input.tokens.len() - curr, 0nat,
{
    if 0 <= curr < input.tokens.len() {
        if input.kind(curr) == Some(TokenType::LSquareBracket) {
            lemma_array_sound(input, curr + 1, depth + 1, Seq::empty());
        } else if input.kind(curr) == Some(TokenType::LeftBrace) {
            lemma_object_sound(input, curr + 1, depth + 1, Seq::empty());
        }
    }
}

/// What the parser makes of the rest of an array is sound.
pub proof fn lemma_array_sound(input: Input, curr: int, depth: nat, items: Seq<JsonValue>)
    requires
        forall|i: int| 0 <= i < items.len() ==> (#[trigger] items[i]).wf(),
    ensures
        sound(input, curr, input.array_from(curr, depth, items)),
    decreases input.tokens.len() - curr, 1nat,
{
    if 0 <= curr < input.tokens.len() {
        let at = if items.len() > 0 {
            curr + 1
        } else {
            curr
        };
        if at < input.tokens.len() {
            lemma_value_sound(input, at, depth);
            match input.value(at, depth) {
                Parsed::Done(item, next) => {
                    if at < next <= input.tokens.len() {
                        let more = items.push(item);
                        assert forall|i: int| 0 <= i < more.len() implies (#[trigger] more[i]).wf() by {
                            if i < items.len() {
                                assert(more[i] == items[i]);
                            }
                        }
                        lemma_array_sound(input, next, depth, more);
                    }
                },
                Parsed::Failed(_) => {},
            }
        }
    }
}

/// What the parser makes of the rest of an object is sound.
pub proof fn lemma_object_sound(input: Input, curr: int, depth: nat, entries: Entries)
    requires
        distinct_keys(entries),
        forall|i: int| 0 <= i < entries.len() ==> (#[trigger] entries[i]).1.wf(),
    ensures
        sound(input, curr, input.object_from(curr, depth, entries)),
    decreases input.tokens.len() - curr, 1nat,
{
    if 0 <= curr < input.tokens.len() {
        let at = if entries.len() > 0 {
            curr + 1
        } else {
            curr
        };
        if input.kind(at) != Some(TokenType::String) {
            if entries.len() > 0 && input.conf.recover_from_errors {
                lemma_object_sound(input, at, depth, entries);
            }
        } else if input.kind(at + 1) == Some(TokenType::Colon) {
            lemma_value_sound(input, at + 2, depth);
            match input.value(at + 2, depth) {
                Parsed::Done(item, next) => {
                    if at < next <= input.tokens.len() {
                        let key = unquoted(input.lexeme(at));
                        lemma_put_distinct(entries, key, item);
                        lemma_put_wf(entries, key, item);
                        lemma_object_sound(input, next, depth, put(entries, key, item));
                    }
                },
                Parsed::Failed(_) => {},
            }
        }
    }
}

/// A value that reads back holds no key twice.
pub proof fn lemma_reads_back_wf(value: JsonValue)
    requires
        reads_back(value),
    ensures
        value.wf(),
    decreases value,
{
    match value {
        JsonValue::Array(items) => {
            assert forall|i: int| 0 <= i < items.len() implies (#[trigger] items[i]).wf() by {
                lemma_reads_back_wf(items[i]);
            }
        },
        JsonValue::Object(entries) => {
            assert forall|i: int| 0 <= i < entries.len() implies (#[trigger] entries[i]).1.wf() by {
                lemma_reads_back_wf(entries[i].1);
            }
        },
        _ => {},
    }
}

/// A value that holds no key twice is the same as itself.
pub proof fn lemma_same_reflexive(value: JsonValue)
    requires
        value.wf(),
    ensures
        same(value, value),
    decreases value,
{
    match value {
        JsonValue::Array(items) => {
            assert forall|i: int| 0 <= i < items.len() implies same(#[trigger] items[i], items[i]) by {
                lemma_same_reflexive(items[i]);
            }
        },
        JsonValue::Object(entries) => {
            assert forall|i: int| 0 <= i < entries.len() implies (lookup(
                entries,
                (#[trigger] entries[i]).0,
            ) matches Some(found) && same(entries[i].1, found)) by {
                crate::value::lemma_position_found(entries, entries[i].0, i);
                lemma_same_reflexive(entries[i].1);
            }
        },
        _ => {},
    }
}

} // verus!
