//! Reading a value from text and writing one as text.

use vstd::prelude::*;
use vstd::string::StringExecFns;
use crate::config::JsonConfig;
use crate::error::{Error, Failure};
use crate::laws::law_keys_once;
use crate::lexer::grammar::tokens_of;
use crate::lexer::tokenize;
use crate::parser::{json_view, parse};
use crate::syntax::Input;
use crate::value::{Entries, Json, JsonValue};

verus! {

/// The value that `text` holds under the configuration `conf`, or the first
/// failure: that of the lexer if it has one, else that of the parser.
pub open spec fn read(text: Seq<char>, conf: JsonConfig) -> Result<JsonValue, Failure> {
    match tokens_of(text, conf) {
        Ok(tokens) => (Input { src: text, tokens, conf }).parsed(),
        Err(failure) => Err(failure),
    }
}

/// The compact text of a value: no white space, items and entries set apart
/// by commas, a key and its value by a colon, strings and keys between
/// quotes and otherwise as they are, and a number as its literal.
pub open spec fn render(value: JsonValue) -> Seq<char>
    decreases value, 0nat,
{
    match value {
        JsonValue::Array(items) => seq!['['] + render_items(items, items.len()) + seq![']'],
        JsonValue::Object(entries) => seq!['{'] + render_entries(entries, entries.len()) + seq![
            '}',
        ],
        JsonValue::String(s) => seq!['"'] + s + seq!['"'],
        JsonValue::Number(literal) => literal,
        JsonValue::True => "true"@,
        JsonValue::False => "false"@,
        JsonValue::Null => "null"@,
    }
}

/// The text of the first `n` of `items`, set apart by commas.
pub open spec fn render_items(items: Seq<JsonValue>, n: nat) -> Seq<char>
    decreases items, n,
{
    if n == 0 || n > items.len() {
        Seq::empty()
    } else if n == 1 {
        render(items[0])
    } else {
        render_items(items, (n - 1) as nat) + seq![','] + render(items[n - 1])
    }
}

/// The text of one entry: the key between quotes, a colon, and the value.
pub open spec fn render_entry(key: Seq<char>, value: Seq<char>) -> Seq<char> {
    seq!['"'] + key + seq!['"', ':'] + value
}

/// The text of the first `n` of `entries`, set apart by commas.
pub open spec fn render_entries(entries: Entries, n: nat) -> Seq<char>
    decreases entries, n,
{
    if n == 0 || n > entries.len() {
        Seq::empty()
    } else if n == 1 {
        render_entry(entries[0].0, render(entries[0].1))
    } else {
        render_entries(entries, (n - 1) as nat) + seq![','] + render_entry(
            entries[n - 1].0,
            render(entries[n - 1].1),
        )
    }
}

impl Json {
    /// Reads a value from `text` under the strictest configuration: deepest
    /// nesting, no recovery, no comments.
    pub fn deserialize(text: &str) -> (r: Result<Json, Error>)
        ensures
            json_view(r) == read(text@, JsonConfig::strict()),
            r matches Ok(json) ==> json@.wf(),
    {
        Json::deserialize_with_config(text, JsonConfig::default())
    }

    /// Reads a value from `text` under the configuration `conf`.
    pub fn deserialize_with_config(text: &str, conf: JsonConfig) -> (r: Result<Json, Error>)
        ensures
            json_view(r) == read(text@, conf),
            r matches Ok(json) ==> json@.wf(),
    {
        proof {
            law_keys_once(text@, conf);
        }
        match tokenize(text, conf) {
            Ok(tokens) => parse(text, tokens.as_slice(), conf),
            Err(e) => Err(e),
        }
    }

    /// Writes the value as compact text to the end of `out`.
    pub fn serialize(&self, out: &mut String)
        ensures
            final(out)@ == old(out)@ + render(self@),
        decreases self,
    {
        match self {
            Json::Array(elements) => {
                out.push('[');
                let ghost items = self@->Array_0;
                let mut i: usize = 0;
                while i < elements.len()
                    invariant
                        0 <= i <= elements@.len(),
                        self == Json::Array(*elements),
                        items == self@->Array_0,
                        items.len() == elements@.len(),
                        out@ == old(out)@ + seq!['['] + render_items(items, i as nat),
                    decreases elements@.len() - i,
                {
                    if i > 0 {
                        out.push(',');
                    }
                    elements[i].serialize(out);
                    i = i + 1;
                    proof {
                        assert(items[i - 1] == elements@[i - 1]@);
                        assert(out@ =~= old(out)@ + seq!['['] + render_items(items, i as nat));
                    }
                }
                out.push(']');
                proof {
                    assert(out@ =~= old(out)@ + render(self@));
                }
            },
            Json::Object(object) => {
                out.push('{');
                let ghost entries = self@->Object_0;
                let mut i: usize = 0;
                while i < object.len()
                    invariant
                        0 <= i <= object@.len(),
                        self == Json::Object(*object),
                        entries == object@,
                        out@ == old(out)@ + seq!['{'] + render_entries(entries, i as nat),
                    decreases object@.len() - i,
                {
                    if i > 0 {
                        out.push(',');
                    }
                    out.push('"');
                    out.append(object.key_at(i));
                    out.push('"');
                    out.push(':');
                    let value = object.value_at(i);
                    proof {
                        assert(decreases_to!(*self => self->Object_0));
                    }
                    value.serialize(out);
                    i = i + 1;
                    proof {
                        assert(out@ =~= old(out)@ + seq!['{'] + render_entries(entries, i as nat));
                    }
                }
                out.push('}');
                proof {
                    assert(out@ =~= old(out)@ + render(self@));
                }
            },
            Json::String(s) => {
                out.push('"');
                out.append(s.as_str());
                out.push('"');
                proof {
                    assert(out@ =~= old(out)@ + render(self@));
                }
            },
            Json::Number(n) => {
                out.append(n.as_str());
            },
            Json::True => {
                out.append("true");
            },
            Json::False => {
                out.append("false");
            },
            Json::Null => {
                out.append("null");
            },
        }
    }

    /// The value as compact text.
    pub fn to_string(&self) -> (r: String)
        ensures
            r@ == render(self@),
    {
        let mut out = String::new();
        self.serialize(&mut out);
        proof {
            assert(Seq::<char>::empty() + render(self@) =~= render(self@));
        }
        out
    }
}

} // verus!
