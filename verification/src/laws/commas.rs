//! What a comma before a closing bracket or brace comes to.

use vstd::prelude::*;
use vstd::utf8::encode_utf8;
use crate::codec::{read, render_entries, render_items};
use crate::config::JsonConfig;
use crate::error::Failure;
use crate::laws::lemma_tokens_of_text;
use crate::laws::lexemes::{
    Lexeme, concat, entry_lexemes, item_lexemes, lemma_concat_add, lemma_concat_one,
    lemma_entry_lexemes, lemma_item_lexemes, lemma_lexable_add, lexable, mark, reads_back,
};
use crate::laws::relex::tokens_for;
use crate::laws::reparse::{
    lemma_array_items, lemma_object_entries, lemma_window, token_is, tokens_are,
};
use crate::lexer::token::TokenType;
use crate::syntax::{Input, Parsed};
use crate::value::{Entries, JsonValue};

verus! {

/// The text of an array of `items`, with a comma before the closing bracket.
pub open spec fn list_with_comma(items: Seq<JsonValue>) -> Seq<char> {
    seq!['['] + render_items(items, items.len()) + seq![',', ']']
}

/// The text of an object of `entries`, with a comma before the closing
/// brace.
pub open spec fn object_with_comma(entries: Entries) -> Seq<char> {
    seq!['{'] + render_entries(entries, entries.len()) + seq![',', '}']
}

/// The lexemes `inner` between the marks `open` and `close`, with a comma
/// before `close`.
pub open spec fn closed_with_comma(open: Lexeme, inner: Seq<Lexeme>, close: Lexeme) -> Seq<
    Lexeme,
> {
    seq![open] + inner + seq![mark(TokenType::Comma, ',')] + seq![close]
}

/// Lexable lexemes between a bracket or brace and a comma and its
/// counterpart are lexable, and their characters are what they are made of.
pub proof fn lemma_closed_with_comma(open: Lexeme, inner: Seq<Lexeme>, close: Lexeme)
    requires
        lexable(inner),
        open == mark(TokenType::LSquareBracket, '[') && close == mark(
            TokenType::RSquareBracket,
            ']',
        ) || open == mark(TokenType::LeftBrace, '{') && close == mark(TokenType::RightBrace, '}'),
    ensures
        lexable(closed_with_comma(open, inner, close)),
        concat(closed_with_comma(open, inner, close)) == open.text + concat(inner) + seq![',']
            + close.text,
{
    let comma = mark(TokenType::Comma, ',');
    lemma_lexable_add(seq![open], inner);
    lemma_lexable_add(seq![open] + inner, seq![comma]);
    lemma_lexable_add(seq![open] + inner + seq![comma], seq![close]);
    lemma_concat_add(seq![open], inner);
    lemma_concat_add(seq![open] + inner, seq![comma]);
    lemma_concat_add(seq![open] + inner + seq![comma], seq![close]);
    lemma_concat_one(open);
    lemma_concat_one(comma);
    lemma_concat_one(close);
}

/// Where in tokens that are lexemes between marks, with a comma before the
/// closing mark, the lexemes and the marks stand.
pub proof fn lemma_comma_window(input: Input, open: Lexeme, inner: Seq<Lexeme>, close: Lexeme)
    requires
        tokens_are(input, 0, closed_with_comma(open, inner, close)),
    ensures
        token_is(input, 0, open),
        tokens_are(input, 1, inner),
        token_is(input, inner.len() as int + 1, mark(TokenType::Comma, ',')),
        token_is(input, inner.len() as int + 2, close),
{
    let comma = seq![mark(TokenType::Comma, ',')];
    lemma_window(input, 0, seq![open] + inner + comma, seq![close]);
    lemma_window(input, 0, seq![open] + inner, comma);
    lemma_window(input, 0, seq![open], inner);
    let end = 1 + inner.len() as int;
    assert(token_is(input, 0int + 0, seq![open][0]));
    assert(token_is(input, end + 0, comma[0]));
    assert(token_is(input, end + 1 + 0, seq![close][0]));
}

/// What the parser makes of tokens that are an array with a comma before
/// the closing bracket.
pub proof fn lemma_list_with_comma(input: Input, items: Seq<JsonValue>)
    requires
        items.len() > 0,
        reads_back(JsonValue::Array(items)),
        JsonValue::Array(items).depth() <= input.conf.max_depth,
        tokens_are(
            input,
            0,
            closed_with_comma(
                mark(TokenType::LSquareBracket, '['),
                item_lexemes(items, items.len()),
                mark(TokenType::RSquareBracket, ']'),
            ),
        ),
    ensures
        input.conf.recover_from_errors ==> input.parsed() == Ok::<JsonValue, Failure>(
            JsonValue::Array(items),
        ),
        !input.conf.recover_from_errors ==> (input.parsed() matches Err(failure) && failure.msg
            == "Trailing comma on list"@),
{
    let inner = item_lexemes(items, items.len());
    lemma_comma_window(
        input,
        mark(TokenType::LSquareBracket, '['),
        inner,
        mark(TokenType::RSquareBracket, ']'),
    );
    assert(items.take(0) =~= Seq::<JsonValue>::empty());
    lemma_array_items(input, 1, 1, items, 0);
}

/// What the parser makes of tokens that are an object with a comma before
/// the closing brace.
pub proof fn lemma_object_with_comma(input: Input, entries: Entries)
    requires
        entries.len() > 0,
        reads_back(JsonValue::Object(entries)),
        JsonValue::Object(entries).depth() <= input.conf.max_depth,
        tokens_are(
            input,
            0,
            closed_with_comma(
                mark(TokenType::LeftBrace, '{'),
                entry_lexemes(entries, entries.len()),
                mark(TokenType::RightBrace, '}'),
            ),
        ),
    ensures
        input.conf.recover_from_errors ==> input.parsed() == Ok::<JsonValue, Failure>(
            JsonValue::Object(entries),
        ),
        !input.conf.recover_from_errors ==> (input.parsed() matches Err(failure) && failure.msg
            == "Trailing comma in object"@),
{
    let inner = entry_lexemes(entries, entries.len());
    lemma_comma_window(
        input,
        mark(TokenType::LeftBrace, '{'),
        inner,
        mark(TokenType::RightBrace, '}'),
    );
    assert(entries.take(0) =~= Seq::<(Seq<char>, JsonValue)>::empty());
    lemma_object_entries(input, 1, 1, entries, 0);
    let end = 1 + inner.len() as int;
    assert(input.object_from(end + 1, 1, entries) == Parsed::Done(
        JsonValue::Object(entries),
        end + 2,
    ));
}

/// A comma before the closing bracket of an array is passed over where the
/// configuration recovers from errors, and the array is read as without it.
/// Where the configuration does not recover, the comma is refused.
///
/// This holds of every array that reads back, holds an item, and holds no
/// value deeper than the configuration allows.
pub proof fn law_trailing_comma_on_list(items: Seq<JsonValue>, conf: JsonConfig)
    requires
        items.len() > 0,
        reads_back(JsonValue::Array(items)),
        JsonValue::Array(items).depth() <= conf.max_depth,
        encode_utf8(list_with_comma(items)).len() <= usize::MAX,
    ensures
        conf.recover_from_errors ==> read(list_with_comma(items), conf) == Ok::<
            JsonValue,
            Failure,
        >(JsonValue::Array(items)),
        !conf.recover_from_errors ==> (read(list_with_comma(items), conf) matches Err(failure)
            && failure.msg == "Trailing comma on list"@),
{
    let open = mark(TokenType::LSquareBracket, '[');
    let inner = item_lexemes(items, items.len());
    let close = mark(TokenType::RSquareBracket, ']');
    let found = closed_with_comma(open, inner, close);
    lemma_item_lexemes(items, items.len());
    lemma_closed_with_comma(open, inner, close);
    assert(concat(found) =~= list_with_comma(items));
    lemma_tokens_of_text(found, conf);
    lemma_list_with_comma(Input { src: concat(found), tokens: tokens_for(found, Seq::empty()), conf }, items);
}

/// A comma before the closing brace of an object is passed over where the
/// configuration recovers from errors, and the object is read as without it.
/// Where the configuration does not recover, the comma is refused.
///
/// This holds of every object that reads back, holds an entry, and holds no
/// value deeper than the configuration allows.
pub proof fn law_trailing_comma_in_object(entries: Entries, conf: JsonConfig)
    requires
        entries.len() > 0,
        reads_back(JsonValue::Object(entries)),
        JsonValue::Object(entries).depth() <= conf.max_depth,
        encode_utf8(object_with_comma(entries)).len() <= usize::MAX,
    ensures
        conf.recover_from_errors ==> read(object_with_comma(entries), conf) == Ok::<
            JsonValue,
            Failure,
        >(JsonValue::Object(entries)),
        !conf.recover_from_errors ==> (read(object_with_comma(entries), conf) matches Err(failure)
            && failure.msg == "Trailing comma in object"@),
{
    let open = mark(TokenType::LeftBrace, '{');
    let inner = entry_lexemes(entries, entries.len());
    let close = mark(TokenType::RightBrace, '}');
    let found = closed_with_comma(open, inner, close);
    lemma_entry_lexemes(entries, entries.len());
    lemma_closed_with_comma(open, inner, close);
    assert(concat(found) =~= object_with_comma(entries));
    lemma_tokens_of_text(found, conf);
    lemma_object_with_comma(
        Input { src: concat(found), tokens: tokens_for(found, Seq::empty()), conf },
        entries,
    );
}

} // verus!
