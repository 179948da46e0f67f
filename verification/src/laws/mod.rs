//! What holds of reading and writing together.

pub mod commas;
pub mod comments;
pub mod equality;
pub mod lexemes;
pub mod relex;
pub mod reparse;
pub mod sound;

use vstd::prelude::*;
use vstd::utf8::encode_utf8;
use crate::codec::{read, render};
use crate::config::JsonConfig;
use crate::equal::same;
use crate::error::Failure;
use crate::laws::lexemes::{
    Lexeme, concat, lemma_lexemes, lemma_plain_reads_back, lexable, lexemes, plain, reads_back,
};
use crate::laws::relex::{
    ended, lemma_offset, lemma_offset_ends, lemma_relex, offset, tokens_for,
};
use crate::laws::reparse::{lemma_reparse, token_is, tokens_are};
use crate::laws::sound::{lemma_reads_back_wf, lemma_same_reflexive, lemma_value_sound};
use crate::lexer::chars::{alphabetic, alphanumeric, numeric};
use crate::lexer::followed_by;
use crate::lexer::grammar::{Class, lemma_run_ends, tokens_from, tokens_of, unknown_keyword};
use crate::lexer::span::lemma_span_between;
use crate::lexer::token::Token;
use crate::syntax::Input;
use crate::value::{JsonValue, deepest_item};

verus! {

/// `inner` within `n` arrays, each of which holds nothing but the next.
pub open spec fn nested(inner: JsonValue, n: nat) -> JsonValue
    decreases n,
{
    if n == 0 {
        inner
    } else {
        JsonValue::Array(seq![nested(inner, (n - 1) as nat)])
    }
}

/// The lexer cuts the text that lexable lexemes and `rest` make up into the
/// tokens that stand for the lexemes, and then what it finds in `rest`.  The
/// text must fit a string of this machine.
pub proof fn lemma_tokens_of_lexemes(found: Seq<Lexeme>, rest: Seq<char>, conf: JsonConfig)
    requires
        lexable(found),
        ended(found, rest),
        encode_utf8(concat(found) + rest).len() <= usize::MAX,
    ensures
        tokens_of(concat(found) + rest, conf) == followed_by(
            tokens_for(found, rest),
            tokens_from(concat(found) + rest, concat(found).len() as int, conf),
        ),
        tokens_are(
            Input { src: concat(found) + rest, tokens: tokens_for(found, rest), conf },
            0,
            found,
        ),
{
    let text = concat(found) + rest;
    let tokens = tokens_for(found, rest);
    lemma_offset_ends(found);
    lemma_relex(found, rest, 0, conf);
    assert(tokens.skip(0) =~= tokens);
    let input = Input { src: text, tokens, conf };
    assert forall|k: int| 0 <= k < found.len() implies token_is(input, 0 + k, #[trigger] found[k]) by {
        lemma_offset(found, k);
        lemma_span_between(text, offset(found, k), offset(found, k + 1));
        assert(text.subrange(offset(found, k), offset(found, k + 1)) =~= concat(found).subrange(
            offset(found, k),
            offset(found, k + 1),
        ));
    }
}

/// The lexer cuts the text that lexable lexemes make up into the tokens that
/// stand for them.  The text must fit a string of this machine.
pub proof fn lemma_tokens_of_text(found: Seq<Lexeme>, conf: JsonConfig)
    requires
        lexable(found),
        encode_utf8(concat(found)).len() <= usize::MAX,
    ensures
        tokens_of(concat(found), conf) == Ok::<Seq<Token>, Failure>(
            tokens_for(found, Seq::empty()),
        ),
        tokens_are(
            Input { src: concat(found), tokens: tokens_for(found, Seq::empty()), conf },
            0,
            found,
        ),
{
    let rest = Seq::<char>::empty();
    assert(concat(found) + rest =~= concat(found));
    lemma_tokens_of_lexemes(found, rest, conf);
    assert(tokens_for(found, rest) + Seq::<Token>::empty() =~= tokens_for(found, rest));
}

/// The text of a value is read as the value: as the very same entries in
/// the same order, and so as a value that is the same whatever the order.
/// That is so where no value in it lies deeper than the configuration
/// allows; where one does, the text is refused as nesting too deeply.
///
/// This holds of every value that reads back: one in whose strings and keys
/// every quote is escaped and no backslash that escapes stands last, whose
/// numbers are decimal literals, and whose objects hold no key twice.  The
/// text must fit a string of this machine.  Recovery and comments, allowed
/// or not, make no difference.
pub proof fn law_read_what_was_written(value: JsonValue, conf: JsonConfig)
    requires
        reads_back(value),
        encode_utf8(render(value)).len() <= usize::MAX,
    ensures
        value.depth() <= conf.max_depth ==> read(render(value), conf) == Ok::<JsonValue, Failure>(
            value,
        ),
        value.depth() <= conf.max_depth ==> (read(render(value), conf) matches Ok(again) && same(
            value,
            again,
        )),
        value.depth() > conf.max_depth ==> (read(render(value), conf) matches Err(failure)
            && failure.msg == "Max depth reached"@),
{
    lemma_reads_back_wf(value);
    lemma_same_reflexive(value);
    let found = lexemes(value);
    lemma_lexemes(value);
    lemma_tokens_of_text(found, conf);
    lemma_reparse(
        Input { src: render(value), tokens: tokens_for(found, Seq::empty()), conf },
        0,
        0,
        value,
    );
}

/// The text of a plain value is read as the value: of a value that holds
/// nothing but arrays, objects, `true`, `false`, `null` and strings, with
/// neither a quote nor a backslash in a string or a key and no key twice in
/// an object.  No value in it may lie deeper than the configuration allows,
/// and the text must fit a string of this machine.
pub proof fn law_plain_value_reads_back(value: JsonValue, conf: JsonConfig)
    requires
        plain(value),
        value.depth() <= conf.max_depth,
        encode_utf8(render(value)).len() <= usize::MAX,
    ensures
        read(render(value), conf) == Ok::<JsonValue, Failure>(value),
        read(render(value), conf) matches Ok(again) && same(value, again),
{
    lemma_plain_reads_back(value);
    law_read_what_was_written(value, conf);
}

/// In a value that is read from a text, no object holds a key twice: where
/// the text gives a key again, the entry of the key holds the later value.
pub proof fn law_keys_once(text: Seq<char>, conf: JsonConfig)
    ensures
        read(text, conf) matches Ok(value) ==> value.wf(),
{
    match tokens_of(text, conf) {
        Ok(tokens) => {
            lemma_value_sound(Input { src: text, tokens, conf }, 0, 0);
        },
        Err(_) => {},
    }
}

/// Writing, reading and writing again gives the text of the first writing:
/// the value that is read from the text of a value has the same text.
///
/// This holds of every value that reads back and in which no value lies
/// deeper than the configuration allows.
pub proof fn law_written_twice(value: JsonValue, conf: JsonConfig)
    requires
        reads_back(value),
        value.depth() <= conf.max_depth,
        encode_utf8(render(value)).len() <= usize::MAX,
    ensures
        read(render(value), conf) matches Ok(again) && render(again) == render(value),
{
    law_read_what_was_written(value, conf);
}

/// A word that is none of `true`, `false` and `null` is refused by name,
/// whatever the configuration.  A word is a letter and behind it letters and
/// digits, or what Unicode counts as such.
pub proof fn law_unknown_keyword(word: Seq<char>, conf: JsonConfig)
    requires
        word.len() > 0,
        alphabetic(word[0]) && !numeric(word[0]),
        forall|i: int| 0 <= i < word.len() ==> alphanumeric(#[trigger] word[i]),
        word != "true"@ && word != "false"@ && word != "null"@,
    ensures
        read(word, conf) == Err::<JsonValue, Failure>(Failure::plain(unknown_keyword(word))),
{
    assert forall|i: int| 1 <= i < word.len() implies Class::Alphanumeric.holds(
        #[trigger] word[i],
    ) by {}
    lemma_run_ends(word, 1, word.len() as int, Class::Alphanumeric);
    assert(word.subrange(0, word.len() as int) =~= word);
}

/// Within `n` arrays, the values of a value lie `n` levels deeper.
pub proof fn lemma_nested(inner: JsonValue, n: nat)
    ensures
        nested(inner, n).depth() == n + inner.depth(),
        reads_back(inner) ==> reads_back(nested(inner, n)),
    decreases n,
{
    if n > 0 {
        lemma_nested(inner, (n - 1) as nat);
        let items = seq![nested(inner, (n - 1) as nat)];
        assert(deepest_item(items, 0) == 0);
        assert(deepest_item(items, 1) == items[0].depth());
    }
}

/// The bound on nesting is exact: the text of a value within `n` arrays is
/// read where as many levels are allowed as its values then lie deep, and
/// refused as nesting too deeply where fewer are.  So the text of a string,
/// a number, `true`, `false` or `null` within `n` arrays is read where `n`
/// levels are allowed and refused where `n - 1` are.
pub proof fn law_depth_bound(inner: JsonValue, n: nat, conf: JsonConfig)
    requires
        reads_back(inner),
        encode_utf8(render(nested(inner, n))).len() <= usize::MAX,
    ensures
        n + inner.depth() <= conf.max_depth ==> read(render(nested(inner, n)), conf) == Ok::<
            JsonValue,
            Failure,
        >(nested(inner, n)),
        n + inner.depth() > conf.max_depth ==> (read(render(nested(inner, n)), conf) matches Err(
            failure,
        ) && failure.msg == "Max depth reached"@),
{
    lemma_nested(inner, n);
    law_read_what_was_written(nested(inner, n), conf);
}

} // verus!
