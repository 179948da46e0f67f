//! What a comment behind a value comes to.

use vstd::prelude::*;
use vstd::utf8::encode_utf8;
use crate::codec::{read, render};
use crate::config::JsonConfig;
use crate::error::Failure;
use crate::laws::lemma_tokens_of_lexemes;
use crate::laws::lexemes::{concat, lemma_lexemes, lexemes, reads_back};
use crate::laws::relex::tokens_for;
use crate::laws::reparse::lemma_reparse;
use crate::lexer::grammar::{Class, failure_at, lemma_run_ends, tokens_from};
use crate::lexer::token::Token;
use crate::syntax::Input;
use crate::value::JsonValue;

verus! {

/// The text of `value`, and behind it a space and a comment that runs to the
/// end of the line.
pub open spec fn with_line_comment(value: JsonValue, comment: Seq<char>) -> Seq<char> {
    render(value) + seq![' ', '/', '/'] + comment
}

/// What the lexer finds in a space and a comment that end the text: nothing,
/// where comments are allowed, and where they are not, the failure that says
/// so, placed at the slash.
pub proof fn lemma_line_comment(text: Seq<char>, at: int, conf: JsonConfig)
    requires
        0 <= at,
        at + 3 <= text.len(),
        text[at] == ' ',
        text[at + 1] == '/',
        text[at + 2] == '/',
        forall|i: int| at + 3 <= i < text.len() ==> text[i] != '\n',
    ensures
        conf.allow_comments ==> tokens_from(text, at, conf) == Ok::<Seq<Token>, Failure>(
            Seq::empty(),
        ),
        !conf.allow_comments ==> tokens_from(text, at, conf) == Err::<Seq<Token>, Failure>(
            failure_at(text, at + 1, "Comments are not supported"@),
        ),
{
    assert forall|i: int| at + 3 <= i < text.len() implies Class::SameLine.holds(
        #[trigger] text[i],
    ) by {}
    lemma_run_ends(text, at + 3, text.len() as int, Class::SameLine);
    assert(tokens_from(text, at, conf) == tokens_from(text, at + 1, conf));
    if conf.allow_comments {
        assert(tokens_from(text, at + 1, conf) == tokens_from(text, text.len() as int, conf));
    }
}

/// A comment behind a value is passed over where the configuration allows
/// comments, and the value is read as without it.  Where the configuration
/// does not allow comments, the text is refused at the slash.
///
/// This holds of every value that reads back and holds no value deeper than
/// the configuration allows, and of every comment that holds no line feed.
pub proof fn law_comment_gating(value: JsonValue, comment: Seq<char>, conf: JsonConfig)
    requires
        reads_back(value),
        value.depth() <= conf.max_depth,
        forall|i: int| 0 <= i < comment.len() ==> comment[i] != '\n',
        encode_utf8(with_line_comment(value, comment)).len() <= usize::MAX,
    ensures
        conf.allow_comments ==> read(with_line_comment(value, comment), conf) == Ok::<
            JsonValue,
            Failure,
        >(value),
        !conf.allow_comments ==> read(with_line_comment(value, comment), conf) == Err::<
            JsonValue,
            Failure,
        >(
            failure_at(
                with_line_comment(value, comment),
                render(value).len() as int + 1,
                "Comments are not supported"@,
            ),
        ),
{
    let found = lexemes(value);
    let rest = seq![' ', '/', '/'] + comment;
    let text = concat(found) + rest;
    let at = concat(found).len() as int;
    lemma_lexemes(value);
    assert(text =~= with_line_comment(value, comment));
    assert(rest[0] == ' ');
    lemma_tokens_of_lexemes(found, rest, conf);
    assert(text[at] == rest[0]);
    assert(text[at + 1] == rest[1]);
    assert(text[at + 2] == rest[2]);
    assert forall|i: int| at + 3 <= i < text.len() implies text[i] != '\n' by {
        assert(text[i] == comment[i - at - 3]);
    }
    lemma_line_comment(text, at, conf);
    if conf.allow_comments {
        let tokens = tokens_for(found, rest);
        assert(tokens + Seq::<Token>::empty() =~= tokens);
        lemma_reparse(Input { src: text, tokens, conf }, 0, 0, value);
    }
}

} // verus!
