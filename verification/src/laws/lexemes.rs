//! The lexemes that the text of a value is made of.

use vstd::prelude::*;
use crate::codec::{render, render_entries, render_entry, render_items};
use crate::lexer::grammar::punctuation;
use crate::lexer::token::TokenType;
use crate::syntax::decimal_literal;
use crate::value::{Entries, JsonValue, distinct_keys, lemma_plain_is_quotable, quotable};

verus! {

/// A lexeme: the kind of a token, and its characters.
pub struct Lexeme {
    pub kind: TokenType,
    pub text: Seq<char>,
}

/// The lexeme of a single character of punctuation.
pub open spec fn mark(kind: TokenType, c: char) -> Lexeme {
    Lexeme { kind, text: seq![c] }
}

/// The lexeme of a string or a key: its characters between quotes.
pub open spec fn quoted(s: Seq<char>) -> Lexeme {
    Lexeme { kind: TokenType::String, text: seq!['"'] + s + seq!['"'] }
}

/// The characters of all of `lexemes`, in order.
pub open spec fn concat(lexemes: Seq<Lexeme>) -> Seq<char>
    decreases lexemes.len(),
{
    if lexemes.len() == 0 {
        Seq::empty()
    } else {
        concat(lexemes.drop_last()) + lexemes.last().text
    }
}

/// The lexemes of the text of a value.
pub open spec fn lexemes(value: JsonValue) -> Seq<Lexeme>
    decreases value, 0nat,
{
    match value {
        JsonValue::Array(items) => seq![mark(TokenType::LSquareBracket, '[')] + item_lexemes(
            items,
            items.len(),
        ) + seq![mark(TokenType::RSquareBracket, ']')],
        JsonValue::Object(entries) => seq![mark(TokenType::LeftBrace, '{')] + entry_lexemes(
            entries,
            entries.len(),
        ) + seq![mark(TokenType::RightBrace, '}')],
        JsonValue::String(s) => seq![quoted(s)],
        JsonValue::Number(literal) => seq![Lexeme { kind: TokenType::Number, text: literal }],
        JsonValue::True => seq![Lexeme { kind: TokenType::True, text: "true"@ }],
        JsonValue::False => seq![Lexeme { kind: TokenType::False, text: "false"@ }],
        JsonValue::Null => seq![Lexeme { kind: TokenType::Null, text: "null"@ }],
    }
}

/// The lexemes of the first `n` of `items`, with the commas between them.
pub open spec fn item_lexemes(items: Seq<JsonValue>, n: nat) -> Seq<Lexeme>
    decreases items, n,
{
    if n == 0 || n > items.len() {
        Seq::empty()
    } else if n == 1 {
        lexemes(items[0])
    } else {
        item_lexemes(items, (n - 1) as nat) + seq![mark(TokenType::Comma, ',')] + lexemes(
            items[n - 1],
        )
    }
}

/// The lexemes of one entry: the key, the colon, and the value.
pub open spec fn one_entry(key: Seq<char>, value: Seq<Lexeme>) -> Seq<Lexeme> {
    seq![quoted(key), mark(TokenType::Colon, ':')] + value
}

/// The lexemes of the first `n` of `entries`, with the commas between them.
pub open spec fn entry_lexemes(entries: Entries, n: nat) -> Seq<Lexeme>
    decreases entries, n,
{
    if n == 0 || n > entries.len() {
        Seq::empty()
    } else if n == 1 {
        one_entry(entries[0].0, lexemes(entries[0].1))
    } else {
        entry_lexemes(entries, (n - 1) as nat) + seq![mark(TokenType::Comma, ',')] + one_entry(
            entries[n - 1].0,
            lexemes(entries[n - 1].1),
        )
    }
}

/// A value that holds nothing but arrays, objects, `true`, `false`, `null`
/// and strings, with neither a quote nor a backslash in a string or a key,
/// and no key twice in an object.
pub open spec fn plain(value: JsonValue) -> bool
    decreases value,
{
    match value {
        JsonValue::Array(items) => forall|i: int| 0 <= i < items.len() ==> plain(#[trigger] items[i]),
        JsonValue::Object(entries) => {
            &&& distinct_keys(entries)
            &&& forall|i: int|
                0 <= i < entries.len() ==> unescaped((#[trigger] entries[i]).0) && plain(
                    entries[i].1,
                )
        },
        JsonValue::String(s) => unescaped(s),
        JsonValue::Number(_) => false,
        _ => true,
    }
}

/// Text that holds neither a quote nor a backslash.
pub open spec fn unescaped(s: Seq<char>) -> bool {
    forall|i: int| 0 <= i < s.len() ==> s[i] != '"' && s[i] != '\\'
}

/// A plain value reads back.
pub proof fn lemma_plain_reads_back(value: JsonValue)
    requires
        plain(value),
    ensures
        reads_back(value),
    decreases value,
{
    match value {
        JsonValue::Array(items) => {
            assert forall|i: int| 0 <= i < items.len() implies reads_back(#[trigger] items[i]) by {
                lemma_plain_reads_back(items[i]);
            }
        },
        JsonValue::Object(entries) => {
            assert forall|i: int| 0 <= i < entries.len() implies quotable(
                (#[trigger] entries[i]).0,
            ) && reads_back(entries[i].1) by {
                lemma_plain_is_quotable(entries[i].0, 0);
                lemma_plain_reads_back(entries[i].1);
            }
        },
        JsonValue::String(s) => {
            lemma_plain_is_quotable(s, 0);
        },
        _ => {},
    }
}

/// A value whose text reads back as the value: in its strings and keys every
/// quote is escaped and no backslash that escapes stands last, its numbers
/// are decimal literals, and no object in it has two entries with the same
/// key.
pub open spec fn reads_back(value: JsonValue) -> bool
    decreases value,
{
    match value {
        JsonValue::Array(items) => forall|i: int|
            0 <= i < items.len() ==> reads_back(#[trigger] items[i]),
        JsonValue::Object(entries) => {
            &&& distinct_keys(entries)
            &&& forall|i: int|
                0 <= i < entries.len() ==> quotable((#[trigger] entries[i]).0) && reads_back(
                    entries[i].1,
                )
        },
        JsonValue::String(s) => quotable(s),
        JsonValue::Number(literal) => decimal_literal(literal),
        _ => true,
    }
}

/// A kind of token that a value can start with.
pub open spec fn opens(kind: TokenType) -> bool {
    kind == TokenType::LSquareBracket || kind == TokenType::LeftBrace || kind == TokenType::String
        || ends_open(kind)
}

/// A kind of token that ends only where a character that cannot belong to it
/// follows: a number or a keyword.
pub open spec fn ends_open(kind: TokenType) -> bool {
    kind == TokenType::Number || kind == TokenType::True || kind == TokenType::False || kind
        == TokenType::Null
}

/// A kind of token that may follow a value in an array or an object.
pub open spec fn closes(kind: TokenType) -> bool {
    kind == TokenType::Comma || kind == TokenType::RSquareBracket || kind == TokenType::RightBrace
}

/// The characters of the lexeme are those of a token of its kind.
pub open spec fn well_formed(lexeme: Lexeme) -> bool {
    match lexeme.kind {
        TokenType::String => {
            &&& lexeme.text.len() >= 2
            &&& lexeme.text.first() == '"'
            &&& lexeme.text.last() == '"'
            &&& quotable(lexeme.text.subrange(1, lexeme.text.len() - 1))
        },
        TokenType::Number => decimal_literal(lexeme.text),
        TokenType::True => lexeme.text == "true"@,
        TokenType::False => lexeme.text == "false"@,
        TokenType::Null => lexeme.text == "null"@,
        _ => lexeme.text.len() == 1 && punctuation(lexeme.text[0]) == Some(lexeme.kind),
    }
}

/// Behind the lexeme at position `i`, if it is a number or a keyword, stands
/// a comma, a closing bracket or a closing brace.
pub open spec fn set_apart(lexemes: Seq<Lexeme>, i: int) -> bool {
    ends_open(lexemes[i].kind) ==> closes(lexemes[i + 1].kind)
}

/// Every lexeme is well formed, and behind a number or a keyword stands
/// nothing or a comma, a closing bracket or a closing brace.
pub open spec fn lexable(lexemes: Seq<Lexeme>) -> bool {
    &&& forall|i: int| 0 <= i < lexemes.len() ==> well_formed(#[trigger] lexemes[i])
    &&& forall|i: int| 0 <= i < lexemes.len() - 1 ==> #[trigger] set_apart(lexemes, i)
}

/// The characters of two runs of lexemes are those of the one, then those of
/// the other.
pub proof fn lemma_concat_add(a: Seq<Lexeme>, b: Seq<Lexeme>)
    ensures
        concat(a + b) == concat(a) + concat(b),
    decreases b.len(),
{
    if b.len() == 0 {
        assert(a + b =~= a);
        assert(concat(a) + concat(b) =~= concat(a));
    } else {
        assert((a + b).drop_last() =~= a + b.drop_last());
        assert((a + b).last() == b.last());
        lemma_concat_add(a, b.drop_last());
        assert(concat(a + b) =~= concat(a) + concat(b));
    }
}

/// The characters of a single lexeme.
pub proof fn lemma_concat_one(l: Lexeme)
    ensures
        concat(seq![l]) == l.text,
{
    let s = seq![l];
    assert(s.drop_last() =~= Seq::<Lexeme>::empty());
    assert(concat(s.drop_last()) =~= Seq::<char>::empty());
    assert(concat(s) =~= l.text);
}

/// Two lexable runs make a lexable run, unless the first ends in a number or
/// a keyword and the second starts with what may not follow one.
pub proof fn lemma_lexable_add(a: Seq<Lexeme>, b: Seq<Lexeme>)
    requires
        lexable(a),
        lexable(b),
        a.len() > 0 && b.len() > 0 && ends_open(a.last().kind) ==> closes(b[0].kind),
    ensures
        lexable(a + b),
{
    let c = a + b;
    assert forall|i: int| 0 <= i < c.len() implies well_formed(#[trigger] c[i]) by {
        if i < a.len() {
            assert(c[i] == a[i]);
        } else {
            assert(c[i] == b[i - a.len()]);
        }
    }
    assert forall|i: int| 0 <= i < c.len() - 1 implies #[trigger] set_apart(c, i) by {
        if i + 1 < a.len() {
            assert(set_apart(a, i));
            assert(c[i] == a[i]);
            assert(c[i + 1] == a[i + 1]);
        } else if i < a.len() {
            assert(c[i] == a.last());
            assert(c[i + 1] == b[0]);
        } else {
            assert(set_apart(b, i - a.len()));
            assert(c[i] == b[i - a.len()]);
            assert(c[i + 1] == b[i - a.len() + 1]);
        }
    }
}

/// What holds of the lexemes of a value that reads back: they are lexable,
/// they start with what a value can start with, and their characters are
/// the text of the value.
pub open spec fn lexemes_fine(value: JsonValue, found: Seq<Lexeme>) -> bool {
    &&& lexable(found)
    &&& found.len() > 0
    &&& opens(found[0].kind)
    &&& concat(found) == render(value)
}

/// The lexemes of a value that reads back are lexable, they start with what
/// a value can start with, and their characters are the text of the value.
pub proof fn lemma_lexemes(value: JsonValue)
    requires
        reads_back(value),
    ensures
        lexemes_fine(value, lexemes(value)),
    decreases value, 0nat,
{
    reveal_strlit("true");
    reveal_strlit("false");
    reveal_strlit("null");
    match value {
        JsonValue::Array(items) => {
            let open = seq![mark(TokenType::LSquareBracket, '[')];
            let inner = item_lexemes(items, items.len());
            let close = seq![mark(TokenType::RSquareBracket, ']')];
            lemma_item_lexemes(items, items.len());
            lemma_lexable_add(open, inner);
            lemma_lexable_add(open + inner, close);
            lemma_concat_add(open, inner);
            lemma_concat_add(open + inner, close);
            lemma_concat_one(open[0]);
            lemma_concat_one(close[0]);
        },
        JsonValue::Object(entries) => {
            let open = seq![mark(TokenType::LeftBrace, '{')];
            let inner = entry_lexemes(entries, entries.len());
            let close = seq![mark(TokenType::RightBrace, '}')];
            lemma_entry_lexemes(entries, entries.len());
            lemma_lexable_add(open, inner);
            lemma_lexable_add(open + inner, close);
            lemma_concat_add(open, inner);
            lemma_concat_add(open + inner, close);
            lemma_concat_one(open[0]);
            lemma_concat_one(close[0]);
        },
        JsonValue::String(s) => {
            lemma_quoted(s);
            lemma_concat_one(quoted(s));
        },
        JsonValue::Number(literal) => {
            lemma_concat_one(lexemes(value)[0]);
        },
        JsonValue::True => {
            lemma_concat_one(lexemes(value)[0]);
        },
        JsonValue::False => {
            lemma_concat_one(lexemes(value)[0]);
        },
        JsonValue::Null => {
            lemma_concat_one(lexemes(value)[0]);
        },
    }
}

/// Quotable text between quotes is a well-formed string lexeme.
pub proof fn lemma_quoted(s: Seq<char>)
    requires
        quotable(s),
    ensures
        well_formed(quoted(s)),
        quoted(s).text.len() == s.len() + 2,
        quoted(s).text.subrange(1, s.len() as int + 1) == s,
{
    let t = quoted(s).text;
    assert(t.subrange(1, t.len() - 1) =~= s);
}

/// What [`lemma_lexemes`] says of a value, said of the first `n` of `items`.
pub proof fn lemma_item_lexemes(items: Seq<JsonValue>, n: nat)
    requires
        n <= items.len(),
        forall|i: int| 0 <= i < items.len() ==> reads_back(#[trigger] items[i]),
    ensures
        lexable(item_lexemes(items, n)),
        n > 0 ==> item_lexemes(items, n).len() > 0 && opens(item_lexemes(items, n)[0].kind),
        concat(item_lexemes(items, n)) == render_items(items, n),
    decreases items, n,
{
    if n == 0 {
    } else if n == 1 {
        lemma_lexemes(items[0]);
    } else {
        let before = item_lexemes(items, (n - 1) as nat);
        let comma = seq![mark(TokenType::Comma, ',')];
        let last = lexemes(items[n - 1]);
        lemma_item_lexemes(items, (n - 1) as nat);
        lemma_lexemes(items[n - 1]);
        lemma_lexable_add(before, comma);
        lemma_lexable_add(before + comma, last);
        lemma_concat_add(before, comma);
        lemma_concat_add(before + comma, last);
        lemma_concat_one(comma[0]);
    }
}

/// The lexemes of one entry whose key is quotable are lexable where those
/// of its value are, and their characters are the text of the entry.
pub proof fn lemma_one_entry(key: Seq<char>, value: Seq<Lexeme>)
    requires
        quotable(key),
        lexable(value),
    ensures
        lexable(one_entry(key, value)),
        one_entry(key, value).len() == value.len() + 2,
        one_entry(key, value)[0].kind == TokenType::String,
        concat(one_entry(key, value)) == render_entry(key, concat(value)),
{
    let head = seq![quoted(key), mark(TokenType::Colon, ':')];
    lemma_quoted(key);
    assert(lexable(head));
    lemma_lexable_add(head, value);
    lemma_concat_add(head, value);
    lemma_concat_add(seq![quoted(key)], seq![mark(TokenType::Colon, ':')]);
    assert(head =~= seq![quoted(key)] + seq![mark(TokenType::Colon, ':')]);
    lemma_concat_one(quoted(key));
    lemma_concat_one(mark(TokenType::Colon, ':'));
    assert(concat(head) =~= seq!['"'] + key + seq!['"', ':']);
}

/// What [`lemma_lexemes`] says of a value, said of the first `n` of
/// `entries`.
pub proof fn lemma_entry_lexemes(entries: Entries, n: nat)
    requires
        n <= entries.len(),
        forall|i: int|
            0 <= i < entries.len() ==> quotable((#[trigger] entries[i]).0) && reads_back(
                entries[i].1,
            ),
    ensures
        lexable(entry_lexemes(entries, n)),
        n > 0 ==> entry_lexemes(entries, n).len() > 0 && opens(entry_lexemes(entries, n)[0].kind),
        concat(entry_lexemes(entries, n)) == render_entries(entries, n),
    decreases entries, n,
{
    if n == 0 {
    } else if n == 1 {
        lemma_lexemes(entries[0].1);
        lemma_one_entry(entries[0].0, lexemes(entries[0].1));
    } else {
        let before = entry_lexemes(entries, (n - 1) as nat);
        let comma = seq![mark(TokenType::Comma, ',')];
        let last = one_entry(entries[n - 1].0, lexemes(entries[n - 1].1));
        lemma_entry_lexemes(entries, (n - 1) as nat);
        lemma_lexemes(entries[n - 1].1);
        lemma_one_entry(entries[n - 1].0, lexemes(entries[n - 1].1));
        lemma_lexable_add(before, comma);
        lemma_lexable_add(before + comma, last);
        lemma_concat_add(before, comma);
        lemma_concat_add(before + comma, last);
        lemma_concat_one(comma[0]);
    }
}

} // verus!
