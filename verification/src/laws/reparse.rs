//! The parser finds again the value whose lexemes the tokens are.

use vstd::prelude::*;
use crate::laws::lexemes::{
    Lexeme, entry_lexemes, item_lexemes, lemma_lexemes, lexemes, mark, one_entry, quoted,
    reads_back,
};
use crate::lexer::token::TokenType;
use crate::syntax::{Input, Parsed, lemma_decimal_is_float, unquoted};
use crate::value::{
    Entries, JsonValue, deepest_entry, deepest_item, distinct_keys, lemma_position_found,
    quotable, put,
};

verus! {

/// The token at position `i` is of the kind of `lexeme` and has its
/// characters.
pub open spec fn token_is(input: Input, i: int, lexeme: Lexeme) -> bool {
    &&& 0 <= i < input.tokens.len()
    &&& input.tokens[i].token_type == lexeme.kind
    &&& input.lexeme(i) == lexeme.text
}

/// The tokens from position `at` on are `expected`, lexeme by lexeme.
pub open spec fn tokens_are(input: Input, at: int, expected: Seq<Lexeme>) -> bool {
    forall|k: int| 0 <= k < expected.len() ==> token_is(input, at + k, #[trigger] expected[k])
}

/// What the parser is to make of the lexemes of `value` with `depth` arrays
/// and objects around it: the value, where no value in it lies deeper than
/// the configuration allows, and else the failure that says so.
pub open spec fn as_expected(input: Input, parsed: Parsed, value: JsonValue, depth: nat, end: int)
    -> bool {
    if depth + value.depth() <= input.conf.max_depth {
        parsed == Parsed::Done(value, end)
    } else {
        parsed matches Parsed::Failed(failure) && failure.msg == "Max depth reached"@
    }
}

/// Tokens that are two runs of lexemes are the one, and behind it the other.
pub proof fn lemma_window(input: Input, at: int, a: Seq<Lexeme>, b: Seq<Lexeme>)
    requires
        tokens_are(input, at, a + b),
    ensures
        tokens_are(input, at, a),
        tokens_are(input, at + a.len(), b),
{
    let c = a + b;
    assert forall|k: int| 0 <= k < a.len() implies token_is(input, at + k, #[trigger] a[k]) by {
        assert(c[k] == a[k]);
    }
    assert forall|k: int| 0 <= k < b.len() implies token_is(
        input,
        at + a.len() + k,
        #[trigger] b[k],
    ) by {
        assert(c[a.len() + k] == b[k]);
    }
}

/// No item is deeper than the deepest.
pub proof fn lemma_deepest_item(items: Seq<JsonValue>, n: nat, j: int)
    requires
        0 <= j < n <= items.len(),
    ensures
        items[j].depth() <= deepest_item(items, n),
    decreases n,
{
    if j < n - 1 {
        lemma_deepest_item(items, (n - 1) as nat, j);
    }
}

/// The deepest item is no deeper than a bound on all of them.
pub proof fn lemma_deepest_item_bound(items: Seq<JsonValue>, n: nat, bound: int)
    requires
        n <= items.len(),
        0 <= bound,
        forall|j: int| 0 <= j < n ==> (#[trigger] items[j]).depth() <= bound,
    ensures
        deepest_item(items, n) <= bound,
    decreases n,
{
    if n > 0 {
        lemma_deepest_item_bound(items, (n - 1) as nat, bound);
    }
}

/// No value of an entry is deeper than the deepest.
pub proof fn lemma_deepest_entry(entries: Entries, n: nat, j: int)
    requires
        0 <= j < n <= entries.len(),
    ensures
        entries[j].1.depth() <= deepest_entry(entries, n),
    decreases n,
{
    if j < n - 1 {
        lemma_deepest_entry(entries, (n - 1) as nat, j);
    }
}

/// The deepest value of an entry is no deeper than a bound on all of them.
pub proof fn lemma_deepest_entry_bound(entries: Entries, n: nat, bound: int)
    requires
        n <= entries.len(),
        0 <= bound,
        forall|j: int| 0 <= j < n ==> (#[trigger] entries[j]).1.depth() <= bound,
    ensures
        deepest_entry(entries, n) <= bound,
    decreases n,
{
    if n > 0 {
        lemma_deepest_entry_bound(entries, (n - 1) as nat, bound);
    }
}

/// Where in the lexemes of items the item at position `k` starts.
pub open spec fn item_start(items: Seq<JsonValue>, k: int) -> int {
    if k == 0 {
        0
    } else {
        item_lexemes(items, k as nat).len() as int + 1
    }
}

/// Where the tokens are the lexemes of the first `n` items, they hold the
/// lexemes of the item at position `k`, behind a comma if it is not the
/// first.
pub proof fn lemma_item_window(input: Input, first: int, items: Seq<JsonValue>, n: nat, k: int)
    requires
        0 <= k < n <= items.len(),
        tokens_are(input, first, item_lexemes(items, n)),
    ensures
        tokens_are(input, first + item_start(items, k), lexemes(items[k])),
        k > 0 ==> token_is(
            input,
            first + item_lexemes(items, k as nat).len(),
            mark(TokenType::Comma, ','),
        ),
        item_lexemes(items, (k + 1) as nat).len() == item_start(items, k) + lexemes(items[k]).len(),
    decreases n,
{
    if n == k + 1 {
        if k > 0 {
            let before = item_lexemes(items, k as nat);
            let comma = seq![mark(TokenType::Comma, ',')];
            lemma_window(input, first, before + comma, lexemes(items[k]));
            lemma_window(input, first, before, comma);
            assert(token_is(input, first + before.len() + 0, comma[0]));
        }
    } else {
        let before = item_lexemes(items, (n - 1) as nat);
        let comma = seq![mark(TokenType::Comma, ',')];
        lemma_window(input, first, before + comma, lexemes(items[n - 1]));
        lemma_window(input, first, before, comma);
        lemma_item_window(input, first, items, (n - 1) as nat, k);
    }
}

/// Where in the lexemes of entries the entry at position `k` starts.
pub open spec fn entry_start(entries: Entries, k: int) -> int {
    if k == 0 {
        0
    } else {
        entry_lexemes(entries, k as nat).len() as int + 1
    }
}

/// Where the tokens are the lexemes of the first `n` entries, they hold the
/// lexemes of the entry at position `k`, behind a comma if it is not the
/// first.
pub proof fn lemma_entry_window(input: Input, first: int, entries: Entries, n: nat, k: int)
    requires
        0 <= k < n <= entries.len(),
        tokens_are(input, first, entry_lexemes(entries, n)),
    ensures
        tokens_are(
            input,
            first + entry_start(entries, k),
            one_entry(entries[k].0, lexemes(entries[k].1)),
        ),
        k > 0 ==> token_is(
            input,
            first + entry_lexemes(entries, k as nat).len(),
            mark(TokenType::Comma, ','),
        ),
        entry_lexemes(entries, (k + 1) as nat).len() == entry_start(entries, k) + 2 + lexemes(
            entries[k].1,
        ).len(),
    decreases n,
{
    if n == k + 1 {
        if k > 0 {
            let before = entry_lexemes(entries, k as nat);
            let comma = seq![mark(TokenType::Comma, ',')];
            lemma_window(input, first, before + comma, one_entry(entries[k].0, lexemes(entries[k].1)));
            lemma_window(input, first, before, comma);
            assert(token_is(input, first + before.len() + 0, comma[0]));
        }
    } else {
        let before = entry_lexemes(entries, (n - 1) as nat);
        let comma = seq![mark(TokenType::Comma, ',')];
        lemma_window(
            input,
            first,
            before + comma,
            one_entry(entries[n - 1].0, lexemes(entries[n - 1].1)),
        );
        lemma_window(input, first, before, comma);
        lemma_entry_window(input, first, entries, (n - 1) as nat, k);
    }
}

/// Text between quotes, without the quotes, is the text.
pub proof fn lemma_unquoted(s: Seq<char>)
    ensures
        unquoted(quoted(s).text) == s,
{
    let t = quoted(s).text;
    assert(t.first() == '"');
    assert(t.drop_first() =~= s + seq!['"']);
    assert(t.drop_first().last() == '"');
    assert(t.drop_first().drop_last() =~= s);
}

/// What the parser makes of items of which it has taken some: what it makes
/// once it has taken all, where there is none or no value in them lies
/// deeper than the configuration allows, and else the failure that says so.
pub open spec fn all_taken(parsed: Parsed, rest: Parsed, fit: bool) -> bool {
    if fit {
        parsed == rest
    } else {
        parsed matches Parsed::Failed(failure) && failure.msg == "Max depth reached"@
    }
}

/// From tokens that are the lexemes of a value that reads back, the parser
/// makes that value, unless a value in it lies deeper than the configuration
/// allows.
pub proof fn lemma_reparse(input: Input, at: int, depth: nat, value: JsonValue)
    requires
        0 <= at,
        0 < at || depth <= input.conf.max_depth,
        reads_back(value),
        tokens_are(input, at, lexemes(value)),
    ensures
        as_expected(input, input.value(at, depth), value, depth, at + lexemes(value).len()),
    decreases value, 0nat,
{
    let found = lexemes(value);
    lemma_lexemes(value);
    assert(token_is(input, at + 0, found[0]));
    match value {
        JsonValue::Array(items) => {
            let open = seq![mark(TokenType::LSquareBracket, '[')];
            let inner = item_lexemes(items, items.len());
            let close = seq![mark(TokenType::RSquareBracket, ']')];
            lemma_window(input, at, open + inner, close);
            lemma_window(input, at, open, inner);
            assert(token_is(input, at + 1 + inner.len() + 0, close[0]));
            if depth <= input.conf.max_depth {
                assert(items.take(0) =~= Seq::<JsonValue>::empty());
                lemma_array_items(input, at + 1, depth + 1, items, 0);
            }
        },
        JsonValue::Object(entries) => {
            let open = seq![mark(TokenType::LeftBrace, '{')];
            let inner = entry_lexemes(entries, entries.len());
            let close = seq![mark(TokenType::RightBrace, '}')];
            lemma_window(input, at, open + inner, close);
            lemma_window(input, at, open, inner);
            assert(token_is(input, at + 1 + inner.len() + 0, close[0]));
            if depth <= input.conf.max_depth {
                assert(entries.take(0) =~= Seq::<(Seq<char>, JsonValue)>::empty());
                lemma_object_entries(input, at + 1, depth + 1, entries, 0);
            }
        },
        JsonValue::String(s) => {
            lemma_unquoted(s);
        },
        JsonValue::Number(literal) => {
            lemma_decimal_is_float(literal);
        },
        _ => {},
    }
}

/// From tokens that are the lexemes of items that read back, the parser
/// that has taken the first `k` items takes them all, unless a value in one
/// lies deeper than the configuration allows.
pub proof fn lemma_array_items(
    input: Input,
    first: int,
    depth: nat,
    items: Seq<JsonValue>,
    k: int,
)
    requires
        0 < first,
        0 <= k <= items.len(),
        forall|i: int| 0 <= i < items.len() ==> reads_back(#[trigger] items[i]),
        forall|i: int| 0 <= i < k ==> depth + (#[trigger] items[i]).depth() <= input.conf.max_depth,
        tokens_are(input, first, item_lexemes(items, items.len())),
    ensures
        all_taken(
            input.array_from(first + item_lexemes(items, k as nat).len(), depth, items.take(k)),
            input.array_from(first + item_lexemes(items, items.len()).len(), depth, items),
            items.len() == 0 || depth + deepest_item(items, items.len()) <= input.conf.max_depth,
        ),
    decreases items, items.len() - k,
{
    let n = items.len();
    if k == n {
        assert(items.take(k) =~= items);
        if n > 0 {
            assert(depth + items[0].depth() <= input.conf.max_depth);
            lemma_deepest_item_bound(items, n, input.conf.max_depth - depth);
        }
    } else {
        let item = items[k];
        let at = first + item_start(items, k);
        lemma_item_window(input, first, items, n, k);
        lemma_lexemes(item);
        assert(token_is(input, at + 0, lexemes(item)[0]));
        assert(token_is(input, at + (lexemes(item).len() - 1), lexemes(item)[lexemes(item).len() - 1]));
        lemma_reparse(input, at, depth, item);
        lemma_deepest_item(items, n, k);
        if depth + item.depth() <= input.conf.max_depth {
            assert(items.take(k).push(item) =~= items.take(k + 1));
            lemma_array_items(input, first, depth, items, k + 1);
        }
    }
}

/// From tokens that are the lexemes of entries that read back, the parser
/// that has taken the first `k` entries takes them all, unless a value in
/// one lies deeper than the configuration allows.
pub proof fn lemma_object_entries(input: Input, first: int, depth: nat, entries: Entries, k: int)
    requires
        0 < first,
        0 <= k <= entries.len(),
        distinct_keys(entries),
        forall|i: int|
            0 <= i < entries.len() ==> quotable((#[trigger] entries[i]).0) && reads_back(
                entries[i].1,
            ),
        forall|i: int|
            0 <= i < k ==> depth + (#[trigger] entries[i]).1.depth() <= input.conf.max_depth,
        tokens_are(input, first, entry_lexemes(entries, entries.len())),
    ensures
        all_taken(
            input.object_from(first + entry_lexemes(entries, k as nat).len(), depth, entries.take(k)),
            input.object_from(first + entry_lexemes(entries, entries.len()).len(), depth, entries),
            entries.len() == 0 || depth + deepest_entry(entries, entries.len())
                <= input.conf.max_depth,
        ),
    decreases entries, entries.len() - k,
{
    let n = entries.len();
    if k == n {
        assert(entries.take(k) =~= entries);
        if n > 0 {
            assert(depth + entries[0].1.depth() <= input.conf.max_depth);
            lemma_deepest_entry_bound(entries, n, input.conf.max_depth - depth);
        }
    } else {
        let key = entries[k].0;
        let item = entries[k].1;
        let at = first + entry_start(entries, k);
        let whole = one_entry(key, lexemes(item));
        lemma_entry_window(input, first, entries, n, k);
        lemma_lexemes(item);
        lemma_window(input, at, seq![quoted(key), mark(TokenType::Colon, ':')], lexemes(item));
        assert(token_is(input, at + 0, whole[0]));
        assert(token_is(input, at + 1, whole[1]));
        assert(token_is(input, at + 2 + 0, lexemes(item)[0]));
        assert(token_is(
            input,
            at + 2 + (lexemes(item).len() - 1),
            lexemes(item)[lexemes(item).len() - 1],
        ));
        lemma_unquoted(key);
        lemma_reparse(input, at + 2, depth, item);
        lemma_deepest_entry(entries, n, k);
        if depth + item.depth() <= input.conf.max_depth {
            let taken = entries.take(k);
            assert forall|i: int| 0 <= i < k implies (#[trigger] taken[i]).0 != key by {
                assert(taken[i] == entries[i]);
            }
            lemma_position_found(taken, key, k);
            assert(put(taken, key, item) =~= entries.take(k + 1));
            lemma_object_entries(input, first, depth, entries, k + 1);
        }
    }
}

} // verus!
