//! JSON documents as a flat stream of tokens, read with `serde_json`, and
//! their compact layout (no spaces, `,` between items, `:` after keys),
//! with strings quoted by `serde_json`.
use serde_json::Value;
use vstd::prelude::*;

verus! {

/// One token of a JSON document read depth first; object members appear
/// as a `Key` followed by the tokens of its value. Numbers keep the text
/// they are written with.
#[derive(Clone, Debug)]
pub enum JsonToken {
    Null,
    Bool(bool),
    Number(String),
    Str(String),
    Key(String),
    ArrayStart,
    ArrayEnd,
    ObjectStart,
    ObjectEnd,
}

/// The content of a token as plain values.
pub enum TokenView {
    Null,
    Bool(bool),
    Number(Seq<char>),
    Str(Seq<char>),
    Key(Seq<char>),
    ArrayStart,
    ArrayEnd,
    ObjectStart,
    ObjectEnd,
}

pub open spec fn token_view(t: JsonToken) -> TokenView {
    match t {
        JsonToken::Null => TokenView::Null,
        JsonToken::Bool(b) => TokenView::Bool(b),
        JsonToken::Number(n) => TokenView::Number(n@),
        JsonToken::Str(s) => TokenView::Str(s@),
        JsonToken::Key(k) => TokenView::Key(k@),
        JsonToken::ArrayStart => TokenView::ArrayStart,
        JsonToken::ArrayEnd => TokenView::ArrayEnd,
        JsonToken::ObjectStart => TokenView::ObjectStart,
        JsonToken::ObjectEnd => TokenView::ObjectEnd,
    }
}

pub open spec fn tokens_view(t: Seq<JsonToken>) -> Seq<TokenView> {
    t.map_values(|x: JsonToken| token_view(x))
}

/// A lowercase hexadecimal digit.
pub open spec fn hex_digit(n: int) -> char {
    if n < 10 {
        (48 + n) as char
    } else {
        (97 + n - 10) as char
    }
}

/// How `serde_json` writes one character inside a string literal: quote
/// and backslash escaped, the control characters with a short escape
/// where JSON has one and as `\u00XX` (lowercase hex) otherwise, every
/// other character as itself.
pub open spec fn escaped_char(c: char) -> Seq<char> {
    if c == '"' {
        seq!['\\', '"']
    } else if c == '\\' {
        seq!['\\', '\\']
    } else if c == '\u{8}' {
        seq!['\\', 'b']
    } else if c == '\u{c}' {
        seq!['\\', 'f']
    } else if c == '\n' {
        seq!['\\', 'n']
    } else if c == '\r' {
        seq!['\\', 'r']
    } else if c == '\t' {
        seq!['\\', 't']
    } else if (c as int) < 0x20 {
        seq!['\\', 'u', '0', '0', hex_digit((c as int) / 16), hex_digit((c as int) % 16)]
    } else {
        seq![c]
    }
}

/// `serde_json::to_string` of a string: the string as a JSON literal, in
/// quotes, each character written as `escaped_char` says.
pub open spec fn json_string(text: Seq<char>) -> Seq<char> {
    seq!['"'] + text.map_values(|c: char| escaped_char(c)).flatten() + seq!['"']
}

/// `serde_json::from_str::<Value>` of a text, the document read depth
/// first into tokens (object members in the order the document's map
/// holds them, numbers as `Number` displays them); `None` when the text is
/// not one JSON document.
pub uninterp spec fn json_document(text: Seq<char>) -> Option<Seq<TokenView>>;

/// A JSON string literal.
pub open spec fn quote(s: Seq<char>) -> Seq<char> {
    json_string(s)
}

/// The text of one token.
pub open spec fn token_text(t: TokenView) -> Seq<char> {
    match t {
        TokenView::Null => seq!['n', 'u', 'l', 'l'],
        TokenView::Bool(b) => if b {
            seq!['t', 'r', 'u', 'e']
        } else {
            seq!['f', 'a', 'l', 's', 'e']
        },
        TokenView::Number(n) => n,
        TokenView::Str(s) => quote(s),
        TokenView::Key(k) => quote(k) + seq![':'],
        TokenView::ArrayStart => seq!['['],
        TokenView::ArrayEnd => seq![']'],
        TokenView::ObjectStart => seq!['{'],
        TokenView::ObjectEnd => seq!['}'],
    }
}

/// The token closes a value (a scalar or a finished container).
pub open spec fn ends_value(t: TokenView) -> bool {
    match t {
        TokenView::Null | TokenView::Bool(_) | TokenView::Number(_) | TokenView::Str(_)
        | TokenView::ArrayEnd | TokenView::ObjectEnd => true,
        _ => false,
    }
}

/// The token begins an item of a container.
pub open spec fn starts_item(t: TokenView) -> bool {
    match t {
        TokenView::ArrayEnd | TokenView::ObjectEnd => false,
        _ => true,
    }
}

/// Renders the tokens from `i` on; `after_value` says whether the token
/// before `i` closed a value, in which case a new item is preceded by `,`.
pub open spec fn render_from(t: Seq<TokenView>, i: int, after_value: bool) -> Seq<char>
    decreases t.len() - i,
{
    if i < 0 || i >= t.len() {
        Seq::empty()
    } else {
        let sep = if after_value && starts_item(t[i]) {
            seq![',']
        } else {
            Seq::empty()
        };
        sep + token_text(t[i]) + render_from(t, i + 1, ends_value(t[i]))
    }
}

/// The compact JSON text of a token stream.
pub open spec fn render(t: Seq<TokenView>) -> Seq<char> {
    render_from(t, 0, false)
}

/// A string as a JSON literal (`serde_json::to_string`, which cannot fail
/// on a string).
#[verifier::external_body]
fn quoted(text: &str) -> (r: String)
    ensures
        r@ == json_string(text@),
{
    serde_json::to_string(text).unwrap_or_default()
}

#[verifier::external_type_specification]
#[verifier::external_body]
pub struct ExJsonValue(Value);

/// What a `serde_json::Value` holds, read depth first as tokens (object
/// members in the order its map keeps them, numbers as `Number` displays
/// them).
pub uninterp spec fn value_tokens(value: Value) -> Seq<TokenView>;

/// A piece of a document still to be read: a token, or a value.
pub enum Part {
    Token(JsonToken),
    Item(Value),
}

/// The tokens a piece stands for.
pub open spec fn part_tokens(p: Part) -> Seq<TokenView> {
    match p {
        Part::Token(t) => seq![token_view(t)],
        Part::Item(v) => value_tokens(v),
    }
}

/// The tokens the pieces stand for, in order.
pub open spec fn parts_tokens(p: Seq<Part>) -> Seq<TokenView>
    decreases p.len(),
{
    if p.len() == 0 {
        Seq::empty()
    } else {
        parts_tokens(p.drop_last()) + part_tokens(p.last())
    }
}

/// The tokens a stack of pieces stands for, read from its top (its last
/// piece) down.
pub open spec fn stack_tokens(p: Seq<Part>) -> Seq<TokenView>
    decreases p.len(),
{
    if p.len() == 0 {
        Seq::empty()
    } else {
        part_tokens(p.last()) + stack_tokens(p.drop_last())
    }
}

/// `serde_json::from_str::<Value>`; `None` when the text is not one JSON
/// document. What the value holds is the named document of the text.
#[verifier::external_body]
fn read_value(text: &str) -> (r: Option<Value>)
    ensures
        match r {
            Some(v) => json_document(text@) == Some(value_tokens(v)),
            None => json_document(text@) is None,
        },
{
    serde_json::from_str(text).ok()
}

/// The token that closes a container opened by `t`, if `t` opens one.
pub open spec fn closing(t: TokenView) -> Seq<TokenView> {
    match t {
        TokenView::ArrayStart => seq![TokenView::ArrayEnd],
        TokenView::ObjectStart => seq![TokenView::ObjectEnd],
        _ => Seq::empty(),
    }
}

fn closing_token(t: &JsonToken) -> (r: Option<JsonToken>)
    ensures
        match r {
            Some(c) => closing(token_view(*t)) == seq![token_view(c)],
            None => closing(token_view(*t)) == Seq::<TokenView>::empty(),
        },
{
    match t {
        JsonToken::ArrayStart => Some(JsonToken::ArrayEnd),
        JsonToken::ObjectStart => Some(JsonToken::ObjectEnd),
        _ => None,
    }
}

/// Opens one `serde_json::Value`: its first token, then what lies inside
/// it in order (an array's items, an object's keys with their values;
/// nothing for a scalar), before the token that closes it.
#[verifier::external_body]
fn open_value(value: Value) -> (r: (JsonToken, Vec<Part>))
    ensures
        value_tokens(value) == seq![token_view(r.0)] + parts_tokens(r.1@) + closing(token_view(r.0)),
{
    match value {
        Value::Null => (JsonToken::Null, vec![]),
        Value::Bool(b) => (JsonToken::Bool(b), vec![]),
        Value::Number(n) => (JsonToken::Number(n.to_string()), vec![]),
        Value::String(s) => (JsonToken::Str(s), vec![]),
        Value::Array(a) => (JsonToken::ArrayStart, a.into_iter().map(Part::Item).collect()),
        Value::Object(m) => (JsonToken::ObjectStart, m.into_iter().flat_map(|(k, v)| [Part::Token(JsonToken::Key(k)), Part::Item(v)]).collect()),
    }
}

/// The document `text` holds (`serde_json::from_str::<Value>`), as the
/// tokens of its values read depth first; `None` when it holds none.
pub fn parse_document(text: &str) -> (r: Option<Vec<JsonToken>>)
    ensures
        match r {
            Some(t) => json_document(text@) == Some(tokens_view(t@)),
            None => json_document(text@) is None,
        },
{
    let root = match read_value(text) {
        Some(v) => v,
        None => return None,
    };
    let ghost all = value_tokens(root);
    let mut todo: Vec<Part> = Vec::new();
    todo.push(Part::Item(root));
    let mut out: Vec<JsonToken> = Vec::new();
    proof {
        assert(todo@.drop_last() =~= Seq::<Part>::empty());
        assert(stack_tokens(todo@) == part_tokens(todo@.last()) + stack_tokens(todo@.drop_last()));
        assert(tokens_view(out@) =~= Seq::<TokenView>::empty());
        assert(tokens_view(out@) + stack_tokens(todo@) =~= all);
    }
    while todo.len() > 0
        invariant
            tokens_view(out@) + stack_tokens(todo@) == all,
        decreases stack_tokens(todo@).len(),
    {
        let ghost before = todo@;
        let next = todo.pop().unwrap();
        proof {
            assert(before.drop_last() =~= todo@);
            assert(stack_tokens(before) == part_tokens(next) + stack_tokens(todo@));
        }
        let ghost below = stack_tokens(todo@);
        let ghost old_out = tokens_view(out@);
        match next {
            Part::Token(t) => {
                out.push(t);
                proof {
                    assert(tokens_view(out@) =~= old_out + seq![token_view(t)]);
                    assert(tokens_view(out@) + stack_tokens(todo@) =~= old_out + (seq![token_view(t)] + below));
                }
            },
            Part::Item(v) => {
                let (head, mut rest) = open_value(v);
                let ghost pieces = parts_tokens(rest@) + closing(token_view(head));
                match closing_token(&head) {
                    Some(c) => {
                        let ghost t0 = todo@;
                        todo.push(Part::Token(c));
                        proof {
                            assert(todo@.drop_last() =~= t0);
                        }
                    },
                    None => {},
                }
                out.push(head);
                while rest.len() > 0
                    invariant
                        parts_tokens(rest@) + stack_tokens(todo@) == pieces + below,
                    decreases rest.len(),
                {
                    let ghost r0 = rest@;
                    let ghost t0 = todo@;
                    let p = rest.pop().unwrap();
                    todo.push(p);
                    proof {
                        assert(r0.drop_last() =~= rest@);
                        assert(todo@.drop_last() =~= t0);
                        assert(parts_tokens(r0) == parts_tokens(rest@) + part_tokens(p));
                        assert(stack_tokens(todo@) == part_tokens(p) + stack_tokens(t0));
                        assert(parts_tokens(rest@) + stack_tokens(todo@) =~= parts_tokens(r0) + stack_tokens(t0));
                    }
                }
                proof {
                    assert(parts_tokens(rest@) =~= Seq::<TokenView>::empty());
                    assert(tokens_view(out@) =~= old_out + seq![token_view(head)]);
                    assert(tokens_view(out@) + stack_tokens(todo@) =~= old_out + (value_tokens(v) + below));
                }
            },
        }
    }
    proof {
        assert(stack_tokens(todo@) =~= Seq::<TokenView>::empty());
        assert(tokens_view(out@) =~= all);
    }
    Some(out)
}

/// Appends a JSON string literal.
pub fn push_quoted(out: &mut Vec<char>, s: &str)
    ensures
        final(out)@ == old(out)@ + quote(s@),
{
    crate::text::append_chars(out, &crate::text::chars_of(quoted(s).as_str()));
}

fn push_token(out: &mut Vec<char>, t: &JsonToken)
    ensures
        final(out)@ == old(out)@ + token_text(token_view(*t)),
{
    let ghost start = out@;
    match t {
        JsonToken::Null => {
            out.push('n');
            out.push('u');
            out.push('l');
            out.push('l');
        },
        JsonToken::Bool(b) => {
            if *b {
                out.push('t');
                out.push('r');
                out.push('u');
                out.push('e');
            } else {
                out.push('f');
                out.push('a');
                out.push('l');
                out.push('s');
                out.push('e');
            }
        },
        JsonToken::Number(n) => {
            crate::text::append_chars(out, &crate::text::chars_of(n.as_str()));
        },
        JsonToken::Str(s) => {
            push_quoted(out, s.as_str());
        },
        JsonToken::Key(k) => {
            push_quoted(out, k.as_str());
            out.push(':');
        },
        JsonToken::ArrayStart => {
            out.push('[');
        },
        JsonToken::ArrayEnd => {
            out.push(']');
        },
        JsonToken::ObjectStart => {
            out.push('{');
        },
        JsonToken::ObjectEnd => {
            out.push('}');
        },
    }
    proof {
        assert(out@ =~= start + token_text(token_view(*t)));
    }
}

fn token_ends_value(t: &JsonToken) -> (r: bool)
    ensures
        r == ends_value(token_view(*t)),
{
    match t {
        JsonToken::Null | JsonToken::Bool(_) | JsonToken::Number(_) | JsonToken::Str(_)
        | JsonToken::ArrayEnd | JsonToken::ObjectEnd => true,
        _ => false,
    }
}

fn token_starts_item(t: &JsonToken) -> (r: bool)
    ensures
        r == starts_item(token_view(*t)),
{
    match t {
        JsonToken::ArrayEnd | JsonToken::ObjectEnd => false,
        _ => true,
    }
}

/// Renders tokens `from..to` as compact JSON.
pub fn render_range(t: &Vec<JsonToken>, from: usize, to: usize) -> (r: Vec<char>)
    requires
        from <= to <= t.len(),
    ensures
        r@ == render(tokens_view(t@.subrange(from as int, to as int))),
{
    let ghost sub = tokens_view(t@.subrange(from as int, to as int));
    let mut out: Vec<char> = Vec::new();
    let mut after = false;
    let mut i = from;
    proof {
        assert(out@ + render_from(sub, 0, false) =~= render(sub));
    }
    while i < to
        invariant
            from <= i <= to <= t.len(),
            sub == tokens_view(t@.subrange(from as int, to as int)),
            out@ + render_from(sub, i - from, after) == render(sub),
        decreases to - i,
    {
        let ghost k = i - from;
        let ghost before = out@;
        let ghost was_after = after;
        proof {
            assert(sub[k] == token_view(t@[i as int]));
        }
        if after && token_starts_item(&t[i]) {
            out.push(',');
        }
        push_token(&mut out, &t[i]);
        after = token_ends_value(&t[i]);
        i = i + 1;
        proof {
            let sep = if was_after && starts_item(sub[k]) {
                seq![',']
            } else {
                Seq::<char>::empty()
            };
            assert(out@ =~= before + sep + token_text(sub[k]));
            assert(render_from(sub, k, was_after) == sep + token_text(sub[k]) + render_from(
                sub,
                k + 1,
                ends_value(sub[k]),
            ));
            assert(out@ + render_from(sub, i - from, after) =~= render(sub));
        }
    }
    proof {
        assert(out@ + Seq::<char>::empty() =~= out@);
    }
    out
}

} // verus!
