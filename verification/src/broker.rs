//! Sealing and opening material through the host's cryptography broker:
//! the request sent over its socket and how its answer is read.
use crate::access::MemoryError;
use crate::json::{render, render_range, tokens_view, JsonToken, TokenView};
use crate::text::{byte_len, chars_of, decimal, decimal_chars, string_of};
use base64::Engine;
use vstd::prelude::*;

verus! {

/// The character of a six-bit value in the standard base64 alphabet:
/// `A`-`Z`, `a`-`z`, `0`-`9`, `+`, `/`.
pub open spec fn base64_digit(n: int) -> char {
    if n < 26 {
        (65 + n) as char
    } else if n < 52 {
        (97 + n - 26) as char
    } else if n < 62 {
        (48 + n - 52) as char
    } else if n == 62 {
        '+'
    } else {
        '/'
    }
}

/// Standard base64 with padding (RFC 4648, section 4): each group of three
/// bytes becomes four characters; a last group of one or two bytes is
/// padded with `=`.
pub open spec fn base64_text(bytes: Seq<u8>) -> Seq<char>
    decreases bytes.len(),
{
    if bytes.len() == 0 {
        Seq::empty()
    } else if bytes.len() == 1 {
        let a = bytes[0] as int;
        seq![base64_digit(a / 4), base64_digit((a % 4) * 16), '=', '=']
    } else if bytes.len() == 2 {
        let a = bytes[0] as int;
        let b = bytes[1] as int;
        seq![base64_digit(a / 4), base64_digit((a % 4) * 16 + b / 16), base64_digit((b % 16) * 4), '=']
    } else {
        let a = bytes[0] as int;
        let b = bytes[1] as int;
        let c = bytes[2] as int;
        seq![base64_digit(a / 4), base64_digit((a % 4) * 16 + b / 16), base64_digit((b % 16) * 4 + c / 64), base64_digit(c % 64)]
            + base64_text(bytes.subrange(3, bytes.len() as int))
    }
}

/// What standard base64 decoding gives: the bytes whose encoding is the
/// text, `None` when the text is the encoding of no bytes. Decoding is
/// canonical: padding must be complete and unused bits zero, so exactly
/// the encodings decode.
pub open spec fn base64_bytes(text: Seq<char>) -> Option<Seq<u8>> {
    if exists|b: Seq<u8>| base64_text(b) == text {
        Some(choose|b: Seq<u8>| base64_text(b) == text)
    } else {
        None
    }
}

proof fn lemma_digit_injective(n: int, m: int)
    requires
        0 <= n < 64,
        0 <= m < 64,
        base64_digit(n) == base64_digit(m),
    ensures
        n == m,
{
    assert(base64_digit(n) as int == base64_digit(m) as int);
}

proof fn lemma_digit_not_pad(n: int)
    requires
        0 <= n < 64,
    ensures
        base64_digit(n) != '=',
{
    assert(base64_digit(n) as int != '=' as int);
}

/// The shape of an encoding: empty for no bytes, four characters ending in
/// padding for one or two bytes, and a padding-free first group otherwise.
proof fn lemma_base64_shape(b: Seq<u8>)
    ensures
        b.len() == 0 <==> base64_text(b).len() == 0,
        b.len() == 1 ==> base64_text(b).len() == 4 && base64_text(b)[2] == '=' && base64_text(b)[3] == '=',
        b.len() == 2 ==> base64_text(b).len() == 4 && base64_text(b)[2] != '=' && base64_text(b)[3] == '=',
        b.len() == 3 ==> base64_text(b).len() == 4 && base64_text(b)[3] != '=',
        b.len() > 3 ==> base64_text(b).len() > 4 && base64_text(b)[3] != '=',
    decreases b.len(),
{
    if b.len() == 2 {
        lemma_digit_not_pad(((b[1] as int) % 16) * 4);
    }
    if b.len() >= 3 {
        lemma_digit_not_pad((b[2] as int) % 64);
        if b.len() == 3 {
            assert(b.subrange(3, 3) =~= Seq::<u8>::empty());
            assert(base64_text(b.subrange(3, 3)).len() == 0);
        }
        if b.len() > 3 {
            lemma_base64_shape(b.subrange(3, b.len() as int));
        }
    }
}

/// Different bytes have different encodings.
proof fn lemma_base64_injective(x: Seq<u8>, y: Seq<u8>)
    requires
        base64_text(x) == base64_text(y),
    ensures
        x == y,
    decreases x.len(),
{
    let t = base64_text(x);
    lemma_base64_shape(x);
    lemma_base64_shape(y);
    if x.len() == 0 {
        assert(y.len() == 0);
        assert(x =~= y);
    } else {
        let a = x[0] as int;
        let a2 = y[0] as int;
        assert(t[0] == base64_digit(a / 4) && t[0] == base64_digit(a2 / 4));
        lemma_digit_injective(a / 4, a2 / 4);
        assert(t[1] == base64_digit((a % 4) * 16 + (if x.len() >= 2 { x[1] as int } else { 0 }) / 16));
        assert(t[1] == base64_digit((a2 % 4) * 16 + (if y.len() >= 2 { y[1] as int } else { 0 }) / 16));
        lemma_digit_injective(
            (a % 4) * 16 + (if x.len() >= 2 { x[1] as int } else { 0 }) / 16,
            (a2 % 4) * 16 + (if y.len() >= 2 { y[1] as int } else { 0 }) / 16,
        );
        assert(a == a2);
        if x.len() >= 2 {
            assert(y.len() >= 2);
            let b = x[1] as int;
            let b2 = y[1] as int;
            assert(b / 16 == b2 / 16);
            let c = if x.len() >= 3 { x[2] as int } else { 0 };
            let c2 = if y.len() >= 3 { y[2] as int } else { 0 };
            assert(t[2] == base64_digit((b % 16) * 4 + c / 64));
            assert(t[2] == base64_digit((b2 % 16) * 4 + c2 / 64));
            lemma_digit_injective((b % 16) * 4 + c / 64, (b2 % 16) * 4 + c2 / 64);
            assert(b == b2);
            if x.len() >= 3 {
                assert(y.len() >= 3);
                assert(t[3] == base64_digit(c % 64) && t[3] == base64_digit(c2 % 64));
                lemma_digit_injective(c % 64, c2 % 64);
                assert(c == c2);
                let xr = x.subrange(3, x.len() as int);
                let yr = y.subrange(3, y.len() as int);
                assert(base64_text(xr) =~= t.subrange(4, t.len() as int));
                assert(base64_text(yr) =~= t.subrange(4, t.len() as int));
                lemma_base64_injective(xr, yr);
                assert(x =~= seq![x[0], x[1], x[2]] + xr);
                assert(y =~= seq![y[0], y[1], y[2]] + yr);
            } else {
                assert(y.len() == 2);
                assert(x =~= y);
            }
        } else {
            assert(y.len() == 1);
            assert(x =~= y);
        }
    }
}

/// Decoding gives back what was encoded.
pub proof fn lemma_base64_round_trip(bytes: Seq<u8>)
    ensures
        base64_bytes(base64_text(bytes)) == Some(bytes),
{
    let t = base64_text(bytes);
    assert(exists|b: Seq<u8>| base64_text(b) == t);
    let c = choose|b: Seq<u8>| base64_text(b) == t;
    lemma_base64_injective(c, bytes);
}

/// Standard base64 with padding (base64 crate, `Engine::encode` of
/// `STANDARD`, whose alphabet and padding are those of RFC 4648).
#[verifier::external_body]
fn base64_encode(bytes: &[u8]) -> (r: String)
    ensures
        r@ == base64_text(bytes@),
{
    base64::engine::general_purpose::STANDARD.encode(bytes)
}

/// Standard base64 decoding (base64 crate, `Engine::decode` of
/// `STANDARD`, whose configuration requires canonical padding and rejects
/// trailing bits); `None` where the crate reports a decoding error.
#[verifier::external_body]
fn base64_decode(text: &str) -> (r: Option<Vec<u8>>)
    ensures
        match r {
            Some(v) => base64_text(v@) == text@ && base64_bytes(text@) == Some(v@),
            None => base64_bytes(text@) is None,
        },
{
    base64::engine::general_purpose::STANDARD.decode(text).ok()
}

/// The host's cryptography broker: the socket it listens on and the
/// ticket that admits this plugin.
#[derive(Clone, Debug)]
pub struct Cryptography {
    socket: Option<String>,
    token: Option<String>,
}

/// A request ready to go to the broker: the socket, the HTTP head and the
/// JSON body.
pub struct BrokerCall {
    pub socket: String,
    pub head: String,
    pub body: String,
}

/// The body of a broker request: `{"purpose":...,"value":...}`.
pub open spec fn broker_body(purpose: Seq<char>, value: Seq<char>) -> Seq<char> {
    render(
        seq![
            TokenView::ObjectStart,
            TokenView::Key("purpose"@),
            TokenView::Str(purpose),
            TokenView::Key("value"@),
            TokenView::Str(value),
            TokenView::ObjectEnd,
        ],
    )
}

/// The HTTP head of a broker request for `path` carrying `length` bytes.
pub open spec fn broker_head(path: Seq<char>, token: Seq<char>, length: nat) -> Seq<char> {
    "POST "@ + path + " HTTP/1.1\r\nhost: localhost\r\ncontent-type: application/json\r\ncontent-length: "@
        + decimal(length) + "\r\nx-aio-token: "@ + token + "\r\nconnection: close\r\n\r\n"@
}

impl Cryptography {
    pub closed spec fn socket_view(&self) -> Option<Seq<char>> {
        match self.socket {
            Some(s) => Some(s@),
            None => None,
        }
    }

    pub closed spec fn token_view(&self) -> Option<Seq<char>> {
        match self.token {
            Some(s) => Some(s@),
            None => None,
        }
    }

    pub fn new(socket: Option<String>, token: Option<String>) -> (r: Cryptography)
        ensures
            r.socket_view() == match socket {
                Some(s) => Some(s@),
                None => None,
            },
            r.token_view() == match token {
                Some(s) => Some(s@),
                None => None,
            },
    {
        Cryptography { socket, token }
    }

    /// The request that asks the broker to `operation` ("seal" or "open")
    /// `value` for `purpose`. A purpose must be 1 to 512 bytes; the broker's
    /// socket and ticket must be bound.
    pub fn prepare(&self, operation: &str, purpose: &str, value: &[u8]) -> (r: Result<BrokerCall, MemoryError>)
        ensures
            (purpose@.len() == 0 || byte_len(purpose@) > 512) ==> (r matches Err(e) && e matches MemoryError::Storage(m)
                && m@ == "加密用途无效"@),
            !(purpose@.len() == 0 || byte_len(purpose@) > 512) && self.socket_view() is None ==> (r matches Err(e)
                && e matches MemoryError::Storage(m) && m@ == "宿主加密通道未绑定"@),
            !(purpose@.len() == 0 || byte_len(purpose@) > 512) && self.socket_view() is Some && self.token_view() is None
                ==> (r matches Err(e) && e matches MemoryError::Storage(m) && m@ == "宿主加密票据缺失"@),
            !(purpose@.len() == 0 || byte_len(purpose@) > 512) && self.socket_view() is Some && self.token_view() is Some
                ==> (r matches Ok(c) && c.socket@ == self.socket_view().unwrap()
                && c.body@ == broker_body(purpose@, base64_text(value@))
                && c.head@ == broker_head("/cryptography/"@ + operation@, self.token_view().unwrap(), byte_len(c.body@))),
    {
        let encoded = base64_encode(value);
        if purpose.unicode_len() == 0 || crate::text::byte_len_exceeds(&chars_of(purpose), 512) {
            return Err(MemoryError::Storage(String::from_str("加密用途无效")));
        }
        let socket = match &self.socket {
            Some(s) => s.clone(),
            None => {
                return Err(MemoryError::Storage(String::from_str("宿主加密通道未绑定")));
            },
        };
        let token = match &self.token {
            Some(t) => t.clone(),
            None => {
                return Err(MemoryError::Storage(String::from_str("宿主加密票据缺失")));
            },
        };
        let tokens = vec![
            JsonToken::ObjectStart,
            JsonToken::Key(String::from_str("purpose")),
            JsonToken::Str(String::from_str(purpose)),
            JsonToken::Key(String::from_str("value")),
            JsonToken::Str(encoded),
            JsonToken::ObjectEnd,
        ];
        let body_chars = render_range(&tokens, 0, tokens.len());
        proof {
            assert(tokens@.subrange(0, tokens@.len() as int) =~= tokens@);
            assert(tokens_view(tokens@) =~= seq![
                TokenView::ObjectStart,
                TokenView::Key("purpose"@),
                TokenView::Str(purpose@),
                TokenView::Key("value"@),
                TokenView::Str(base64_text(value@)),
                TokenView::ObjectEnd,
            ]);
        }
        let body = string_of(body_chars.as_slice());
        let length = crate::text::byte_len_of(&body_chars);
        let mut head = chars_of("POST ");
        crate::text::append_chars(&mut head, &chars_of("/cryptography/"));
        crate::text::append_chars(&mut head, &chars_of(operation));
        crate::text::append_chars(&mut head, &chars_of(" HTTP/1.1\r\nhost: localhost\r\ncontent-type: application/json\r\ncontent-length: "));
        crate::text::append_chars(&mut head, &decimal_chars(length));
        crate::text::append_chars(&mut head, &chars_of("\r\nx-aio-token: "));
        crate::text::append_chars(&mut head, &chars_of(token.as_str()));
        crate::text::append_chars(&mut head, &chars_of("\r\nconnection: close\r\n\r\n"));
        proof {
            assert(head@ =~= broker_head("/cryptography/"@ + operation@, token@, byte_len(body@)));
        }
        Ok(BrokerCall { socket, head: string_of(head.as_slice()), body })
    }
}

/// The blank line that ends the head of a reply starts at `i`.
pub open spec fn break_at(r: Seq<u8>, i: int) -> bool {
    0 <= i && i + 4 <= r.len() && r.subrange(i, i + 4) == seq![13u8, 10u8, 13u8, 10u8]
}

/// The first position of the blank line that ends the head of a reply.
pub open spec fn head_end(r: Seq<u8>) -> Option<int> {
    if exists|i: int| #[trigger] break_at(r, i) {
        Some(choose|i: int| #[trigger] break_at(r, i) && forall|j: int| 0 <= j < i ==> !#[trigger] break_at(r, j))
    } else {
        None
    }
}

/// The ASCII bytes of a text.
pub open spec fn ascii_bytes(s: Seq<char>) -> Seq<u8> {
    s.map_values(|c: char| c as u8)
}

/// A successful reply's status line.
pub open spec fn accepted(head: Seq<u8>) -> bool {
    (head.len() >= 12 && head.subrange(0, 12) == ascii_bytes("HTTP/1.1 200"@)) || (head.len() >= 12
        && head.subrange(0, 12) == ascii_bytes("HTTP/1.0 200"@))
}

fn is_break_at(r: &Vec<u8>, i: usize) -> (b: bool)
    ensures
        b == break_at(r@, i as int),
{
    if i > r.len() || r.len() - i < 4 {
        return false;
    }
    let b = r[i] == 13 && r[i + 1] == 10 && r[i + 2] == 13 && r[i + 3] == 10;
    proof {
        if b {
            assert(r@.subrange(i as int, i + 4) =~= seq![13u8, 10u8, 13u8, 10u8]);
        } else {
            if r@.subrange(i as int, i + 4) == seq![13u8, 10u8, 13u8, 10u8] {
                assert(r@.subrange(i as int, i + 4)[0] == r@[i as int]);
                assert(r@.subrange(i as int, i + 4)[1] == r@[i + 1]);
                assert(r@.subrange(i as int, i + 4)[2] == r@[i + 2]);
                assert(r@.subrange(i as int, i + 4)[3] == r@[i + 3]);
            }
        }
    }
    b
}

fn starts_with_status(r: &Vec<u8>, end: usize, version: u8) -> (b: bool)
    requires
        end <= r@.len(),
    ensures
        b == (end >= 12 && r@.subrange(0, 12) == seq![72u8, 84u8, 84u8, 80u8, 47u8, 49u8, 46u8, version, 32u8, 50u8, 48u8, 48u8]),
{
    if end < 12 {
        return false;
    }
    let want: Vec<u8> = vec![72, 84, 84, 80, 47, 49, 46, version, 32, 50, 48, 48];
    let mut i: usize = 0;
    while i < 12
        invariant
            i <= 12,
            12 <= r@.len(),
            want@ == seq![72u8, 84u8, 84u8, 80u8, 47u8, 49u8, 46u8, version, 32u8, 50u8, 48u8, 48u8],
            forall|k: int| 0 <= k < i ==> r@[k] == want@[k],
        decreases 12 - i,
    {
        if r[i] != want[i] {
            proof {
                assert(r@.subrange(0, 12)[i as int] != want@[i as int]);
            }
            return false;
        }
        i = i + 1;
    }
    proof {
        assert(r@.subrange(0, 12) =~= want@);
    }
    true
}

/// The body of the broker's reply: what follows the head, when the
/// status line accepts the request.
pub fn broker_reply(response: &Vec<u8>) -> (r: Result<Vec<u8>, MemoryError>)
    ensures
        match head_end(response@) {
            None => (r matches Err(e) && e matches MemoryError::Storage(m) && m@ == "broker 响应无效"@),
            Some(s) => if accepted(response@.subrange(0, s)) {
                r matches Ok(b) && b@ == response@.subrange(s + 4, response@.len() as int)
            } else {
                r matches Err(e) && e matches MemoryError::Storage(m) && m@ == "broker 拒绝加密请求"@
            },
        },
{
    let mut i: usize = 0;
    while i < response.len() && !is_break_at(response, i)
        invariant
            i <= response@.len(),
            forall|j: int| 0 <= j < i ==> !#[trigger] break_at(response@, j),
        decreases response.len() - i,
    {
        i = i + 1;
    }
    if !is_break_at(response, i) {
        proof {
            assert forall|j: int| !#[trigger] break_at(response@, j) by {
                if break_at(response@, j) {
                    assert(j < i);
                }
            }
        }
        return Err(MemoryError::Storage(String::from_str("broker 响应无效")));
    }
    proof {
        assert(break_at(response@, i as int));
        let s = head_end(response@).unwrap();
        assert(s == i) by {
            if s < i {
                assert(!break_at(response@, s));
            }
            if i < s {
                assert(!break_at(response@, i as int));
            }
        }
        reveal_strlit("HTTP/1.1 200");
        reveal_strlit("HTTP/1.0 200");
        assert(ascii_bytes("HTTP/1.1 200"@) =~= seq![72u8, 84u8, 84u8, 80u8, 47u8, 49u8, 46u8, 49u8, 32u8, 50u8, 48u8, 48u8]);
        assert(ascii_bytes("HTTP/1.0 200"@) =~= seq![72u8, 84u8, 84u8, 80u8, 47u8, 49u8, 46u8, 48u8, 32u8, 50u8, 48u8, 48u8]);
        if i >= 12 {
            assert(response@.subrange(0, i as int).subrange(0, 12) =~= response@.subrange(0, 12));
        }
    }
    if !(starts_with_status(response, i, 49) || starts_with_status(response, i, 48)) {
        return Err(MemoryError::Storage(String::from_str("broker 拒绝加密请求")));
    }
    let mut body: Vec<u8> = Vec::new();
    let mut k = i + 4;
    while k < response.len()
        invariant
            i + 4 <= k <= response@.len(),
            body@ == response@.subrange(i + 4, k as int),
        decreases response.len() - k,
    {
        body.push(response[k]);
        k = k + 1;
        proof {
            assert(body@ =~= response@.subrange(i + 4, k as int));
        }
    }
    Ok(body)
}

/// The bytes the broker returned, from the base64 text of its reply.
pub fn decode_reply_value(value: &str) -> (r: Result<Vec<u8>, MemoryError>)
    ensures
        match base64_bytes(value@) {
            Some(b) => r matches Ok(v) && v@ == b,
            None => r matches Err(e) && e matches MemoryError::Storage(m) && m@ == "宿主加密响应无效"@,
        },
{
    match base64_decode(value) {
        Some(v) => Ok(v),
        None => Err(MemoryError::Storage(String::from_str("宿主加密响应无效"))),
    }
}

} // verus!
