//! Record identifiers, the clock and the service's error kinds.
use vstd::prelude::*;

verus! {

/// The kinds of failure a memory request can end in.
#[derive(Clone, Debug)]
pub enum MemoryError {
    /// The request is malformed; the message says why.
    Input(String),
    /// The caller may not perform the operation.
    Access,
    /// The record does not exist or was deleted.
    Missing,
    /// A version or lease no longer matches.
    Stale,
    /// Storage or the host failed; the message is for the operator.
    Storage(String),
}

impl MemoryError {
    /// A storage failure carrying the operator-facing message.
    pub fn storage(message: String) -> (r: MemoryError)
        ensures
            r == MemoryError::Storage(message),
    {
        MemoryError::Storage(message)
    }

    /// The HTTP status each kind of failure is answered with.
    pub fn status_code(&self) -> (r: u16)
        ensures
            r == error_status(*self),
    {
        match self {
            MemoryError::Input(_) => 400,
            MemoryError::Access => 403,
            MemoryError::Missing => 404,
            MemoryError::Stale => 409,
            MemoryError::Storage(_) => 503,
        }
    }

    /// The `{error}` text shown to the caller; storage details stay with
    /// the operator.
    pub fn public_message(&self) -> (r: String)
        ensures
            r@ == error_text(*self),
    {
        match self {
            MemoryError::Input(message) => message.clone(),
            MemoryError::Access => String::from_str("没有访问权限"),
            MemoryError::Missing => String::from_str("记录不存在或已被删除"),
            MemoryError::Stale => String::from_str("内容已被其他会话修改，请刷新后重试"),
            MemoryError::Storage(_) => String::from_str("存储暂不可用，请稍后重试"),
        }
    }

    /// The JSON body the failure is answered with (`error_body_spec`).
    pub fn error_body(&self) -> (r: String)
        ensures
            r@ == error_body_spec(*self),
    {
        let tokens = vec![
            crate::json::JsonToken::ObjectStart,
            crate::json::JsonToken::Key(String::from_str("error")),
            crate::json::JsonToken::Str(self.public_message()),
            crate::json::JsonToken::ObjectEnd,
        ];
        let body = crate::json::render_range(&tokens, 0, tokens.len());
        proof {
            assert(tokens@.subrange(0, tokens@.len() as int) =~= tokens@);
            assert(crate::json::tokens_view(tokens@) =~= seq![
                crate::json::TokenView::ObjectStart,
                crate::json::TokenView::Key("error"@),
                crate::json::TokenView::Str(error_text(*self)),
                crate::json::TokenView::ObjectEnd,
            ]);
        }
        crate::text::string_of(body.as_slice())
    }
}

/// The JSON body a failure is answered with: `{"error": text}`.
pub open spec fn error_body_spec(e: MemoryError) -> Seq<char> {
    crate::json::render(
        seq![
            crate::json::TokenView::ObjectStart,
            crate::json::TokenView::Key("error"@),
            crate::json::TokenView::Str(error_text(e)),
            crate::json::TokenView::ObjectEnd,
        ],
    )
}

/// How every failure is answered: 400 with its own message for bad input,
/// 403, 404, 409 and 503 with fixed texts otherwise, always as
/// `{"error": text}`; what a storage failure carries never reaches the
/// caller.
pub proof fn lemma_error_answers(e: MemoryError, detail: String, other: String)
    ensures
        e matches MemoryError::Input(m) ==> error_status(e) == 400 && error_text(e) == m@,
        e is Access ==> error_status(e) == 403,
        e is Missing ==> error_status(e) == 404,
        e is Stale ==> error_status(e) == 409,
        e is Storage ==> error_status(e) == 503,
        error_text(MemoryError::Storage(detail)) == error_text(MemoryError::Storage(other)),
        error_body_spec(MemoryError::Storage(detail)) == error_body_spec(MemoryError::Storage(other)),
{
}

pub open spec fn error_status(e: MemoryError) -> u16 {
    match e {
        MemoryError::Input(_) => 400,
        MemoryError::Access => 403,
        MemoryError::Missing => 404,
        MemoryError::Stale => 409,
        MemoryError::Storage(_) => 503,
    }
}

pub open spec fn error_text(e: MemoryError) -> Seq<char> {
    match e {
        MemoryError::Input(message) => message@,
        MemoryError::Access => "没有访问权限"@,
        MemoryError::Missing => "记录不存在或已被删除"@,
        MemoryError::Stale => "内容已被其他会话修改，请刷新后重试"@,
        MemoryError::Storage(_) => "存储暂不可用，请稍后重试"@,
    }
}

/// An ASCII hexadecimal digit (`u8::is_ascii_hexdigit`).
pub open spec fn is_hex_digit(c: char) -> bool {
    ('0' <= c <= '9') || ('a' <= c <= 'f') || ('A' <= c <= 'F')
}

/// A lowercase hexadecimal digit.
pub open spec fn is_lower_hex_digit(c: char) -> bool {
    ('0' <= c <= '9') || ('a' <= c <= 'f')
}

/// A record identifier: exactly 32 hexadecimal digits.
pub open spec fn valid_id(s: Seq<char>) -> bool {
    s.len() == 32 && forall|i: int| 0 <= i < s.len() ==> is_hex_digit(#[trigger] s[i])
}

/// The identifiers this service issues: 32 lowercase hexadecimal digits.
pub open spec fn issued_id(s: Seq<char>) -> bool {
    s.len() == 32 && forall|i: int| 0 <= i < s.len() ==> is_lower_hex_digit(#[trigger] s[i])
}

/// Every identifier the service issues is accepted as a record identifier.
pub proof fn lemma_issued_ids_are_valid(s: Seq<char>)
    requires
        issued_id(s),
    ensures
        valid_id(s),
{
}

pub fn char_is_hex(c: char) -> (r: bool)
    ensures
        r == is_hex_digit(c),
{
    ('0' <= c && c <= '9') || ('a' <= c && c <= 'f') || ('A' <= c && c <= 'F')
}

/// A random version-4 UUID in its simple form (`Uuid::new_v4().simple()`),
/// which the uuid crate renders as 32 lowercase hexadecimal digits. Which
/// digits come out is random and is not stated.
#[verifier::external_body]
fn random_simple_uuid() -> (r: String)
    ensures
        issued_id(r@),
{
    uuid::Uuid::new_v4().simple().to_string()
}

/// A fresh random record identifier.
pub fn id() -> (r: String)
    ensures
        issued_id(r@),
        valid_id(r@),
{
    let r = random_simple_uuid();
    proof {
        lemma_issued_ids_are_valid(r@);
    }
    r
}

/// Milliseconds since the Unix epoch by the system clock
/// (`SystemTime::now().duration_since(UNIX_EPOCH)`), or `None` for a clock
/// set before the epoch. The reading depends on the machine and is not
/// stated.
#[verifier::external_body]
fn clock_millis() -> (r: Option<u128>) {
    std::time::SystemTime::now().duration_since(std::time::UNIX_EPOCH).ok().map(
        |duration| duration.as_millis(),
    )
}

/// A clock reading as the store keeps it: milliseconds truncated to 64
/// bits, zero for a clock that reads before the epoch.
pub open spec fn stored_millis(reading: Option<u128>) -> i64 {
    match reading {
        Some(millis) => millis as i64,
        None => 0,
    }
}

pub fn millis_from(reading: Option<u128>) -> (r: i64)
    ensures
        r == stored_millis(reading),
{
    match reading {
        Some(millis) => #[verifier::truncate] (millis as i64),
        None => 0,
    }
}

/// The current time in milliseconds since the Unix epoch, truncated to 64
/// bits as the store keeps it; zero when the clock reads before the epoch.
/// Which time the clock reads is not stated.
pub fn now() -> i64 {
    millis_from(clock_millis())
}

/// An ASCII hexadecimal digit as a byte (`u8::is_ascii_hexdigit`).
pub open spec fn is_hex_byte(b: u8) -> bool {
    (48 <= b <= 57) || (97 <= b <= 102) || (65 <= b <= 70)
}

/// A record identifier as bytes: 32 bytes, each an ASCII hexadecimal digit.
pub open spec fn valid_id_bytes(b: Seq<u8>) -> bool {
    b.len() == 32 && forall|i: int| 0 <= i < b.len() ==> is_hex_byte(#[trigger] b[i])
}

proof fn lemma_hex_char(c: char)
    ensures
        is_hex_digit(c) <==> ((c as u32) <= 0x7F && is_hex_byte((c as u32) as u8)),
{
    let v = c as u32;
    assert((v as int) == c as int);
    assert(v <= 0x7F ==> (v as u8) as u32 == v) by (bit_vector);
}

proof fn lemma_leading_byte(v: u32)
    ensures
        vstd::utf8::encode_scalar(v).len() >= 1,
        v <= 0x7F ==> vstd::utf8::encode_scalar(v) == seq![v as u8],
        v > 0x7F ==> vstd::utf8::encode_scalar(v)[0] >= 0x80,
{
    if v <= 0x7F {
        assert((v & 0x7F) as u8 == v as u8) by (bit_vector)
            requires
                v <= 0x7F,
        ;
    } else {
        assert(0xC0 | ((v >> 6) & 0x1F) as u8 >= 0x80) by (bit_vector);
        assert(0xE0 | ((v >> 12) & 0x0F) as u8 >= 0x80) by (bit_vector);
        assert(0xF0 | ((v >> 18) & 0x7) as u8 >= 0x80) by (bit_vector);
    }
}

proof fn lemma_hex_encoding(s: Seq<char>)
    ensures
        (forall|i: int| 0 <= i < s.len() ==> is_hex_digit(#[trigger] s[i])) ==> (vstd::utf8::encode_utf8(s).len() == s.len()
            && forall|i: int| 0 <= i < s.len() ==> is_hex_byte(#[trigger] vstd::utf8::encode_utf8(s)[i])),
        (forall|i: int| 0 <= i < vstd::utf8::encode_utf8(s).len() ==> is_hex_byte(#[trigger] vstd::utf8::encode_utf8(s)[i]))
            ==> (forall|i: int| 0 <= i < s.len() ==> is_hex_digit(#[trigger] s[i])) && vstd::utf8::encode_utf8(s).len() == s.len(),
    decreases s.len(),
{
    if s.len() > 0 {
        let rest = s.drop_first();
        lemma_hex_encoding(rest);
        let v = s[0] as u32;
        lemma_leading_byte(v);
        let head = vstd::utf8::encode_scalar(v);
        let e = vstd::utf8::encode_utf8(s);
        let er = vstd::utf8::encode_utf8(rest);
        assert(e == head + er);
        if forall|i: int| 0 <= i < s.len() ==> is_hex_digit(#[trigger] s[i]) {
            assert(is_hex_digit(s[0]));
            assert forall|i: int| 0 <= i < rest.len() implies is_hex_digit(#[trigger] rest[i]) by {
                assert(rest[i] == s[i + 1]);
                assert(is_hex_digit(s[i + 1]));
            }
            lemma_hex_char(s[0]);
            assert(v <= 0x7F);
            assert forall|i: int| 0 <= i < s.len() implies is_hex_byte(#[trigger] e[i]) by {
                if i == 0 {
                    assert(e[0] == v as u8);
                } else {
                    assert(e[i] == er[i - 1]);
                }
            }
        }
        if forall|i: int| 0 <= i < e.len() ==> is_hex_byte(#[trigger] e[i]) {
            assert(is_hex_byte(e[0]));
            assert(e[0] == head[0]);
            assert(v <= 0x7F);
            assert(head == seq![v as u8]);
            lemma_hex_char(s[0]);
            assert(is_hex_digit(s[0]));
            assert forall|i: int| 0 <= i < er.len() implies is_hex_byte(#[trigger] er[i]) by {
                assert(er[i] == e[i + 1]);
            }
            assert forall|i: int| 0 <= i < s.len() implies is_hex_digit(#[trigger] s[i]) by {
                if i > 0 {
                    assert(s[i] == rest[i - 1]);
                }
            }
        }
    }
}

/// A text is a record identifier exactly when its UTF-8 bytes are one: 32
/// bytes, each an ASCII hexadecimal digit.
pub proof fn lemma_id_bytes(s: Seq<char>)
    ensures
        valid_id(s) <==> valid_id_bytes(vstd::utf8::encode_utf8(s)),
{
    lemma_hex_encoding(s);
}

/// Accepts exactly the record identifiers: 32 hexadecimal digits, that is
/// 32 bytes that are each an ASCII hexadecimal digit.
pub fn require_id(value: &str) -> (r: Result<(), MemoryError>)
    ensures
        r is Ok <==> valid_id(value@),
        r is Ok <==> valid_id_bytes(vstd::utf8::encode_utf8(value@)),
        r matches Err(e) ==> (e matches MemoryError::Input(m) && m@ == "节点或关系 ID 无效"@),
{
    let chars = crate::text::chars_of(value);
    let mut ok = chars.len() == 32;
    let mut i: usize = 0;
    while ok && i < chars.len()
        invariant
            chars@ == value@,
            i <= chars.len(),
            ok ==> chars.len() == 32,
            ok ==> forall|k: int| 0 <= k < i ==> is_hex_digit(#[trigger] chars@[k]),
            !ok ==> !valid_id(value@),
        decreases chars.len() - i,
    {
        if !char_is_hex(chars[i]) {
            ok = false;
        }
        i = i + 1;
    }
    proof {
        lemma_id_bytes(value@);
    }
    if ok {
        Ok(())
    } else {
        Err(MemoryError::Input(String::from_str("节点或关系 ID 无效")))
    }
}

} // verus!
