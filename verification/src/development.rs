//! The development host's answers: which permissions it grants and how it
//! reads its stored key.
use crate::text::str_eq;
use vstd::prelude::*;

verus! {

/// The host services of the development runner.
pub struct DevelopmentServices;

impl DevelopmentServices {
    /// Compiling memory is allowed only for the background agent's
    /// session.
    pub fn authorize(&self, session_id: &Option<String>, permission: &str) -> (r: bool)
        ensures
            r == (permission@ == "memory:compile"@ && (session_id matches Some(s) && s@ == "service:agent"@)),
    {
        str_eq(permission, "memory:compile") && match session_id {
            Some(s) => str_eq(s.as_str(), "service:agent"),
            None => false,
        }
    }
}

/// The value of a hexadecimal digit.
pub open spec fn hex_value(c: char) -> Option<u8> {
    if '0' <= c <= '9' {
        Some((c as u32 - '0' as u32) as u8)
    } else if 'a' <= c <= 'f' {
        Some((c as u32 - 'a' as u32 + 10) as u8)
    } else if 'A' <= c <= 'F' {
        Some((c as u32 - 'A' as u32 + 10) as u8)
    } else {
        None
    }
}

/// `u8::from_str_radix` of two characters in base 16: two digits, or `+`
/// and one digit.
pub open spec fn hex_pair(a: char, b: char) -> Option<u8> {
    if a == '+' {
        hex_value(b)
    } else {
        match (hex_value(a), hex_value(b)) {
            (Some(x), Some(y)) => Some((x * 16 + y) as u8),
            _ => None,
        }
    }
}

fn digit_value(c: char) -> (r: Option<u8>)
    ensures
        r == hex_value(c),
{
    if '0' <= c && c <= '9' {
        Some((c as u32 - '0' as u32) as u8)
    } else if 'a' <= c && c <= 'f' {
        Some((c as u32 - 'a' as u32 + 10) as u8)
    } else if 'A' <= c && c <= 'F' {
        Some((c as u32 - 'A' as u32 + 10) as u8)
    } else {
        None
    }
}

/// Reads the 32-byte development key stored as 64 hexadecimal characters.
pub fn development_key(text: &str) -> (r: Result<Vec<u8>, String>)
    ensures
        !(text@.len() == 64 && forall|i: int| 0 <= i < 64 ==> #[trigger] text@[i] <= '\u{7f}') ==> (r matches Err(m)
            && m@ == "开发宿主密钥无效"@),
        (text@.len() == 64 && forall|i: int| 0 <= i < 64 ==> #[trigger] text@[i] <= '\u{7f}') ==> match r {
            Ok(k) => k@.len() == 32 && forall|i: int| 0 <= i < 32 ==> hex_pair(text@[2 * i], text@[2 * i + 1]) == Some(#[trigger] k@[i]),
            Err(m) => m@ == "invalid digit found in string"@ && exists|i: int| 0 <= i < 32 && #[trigger] hex_pair(text@[2 * i], text@[2 * i + 1]) is None,
        },
{
    let c = crate::text::chars_of(text);
    let mut ascii = c.len() == 64;
    let mut i: usize = 0;
    while ascii && i < c.len()
        invariant
            i <= c.len(),
            c@ == text@,
            ascii ==> c@.len() == 64,
            ascii ==> forall|k: int| 0 <= k < i ==> #[trigger] c@[k] <= '\u{7f}',
            !ascii ==> !(text@.len() == 64 && forall|k: int| 0 <= k < 64 ==> #[trigger] text@[k] <= '\u{7f}'),
        decreases c.len() - i,
    {
        if c[i] > '\u{7f}' {
            ascii = false;
        }
        i = i + 1;
    }
    if !ascii {
        return Err(String::from_str("开发宿主密钥无效"));
    }
    let mut key: Vec<u8> = Vec::new();
    let mut j: usize = 0;
    while j < 32
        invariant
            j <= 32,
            c@ == text@,
            c@.len() == 64,
            forall|k: int| 0 <= k < 64 ==> #[trigger] text@[k] <= '\u{7f}',
            key@.len() == j,
            forall|k: int| 0 <= k < j ==> hex_pair(text@[2 * k], text@[2 * k + 1]) == Some(#[trigger] key@[k]),
        decreases 32 - j,
    {
        let a = c[2 * j];
        let b = c[2 * j + 1];
        let v = if a == '+' {
            digit_value(b)
        } else {
            match (digit_value(a), digit_value(b)) {
                (Some(x), Some(y)) => Some(x * 16 + y),
                _ => None,
            }
        };
        proof {
            assert(v == hex_pair(text@[2 * j as int], text@[2 * j + 1]));
        }
        match v {
            Some(byte) => {
                key.push(byte);
            },
            None => {
                return Err(String::from_str("invalid digit found in string"));
            },
        }
        j = j + 1;
    }
    Ok(key)
}

} // verus!
