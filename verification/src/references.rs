//! Secret references, `[[secret:ID]]` with a 32-digit lowercase
//! hexadecimal ID: how they are written, found in a text, and how a text
//! is rewritten only in the parts that lie outside them.
use crate::access::is_lower_hex_digit;
use crate::text::{append_chars, replace_chars, replace_spec, vec_prefix};
use vstd::prelude::*;

verus! {

/// The opening of a reference.
pub open spec fn ref_open() -> Seq<char> {
    seq!['[', '[', 's', 'e', 'c', 'r', 'e', 't', ':']
}

/// The reference text for a secret id.
pub open spec fn reference(id: Seq<char>) -> Seq<char> {
    ref_open() + id + seq![']', ']']
}

/// A reference starts at position `i`.
pub open spec fn is_ref_at(s: Seq<char>, i: int) -> bool {
    &&& 0 <= i
    &&& i + 43 <= s.len()
    &&& s.subrange(i, i + 9) == ref_open()
    &&& forall|k: int| i + 9 <= k < i + 41 ==> is_lower_hex_digit(#[trigger] s[k])
    &&& s[i + 41] == ']'
    &&& s[i + 42] == ']'
}

/// Position of the first reference at or after `i` (the text's length when
/// there is none): the left-to-right search that finds references.
pub open spec fn next_ref(s: Seq<char>, i: int) -> int
    decreases s.len() - i,
{
    if i < 0 || i + 43 > s.len() {
        s.len() as int
    } else if is_ref_at(s, i) {
        i
    } else {
        next_ref(s, i + 1)
    }
}

pub proof fn lemma_next_ref(s: Seq<char>, i: int)
    requires
        0 <= i <= s.len(),
    ensures
        i <= next_ref(s, i) <= s.len(),
        next_ref(s, i) < s.len() ==> is_ref_at(s, next_ref(s, i)),
        forall|k: int| i <= k < next_ref(s, i) ==> !is_ref_at(s, k),
    decreases s.len() - i,
{
    if i + 43 <= s.len() && !is_ref_at(s, i) {
        lemma_next_ref(s, i + 1);
    }
}

/// Rewrites every occurrence of `value` with `replacement` in the parts of
/// `s` from `i` on that lie between references; references are kept.
pub open spec fn outside_from(s: Seq<char>, value: Seq<char>, replacement: Seq<char>, i: int) -> Seq<
    char,
>
    decreases s.len() - i,
{
    if i < 0 || i >= s.len() {
        Seq::empty()
    } else {
        let j = next_ref(s, i);
        proof {
            lemma_next_ref(s, i);
        }
        if j == i {
            s.subrange(i, i + 43) + outside_from(s, value, replacement, i + 43)
        } else {
            replace_spec(s.subrange(i, j), value, replacement) + outside_from(
                s,
                value,
                replacement,
                j,
            )
        }
    }
}

/// Replaces `value` only outside references; an empty value changes
/// nothing.
pub open spec fn replace_outside(s: Seq<char>, value: Seq<char>, replacement: Seq<char>) -> Seq<
    char,
> {
    if value.len() == 0 {
        s
    } else {
        outside_from(s, value, replacement, 0)
    }
}

fn lower_hex(c: char) -> (r: bool)
    ensures
        r == is_lower_hex_digit(c),
{
    ('0' <= c && c <= '9') || ('a' <= c && c <= 'f')
}

/// The reference opening as characters.
pub fn ref_open_chars() -> (r: Vec<char>)
    ensures
        r@ == ref_open(),
{
    let r = vec!['[', '[', 's', 'e', 'c', 'r', 'e', 't', ':'];
    proof {
        assert(r@ =~= ref_open());
    }
    r
}

/// Whether a reference starts at position `i`.
pub fn ref_at(s: &Vec<char>, i: usize) -> (r: bool)
    ensures
        r == is_ref_at(s@, i as int),
{
    if i > s.len() || s.len() - i < 43 {
        return false;
    }
    let open = ref_open_chars();
    if !crate::text::vec_occurs_at(s, &open, i) {
        return false;
    }
    let mut k: usize = i + 9;
    while k < i + 41
        invariant
            i + 43 <= s.len(),
            i + 9 <= k <= i + 41,
            forall|m: int| i + 9 <= m < k ==> is_lower_hex_digit(#[trigger] s@[m]),
        decreases i + 41 - k,
    {
        if !lower_hex(s[k]) {
            return false;
        }
        k = k + 1;
    }
    s[i + 41] == ']' && s[i + 42] == ']'
}

/// The reference text for a secret id.
pub fn reference_text(id: &str) -> (r: String)
    ensures
        r@ == reference(id@),
{
    let mut c = ref_open_chars();
    append_chars(&mut c, &crate::text::chars_of(id));
    c.push(']');
    c.push(']');
    proof {
        assert(c@ =~= reference(id@));
    }
    crate::text::string_of(c.as_slice())
}

/// The first reference at or after `i`.
pub fn find_next_ref(s: &Vec<char>, i: usize) -> (j: usize)
    requires
        i <= s.len(),
    ensures
        j == next_ref(s@, i as int),
{
    let mut j = i;
    while j <= s.len() && s.len() - j >= 43 && !ref_at(s, j)
        invariant
            i <= j <= s.len(),
            next_ref(s@, j as int) == next_ref(s@, i as int),
        decreases s.len() - j,
    {
        j = j + 1;
    }
    if s.len() - j < 43 {
        s.len()
    } else {
        j
    }
}

/// Replaces `value` with `replacement` outside references.
pub fn replace_outside_chars(s: &Vec<char>, value: &Vec<char>, replacement: &Vec<char>) -> (r: Vec<
    char,
>)
    ensures
        r@ == replace_outside(s@, value@, replacement@),
{
    if value.len() == 0 {
        return s.clone();
    }
    let mut out: Vec<char> = Vec::new();
    let mut i: usize = 0;
    while i < s.len()
        invariant
            value.len() > 0,
            i <= s.len(),
            out@ + outside_from(s@, value@, replacement@, i as int) == outside_from(
                s@,
                value@,
                replacement@,
                0,
            ),
        decreases s.len() - i,
    {
        proof {
            lemma_next_ref(s@, i as int);
        }
        let j = find_next_ref(s, i);
        if j == i {
            let mut piece: Vec<char> = Vec::new();
            let mut k = i;
            while k < i + 43
                invariant
                    i + 43 <= s.len(),
                    i <= k <= i + 43,
                    piece@ == s@.subrange(i as int, k as int),
                decreases i + 43 - k,
            {
                piece.push(s[k]);
                k = k + 1;
                proof {
                    assert(piece@ =~= s@.subrange(i as int, k as int));
                }
            }
            proof {
                assert(out@ + piece@ + outside_from(s@, value@, replacement@, i + 43) =~= out@
                    + outside_from(s@, value@, replacement@, i as int));
            }
            append_chars(&mut out, &piece);
            i = i + 43;
        } else {
            let mut gap: Vec<char> = Vec::new();
            let mut k = i;
            while k < j
                invariant
                    i <= k <= j <= s.len(),
                    gap@ == s@.subrange(i as int, k as int),
                decreases j - k,
            {
                gap.push(s[k]);
                k = k + 1;
                proof {
                    assert(gap@ =~= s@.subrange(i as int, k as int));
                }
            }
            let replaced = replace_chars(&gap, value, replacement);
            proof {
                assert(out@ + replaced@ + outside_from(s@, value@, replacement@, j as int) =~= out@
                    + outside_from(s@, value@, replacement@, i as int));
            }
            append_chars(&mut out, &replaced);
            i = j;
        }
    }
    proof {
        assert(out@ + Seq::<char>::empty() =~= out@);
    }
    out
}

/// The text with every reference found by the left-to-right search from
/// `i` removed.
pub open spec fn strip_refs_from(s: Seq<char>, i: int) -> Seq<char>
    decreases s.len() - i,
{
    if i < 0 || i >= s.len() {
        Seq::empty()
    } else {
        let j = next_ref(s, i);
        proof {
            lemma_next_ref(s, i);
        }
        if j == i {
            strip_refs_from(s, i + 43)
        } else {
            s.subrange(i, j) + strip_refs_from(s, j)
        }
    }
}

/// The text with its references removed.
pub open spec fn strip_refs(s: Seq<char>) -> Seq<char> {
    strip_refs_from(s, 0)
}

/// The text holds a reference somewhere.
pub open spec fn has_ref(s: Seq<char>) -> bool {
    exists|q: int| is_ref_at(s, q)
}

/// Whether the text holds a reference.
pub fn contains_ref(s: &Vec<char>) -> (r: bool)
    ensures
        r == has_ref(s@),
{
    proof {
        lemma_next_ref(s@, 0);
    }
    let j = find_next_ref(s, 0);
    proof {
        if has_ref(s@) {
            let q = choose|q: int| is_ref_at(s@, q);
            assert(next_ref(s@, 0) <= q);
        }
    }
    j < s.len()
}

/// The text with its references removed.
pub fn remove_refs(s: &Vec<char>) -> (r: Vec<char>)
    ensures
        r@ == strip_refs(s@),
{
    let mut out: Vec<char> = Vec::new();
    let mut i: usize = 0;
    while i < s.len()
        invariant
            i <= s.len(),
            out@ + strip_refs_from(s@, i as int) == strip_refs(s@),
        decreases s.len() - i,
    {
        proof {
            lemma_next_ref(s@, i as int);
        }
        let j = find_next_ref(s, i);
        if j == i {
            i = i + 43;
        } else {
            let mut k = i;
            let ghost before = out@;
            while k < j
                invariant
                    i <= k <= j <= s.len(),
                    out@ == before + s@.subrange(i as int, k as int),
                decreases j - k,
            {
                out.push(s[k]);
                k = k + 1;
                proof {
                    assert(out@ =~= before + s@.subrange(i as int, k as int));
                }
            }
            proof {
                assert(before + (s@.subrange(i as int, j as int) + strip_refs_from(s@, j as int))
                    =~= out@ + strip_refs_from(s@, j as int));
            }
            i = j;
        }
    }
    proof {
        assert(out@ + Seq::<char>::empty() =~= out@);
    }
    out
}

/// The text with every reference found by the left-to-right search from
/// `i` replaced by `rep`.
pub open spec fn mask_refs_from(s: Seq<char>, i: int, rep: Seq<char>) -> Seq<char>
    decreases s.len() - i,
{
    if i < 0 || i >= s.len() {
        Seq::empty()
    } else {
        let j = next_ref(s, i);
        proof {
            lemma_next_ref(s, i);
        }
        if j == i {
            rep + mask_refs_from(s, i + 43, rep)
        } else {
            s.subrange(i, j) + mask_refs_from(s, j, rep)
        }
    }
}

/// The text with each reference replaced by `rep`.
pub open spec fn mask_refs_spec(s: Seq<char>, rep: Seq<char>) -> Seq<char> {
    mask_refs_from(s, 0, rep)
}

/// Replaces each reference in the text by `rep`.
pub fn mask_refs(s: &Vec<char>, rep: &Vec<char>) -> (r: Vec<char>)
    ensures
        r@ == mask_refs_spec(s@, rep@),
{
    let mut out: Vec<char> = Vec::new();
    let mut i: usize = 0;
    while i < s.len()
        invariant
            i <= s.len(),
            out@ + mask_refs_from(s@, i as int, rep@) == mask_refs_spec(s@, rep@),
        decreases s.len() - i,
    {
        proof {
            lemma_next_ref(s@, i as int);
        }
        let j = find_next_ref(s, i);
        if j == i {
            let ghost before = out@;
            append_chars(&mut out, rep);
            proof {
                assert(before + (rep@ + mask_refs_from(s@, i + 43, rep@)) =~= out@ + mask_refs_from(s@, i + 43, rep@));
            }
            i = i + 43;
        } else {
            let mut k = i;
            let ghost before = out@;
            while k < j
                invariant
                    i <= k <= j <= s.len(),
                    out@ == before + s@.subrange(i as int, k as int),
                decreases j - k,
            {
                out.push(s[k]);
                k = k + 1;
                proof {
                    assert(out@ =~= before + s@.subrange(i as int, k as int));
                }
            }
            proof {
                assert(before + (s@.subrange(i as int, j as int) + mask_refs_from(s@, j as int, rep@))
                    =~= out@ + mask_refs_from(s@, j as int, rep@));
            }
            i = j;
        }
    }
    proof {
        assert(out@ + Seq::<char>::empty() =~= out@);
    }
    out
}

} // verus!
