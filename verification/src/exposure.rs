//! Which parts of a text lie inside secret references, and the proof that
//! rewriting a value outside references leaves no occurrence of it, or of
//! any value already absent there, outside references.
use crate::references::{is_ref_at, lemma_next_ref, next_ref, outside_from, reference, ref_open};
use crate::text::{contains, occurs_at, replace_spec};
use vstd::prelude::*;

verus! {

/// Position `p` lies inside a reference found by the left-to-right search
/// starting at `i`.
pub open spec fn in_ref_from(s: Seq<char>, i: int, p: int) -> bool
    decreases s.len() - i,
{
    if i < 0 || i >= s.len() {
        false
    } else {
        let j = next_ref(s, i);
        proof {
            lemma_next_ref(s, i);
        }
        if j >= s.len() {
            false
        } else if p < j {
            false
        } else if p < j + 43 {
            true
        } else {
            in_ref_from(s, j + 43, p)
        }
    }
}

/// Position `p` of `s` lies inside a reference.
pub open spec fn in_ref(s: Seq<char>, p: int) -> bool {
    in_ref_from(s, 0, p)
}

/// `v` occurs in `s` somewhere wholly outside references.
pub open spec fn exposed(s: Seq<char>, v: Seq<char>) -> bool {
    exists|i: int|
        occurs_at(s, v, i) && forall|p: int| i <= p < i + v.len() ==> !#[trigger] in_ref(s, p)
}

// ---------------------------------------------------------------- segments

/// A text cut into pieces, each either a reference (`true`) or free text.
pub type Segs = Seq<(Seq<char>, bool)>;

pub open spec fn join(segs: Segs) -> Seq<char>
    decreases segs.len(),
{
    if segs.len() == 0 {
        Seq::empty()
    } else {
        segs[0].0 + join(segs.drop_first())
    }
}

/// No reference lies wholly inside `s`.
pub open spec fn ref_free(s: Seq<char>) -> bool {
    forall|q: int| !is_ref_at(s, q)
}

pub open spec fn seg_ok(x: (Seq<char>, bool)) -> bool {
    if x.1 {
        x.0.len() == 43 && is_ref_at(x.0, 0)
    } else {
        ref_free(x.0)
    }
}

/// Every piece is well formed and a free piece is never followed by
/// another free piece.
pub open spec fn segs_ok(segs: Segs) -> bool {
    &&& forall|k: int| 0 <= k < segs.len() ==> seg_ok(#[trigger] segs[k])
    &&& forall|k: int| 0 <= k < segs.len() - 1 && !(#[trigger] segs[k]).1 ==> segs[k + 1].1
}

/// Some free piece contains `w`.
pub open spec fn free_contains(segs: Segs, w: Seq<char>) -> bool {
    exists|k: int| 0 <= k < segs.len() && !(#[trigger] segs[k]).1 && contains(segs[k].0, w)
}

// ---------------------------------------------------------------- shifting

pub proof fn lemma_ref_shift(a: Seq<char>, u: Seq<char>, q: int)
    requires
        0 <= q,
    ensures
        is_ref_at(a + u, a.len() + q) == is_ref_at(u, q),
{
    let t = a + u;
    let b = a.len() as int;
    if q + 43 <= u.len() {
        assert(t.subrange(b + q, b + q + 9) =~= u.subrange(q, q + 9));
        assert forall|k: int| b + q + 9 <= k < b + q + 41 implies t[k] == u[k - b] by {}
        if is_ref_at(u, q) {
            assert forall|k: int| b + q + 9 <= k < b + q + 41 implies crate::access::is_lower_hex_digit(
                #[trigger] t[k],
            ) by {
                assert(t[k] == u[k - b]);
            }
        }
        if is_ref_at(t, b + q) {
            assert forall|k: int| q + 9 <= k < q + 41 implies crate::access::is_lower_hex_digit(
                #[trigger] u[k],
            ) by {
                assert(t[k + b] == u[k]);
            }
        }
    }
}

pub proof fn lemma_next_ref_shift(a: Seq<char>, u: Seq<char>, q: int)
    requires
        0 <= q <= u.len(),
    ensures
        next_ref(a + u, a.len() + q) == a.len() + next_ref(u, q),
    decreases u.len() - q,
{
    lemma_ref_shift(a, u, q);
    if q + 43 <= u.len() && !is_ref_at(u, q) {
        lemma_next_ref_shift(a, u, q + 1);
    }
}

pub proof fn lemma_in_ref_shift(a: Seq<char>, u: Seq<char>, q: int, o: int)
    requires
        0 <= q,
    ensures
        in_ref_from(a + u, a.len() + q, a.len() + o) == in_ref_from(u, q, o),
    decreases u.len() - q,
{
    if q < u.len() {
        lemma_next_ref_shift(a, u, q);
        lemma_next_ref(u, q);
        let j = next_ref(u, q);
        if j < u.len() && o >= j + 43 {
            lemma_in_ref_shift(a, u, j + 43, o);
        }
    }
}

// ---------------------------------------------------------------- rigidity

/// Two references never overlap.
pub proof fn lemma_refs_apart(t: Seq<char>, q: int, p: int)
    requires
        is_ref_at(t, q),
        is_ref_at(t, p),
        q < p,
    ensures
        p >= q + 43,
{
    if p < q + 43 {
        let d = p - q;
        assert(t.subrange(p, p + 9)[0] == t[p]);
        assert(t.subrange(p, p + 9)[1] == t[p + 1]);
        assert(t[p] == '[');
        assert(t[p + 1] == '[');
        if d <= 8 {
            assert(t.subrange(q, q + 9)[d] == t[q + d]);
            assert(t.subrange(q, q + 9)[d + 1] == t[q + d + 1]);
            assert(ref_open()[d] == t[p]);
            if d < 8 {
                assert(ref_open()[d + 1] == t[p + 1]);
            } else {
                assert(crate::access::is_lower_hex_digit(t[q + 9]));
            }
        } else if d <= 40 {
            assert(crate::access::is_lower_hex_digit(t[q + d]));
        }
    }
}

/// `next_ref` is the first reference position: none before `j`, and `j`
/// is a reference or the end.
pub proof fn lemma_next_ref_is(s: Seq<char>, i: int, j: int)
    requires
        0 <= i <= j <= s.len(),
        forall|q: int| i <= q < j ==> !is_ref_at(s, q),
        j == s.len() || is_ref_at(s, j),
    ensures
        next_ref(s, i) == j,
    decreases j - i,
{
    if i < j {
        if i + 43 <= s.len() {
            lemma_next_ref_is(s, i + 1, j);
        } else {
            assert(j == s.len() || j + 43 <= s.len());
        }
    } else {
        if j < s.len() {
            assert(is_ref_at(s, j));
        }
    }
}

/// A free piece followed by a reference or by nothing: the search from
/// its start stops right after it.
pub proof fn lemma_free_then_ref(f: Seq<char>, u: Seq<char>)
    requires
        ref_free(f),
        u.len() == 0 || is_ref_at(u, 0),
    ensures
        next_ref(f + u, 0) == f.len(),
        forall|q: int| 0 <= q < f.len() ==> !is_ref_at(f + u, q),
{
    let t = f + u;
    assert forall|q: int| 0 <= q < f.len() implies !is_ref_at(t, q) by {
        if is_ref_at(t, q) {
            if q + 43 <= f.len() {
                assert(t.subrange(q, q + 9) =~= f.subrange(q, q + 9));
                assert forall|k: int| q + 9 <= k < q + 41 implies crate::access::is_lower_hex_digit(
                    #[trigger] f[k],
                ) by {
                    assert(t[k] == f[k]);
                }
                assert(t[q + 41] == f[q + 41]);
                assert(t[q + 42] == f[q + 42]);
                assert(is_ref_at(f, q));
            } else {
                assert(u.len() > 0);
                lemma_ref_shift(f, u, 0);
                assert(f.len() + 0 == f.len());
                lemma_refs_apart(t, q, f.len() as int);
            }
        }
    }
    if u.len() > 0 {
        lemma_ref_shift(f, u, 0);
    }
    lemma_next_ref_is(t, 0, f.len() as int);
}

// ---------------------------------------------------------------- exposure in pieces

pub proof fn lemma_occurs_shift(a: Seq<char>, u: Seq<char>, w: Seq<char>, i: int)
    ensures
        i >= 0 ==> (occurs_at(a + u, w, a.len() + i) == occurs_at(u, w, i)),
{
    if i >= 0 && a.len() + i + w.len() <= (a + u).len() {
        assert((a + u).subrange(a.len() + i, a.len() + i + w.len()) =~= u.subrange(i, i + w.len()));
    }
}

pub proof fn lemma_occurs_prefix(a: Seq<char>, u: Seq<char>, w: Seq<char>, i: int)
    requires
        0 <= i,
        i + w.len() <= a.len(),
    ensures
        occurs_at(a + u, w, i) == occurs_at(a, w, i),
{
    assert((a + u).subrange(i, i + w.len()) =~= a.subrange(i, i + w.len()));
}

/// An exposed occurrence lies inside one free piece.
pub proof fn lemma_exposed_in_free(segs: Segs, w: Seq<char>)
    requires
        segs_ok(segs),
        w.len() > 0,
        exposed(join(segs), w),
    ensures
        free_contains(segs, w),
    decreases segs.len(),
{
    let t = join(segs);
    let i = choose|i: int|
        occurs_at(t, w, i) && forall|p: int| i <= p < i + w.len() ==> !#[trigger] in_ref(t, p);
    assert(segs.len() > 0);
    let s0 = segs[0].0;
    let rest = segs.drop_first();
    let u = join(rest);
    assert(t == s0 + u);
    assert(seg_ok(segs[0]));
    assert forall|k: int| 0 <= k < rest.len() implies seg_ok(#[trigger] rest[k]) by {
        assert(rest[k] == segs[k + 1]);
    }
    assert forall|k: int| 0 <= k < rest.len() - 1 && !(#[trigger] rest[k]).1 implies rest[k + 1].1 by {
        assert(rest[k] == segs[k + 1]);
        assert(rest[k + 1] == segs[k + 2]);
    }
    if segs[0].1 {
        // a reference piece: positions before 43 are inside it
        assert(is_ref_at(t, 0)) by {
            lemma_ref_shift(Seq::<char>::empty(), t, 0);
            assert(t.subrange(0, 9) =~= s0.subrange(0, 9));
            assert forall|k: int| 9 <= k < 41 implies crate::access::is_lower_hex_digit(#[trigger] t[k]) by {
                assert(t[k] == s0[k]);
            }
            assert(t[41] == s0[41]);
            assert(t[42] == s0[42]);
        }
        lemma_next_ref_is(t, 0, 0);
        assert(!in_ref(t, i));
        assert(i >= 43);
        lemma_occurs_shift(s0, u, w, i - 43);
        assert forall|p: int| i - 43 <= p < i - 43 + w.len() implies !#[trigger] in_ref(u, p) by {
            lemma_in_ref_shift(s0, u, 0, p);
            assert(!in_ref(t, p + 43));
        }
        lemma_exposed_in_free(rest, w);
        let k = choose|k: int| 0 <= k < rest.len() && !(#[trigger] rest[k]).1 && contains(rest[k].0, w);
        assert(segs[k + 1] == rest[k]);
    } else {
        if rest.len() > 0 {
            assert(segs[1].1);
            assert(rest[0] == segs[1]);
            assert(seg_ok(rest[0]));
            assert(u == rest[0].0 + join(rest.drop_first()));
            assert(is_ref_at(u, 0)) by {
                assert(u.subrange(0, 9) =~= rest[0].0.subrange(0, 9));
                assert forall|k: int| 9 <= k < 41 implies crate::access::is_lower_hex_digit(#[trigger] u[k]) by {
                    assert(u[k] == rest[0].0[k]);
                }
                assert(u[41] == rest[0].0[41]);
                assert(u[42] == rest[0].0[42]);
            }
        } else {
            assert(u.len() == 0);
        }
        lemma_free_then_ref(s0, u);
        if i + w.len() <= s0.len() {
            lemma_occurs_prefix(s0, u, w, i);
            assert(segs[0] == segs[0]);
        } else if i < s0.len() {
            // the occurrence would reach the reference that follows
            assert(u.len() > 0);
            let f = s0.len() as int;
            lemma_ref_shift(s0, u, 0);
            lemma_next_ref_is(t, f, f);
            assert(in_ref_from(t, f, f));
            assert(in_ref(t, f));
            assert(false);
        } else {
            let f = s0.len() as int;
            lemma_occurs_shift(s0, u, w, i - f);
            assert forall|p: int| i - f <= p < i - f + w.len() implies !#[trigger] in_ref(u, p) by {
                lemma_in_ref_shift(s0, u, 0, p);
                if u.len() > 0 {
                    lemma_ref_shift(s0, u, 0);
                    lemma_next_ref_is(t, f, f);
                }
                assert(!in_ref(t, p + f));
            }
            lemma_exposed_in_free(rest, w);
            let k = choose|k: int| 0 <= k < rest.len() && !(#[trigger] rest[k]).1 && contains(rest[k].0, w);
            assert(segs[k + 1] == rest[k]);
        }
    }
}


proof fn lemma_rest_ok(segs: Segs)
    requires
        segs_ok(segs),
        segs.len() > 0,
    ensures
        segs_ok(segs.drop_first()),
{
    let rest = segs.drop_first();
    assert forall|k: int| 0 <= k < rest.len() implies seg_ok(#[trigger] rest[k]) by {
        assert(rest[k] == segs[k + 1]);
    }
    assert forall|k: int| 0 <= k < rest.len() - 1 && !(#[trigger] rest[k]).1 implies rest[k + 1].1 by {
        assert(rest[k] == segs[k + 1]);
        assert(rest[k + 1] == segs[k + 2]);
    }
}

proof fn lemma_ref_piece_at_start(x: Seq<char>, u: Seq<char>)
    requires
        x.len() == 43,
        is_ref_at(x, 0),
    ensures
        is_ref_at(x + u, 0),
{
    let t = x + u;
    assert(t.subrange(0, 9) =~= x.subrange(0, 9));
    assert forall|k: int| 9 <= k < 41 implies crate::access::is_lower_hex_digit(#[trigger] t[k]) by {
        assert(t[k] == x[k]);
    }
    assert(t[41] == x[41]);
    assert(t[42] == x[42]);
}

/// Positions past the first piece are inside references exactly when they
/// are in the rest of the text.
proof fn lemma_in_ref_rest(segs: Segs, p: int)
    requires
        segs_ok(segs),
        segs.len() > 0,
        p >= segs[0].0.len(),
    ensures
        in_ref(join(segs), p) == in_ref(join(segs.drop_first()), p - segs[0].0.len()),
        segs[0].1 ==> forall|q: int| 0 <= q < 43 ==> in_ref(join(segs), q),
        !segs[0].1 ==> forall|q: int| 0 <= q < segs[0].0.len() ==> !in_ref(join(segs), q),
{
    let s0 = segs[0].0;
    let rest = segs.drop_first();
    let u = join(rest);
    let t = join(segs);
    assert(t == s0 + u);
    assert(seg_ok(segs[0]));
    let f = s0.len() as int;
    lemma_in_ref_shift(s0, u, 0, p - f);
    if segs[0].1 {
        lemma_ref_piece_at_start(s0, u);
        lemma_next_ref_is(t, 0, 0);
    } else {
        if rest.len() > 0 {
            assert(segs[1].1);
            assert(rest[0] == segs[1]);
            assert(seg_ok(rest[0]));
            assert(u == rest[0].0 + join(rest.drop_first()));
            lemma_ref_piece_at_start(rest[0].0, join(rest.drop_first()));
            lemma_ref_shift(s0, u, 0);
            lemma_next_ref_is(t, f, f);
        } else {
            assert(u.len() == 0);
        }
        lemma_free_then_ref(s0, u);
    }
}

/// A value inside a free piece is exposed in the joined text.
pub proof fn lemma_free_exposed(segs: Segs, w: Seq<char>)
    requires
        segs_ok(segs),
        w.len() > 0,
        free_contains(segs, w),
    ensures
        exposed(join(segs), w),
    decreases segs.len(),
{
    let k = choose|k: int| 0 <= k < segs.len() && !(#[trigger] segs[k]).1 && contains(segs[k].0, w);
    let s0 = segs[0].0;
    let rest = segs.drop_first();
    let u = join(rest);
    let t = join(segs);
    assert(t == s0 + u);
    let f = s0.len() as int;
    lemma_in_ref_rest(segs, f);
    if k == 0 {
        let i = choose|i: int| occurs_at(s0, w, i);
        lemma_occurs_prefix(s0, u, w, i);
        assert forall|p: int| i <= p < i + w.len() implies !#[trigger] in_ref(t, p) by {}
    } else {
        lemma_rest_ok(segs);
        assert(rest[k - 1] == segs[k]);
        lemma_free_exposed(rest, w);
        let i = choose|i: int|
            occurs_at(u, w, i) && forall|p: int| i <= p < i + w.len() ==> !#[trigger] in_ref(u, p);
        lemma_occurs_shift(s0, u, w, i);
        assert forall|p: int| i + f <= p < i + f + w.len() implies !#[trigger] in_ref(t, p) by {
            lemma_in_ref_rest(segs, p);
        }
        assert(occurs_at(t, w, i + f));
    }
}

// ---------------------------------------------------------------- the input's pieces

/// The pieces of `s` from `i` on, as the reference search cuts it.
pub open spec fn segs_from(s: Seq<char>, i: int) -> Segs
    decreases s.len() - i,
{
    if i < 0 || i >= s.len() {
        Seq::empty()
    } else {
        let j = next_ref(s, i);
        proof {
            lemma_next_ref(s, i);
        }
        if j == i {
            seq![(s.subrange(i, i + 43), true)] + segs_from(s, i + 43)
        } else {
            seq![(s.subrange(i, j), false)] + segs_from(s, j)
        }
    }
}

proof fn lemma_segs_from(s: Seq<char>, i: int)
    requires
        0 <= i <= s.len(),
    ensures
        join(segs_from(s, i)) == s.subrange(i, s.len() as int),
        segs_ok(segs_from(s, i)),
        segs_from(s, i).len() > 0 ==> (segs_from(s, i)[0].1 <==> is_ref_at(s, i)),
    decreases s.len() - i,
{
    if i < s.len() {
        lemma_next_ref(s, i);
        let j = next_ref(s, i);
        let segs = segs_from(s, i);
        if j == i {
            lemma_segs_from(s, i + 43);
            let rest = segs_from(s, i + 43);
            assert(segs.drop_first() =~= rest);
            assert(s.subrange(i, i + 43) + s.subrange(i + 43, s.len() as int) =~= s.subrange(
                i,
                s.len() as int,
            ));
            let piece = s.subrange(i, i + 43);
            assert(is_ref_at(piece, 0)) by {
                assert(piece.subrange(0, 9) =~= s.subrange(i, i + 9));
                assert forall|k: int| 9 <= k < 41 implies crate::access::is_lower_hex_digit(
                    #[trigger] piece[k],
                ) by {
                    assert(piece[k] == s[i + k]);
                }
            }
            assert forall|k: int| 0 <= k < segs.len() implies seg_ok(#[trigger] segs[k]) by {
                if k > 0 {
                    assert(segs[k] == rest[k - 1]);
                }
            }
            assert forall|k: int| 0 <= k < segs.len() - 1 && !(#[trigger] segs[k]).1 implies segs[k
                + 1].1 by {
                assert(k > 0);
                assert(segs[k] == rest[k - 1]);
                assert(segs[k + 1] == rest[k]);
            }
        } else {
            lemma_segs_from(s, j);
            let rest = segs_from(s, j);
            assert(segs.drop_first() =~= rest);
            assert(s.subrange(i, j) + s.subrange(j, s.len() as int) =~= s.subrange(
                i,
                s.len() as int,
            ));
            let piece = s.subrange(i, j);
            assert forall|q: int| !is_ref_at(piece, q) by {
                if is_ref_at(piece, q) {
                    assert(s.subrange(i + q, i + q + 9) =~= piece.subrange(q, q + 9));
                    assert forall|k: int| i + q + 9 <= k < i + q + 41 implies crate::access::is_lower_hex_digit(
                        #[trigger] s[k],
                    ) by {
                        assert(s[k] == piece[k - i]);
                    }
                    assert(s[i + q + 41] == piece[q + 41]);
                    assert(s[i + q + 42] == piece[q + 42]);
                    assert(is_ref_at(s, i + q));
                }
            }
            if j < s.len() {
                assert(is_ref_at(s, j));
                assert(rest.len() > 0);
            }
            assert forall|k: int| 0 <= k < segs.len() implies seg_ok(#[trigger] segs[k]) by {
                if k > 0 {
                    assert(segs[k] == rest[k - 1]);
                }
            }
            assert forall|k: int| 0 <= k < segs.len() - 1 && !(#[trigger] segs[k]).1 implies segs[k
                + 1].1 by {
                if k > 0 {
                    assert(segs[k] == rest[k - 1]);
                    assert(segs[k + 1] == rest[k]);
                } else {
                    assert(segs[1] == rest[0]);
                }
            }
        }
    } else {
        assert(s.subrange(i, s.len() as int) =~= Seq::<char>::empty());
    }
}


// ---------------------------------------------------------------- the output's pieces

proof fn lemma_join_append(a: Segs, b: Segs)
    ensures
        join(a + b) == join(a) + join(b),
    decreases a.len(),
{
    if a.len() == 0 {
        assert(a + b =~= b);
        assert(join(a) + join(b) =~= join(b));
    } else {
        lemma_join_append(a.drop_first(), b);
        assert((a + b).drop_first() =~= a.drop_first() + b);
        assert((a + b)[0] == a[0]);
        assert(join(a) + join(b) =~= a[0].0 + (join(a.drop_first()) + join(b)));
    }
}

proof fn lemma_segs_append(a: Segs, b: Segs)
    requires
        segs_ok(a),
        segs_ok(b),
        a.len() > 0 && !a.last().1 ==> b.len() == 0 || b[0].1,
    ensures
        segs_ok(a + b),
        forall|w: Seq<char>| free_contains(a + b, w) ==> free_contains(a, w) || free_contains(b, w),
        forall|w: Seq<char>| free_contains(a, w) || free_contains(b, w) ==> free_contains(a + b, w),
{
    let c = a + b;
    assert forall|k: int| 0 <= k < c.len() implies seg_ok(#[trigger] c[k]) by {
        if k < a.len() {
            assert(c[k] == a[k]);
        } else {
            assert(c[k] == b[k - a.len()]);
        }
    }
    assert forall|k: int| 0 <= k < c.len() - 1 && !(#[trigger] c[k]).1 implies c[k + 1].1 by {
        if k < a.len() - 1 {
            assert(c[k] == a[k]);
            assert(c[k + 1] == a[k + 1]);
        } else if k == a.len() - 1 {
            assert(c[k] == a.last());
            assert(c[k + 1] == b[0]);
        } else {
            assert(c[k] == b[k - a.len()]);
            assert(c[k + 1] == b[k + 1 - a.len()]);
        }
    }
    assert forall|w: Seq<char>| free_contains(c, w) implies free_contains(a, w) || free_contains(b, w) by {
        let k = choose|k: int| 0 <= k < c.len() && !(#[trigger] c[k]).1 && contains(c[k].0, w);
        if k < a.len() {
            assert(c[k] == a[k]);
        } else {
            assert(c[k] == b[k - a.len()]);
        }
    }
    assert forall|w: Seq<char>| free_contains(a, w) || free_contains(b, w) implies free_contains(c, w) by {
        if free_contains(a, w) {
            let k = choose|k: int| 0 <= k < a.len() && !(#[trigger] a[k]).1 && contains(a[k].0, w);
            assert(c[k] == a[k]);
        } else {
            let k = choose|k: int| 0 <= k < b.len() && !(#[trigger] b[k]).1 && contains(b[k].0, w);
            assert(c[k + a.len()] == b[k]);
        }
    }
}

proof fn lemma_sub_ref_free(g: Seq<char>, x: int, y: int)
    requires
        ref_free(g),
        0 <= x <= y <= g.len(),
    ensures
        ref_free(g.subrange(x, y)),
{
    let p = g.subrange(x, y);
    assert forall|q: int| !is_ref_at(p, q) by {
        if is_ref_at(p, q) {
            assert(g.subrange(x + q, x + q + 9) =~= p.subrange(q, q + 9));
            assert forall|k: int| x + q + 9 <= k < x + q + 41 implies crate::access::is_lower_hex_digit(
                #[trigger] g[k],
            ) by {
                assert(g[k] == p[k - x]);
            }
            assert(g[x + q + 41] == p[q + 41]);
            assert(g[x + q + 42] == p[q + 42]);
            assert(is_ref_at(g, x + q));
        }
    }
}

proof fn lemma_sub_contains(g: Seq<char>, x: int, y: int, w: Seq<char>)
    requires
        0 <= x <= y <= g.len(),
        contains(g.subrange(x, y), w),
    ensures
        contains(g, w),
{
    let p = g.subrange(x, y);
    let i = choose|i: int| occurs_at(p, w, i);
    assert(g.subrange(x + i, x + i + w.len()) =~= p.subrange(i, i + w.len()));
    assert(occurs_at(g, w, x + i));
}

/// The pieces of `g` with every leftmost occurrence of `v`, scanning from
/// `i`, turned into the reference `r`; the current free piece began at `a`.
pub open spec fn frags_at(g: Seq<char>, v: Seq<char>, r: Seq<char>, a: int, i: int) -> Segs
    decreases g.len() - i,
{
    if v.len() == 0 || i < 0 || i + v.len() > g.len() {
        seq![(g.subrange(a, g.len() as int), false)]
    } else if g.subrange(i, i + v.len()) == v {
        seq![(g.subrange(a, i), false), (r, true)] + frags_at(g, v, r, i + v.len(), i + v.len())
    } else {
        frags_at(g, v, r, a, i + 1)
    }
}

/// A valid reference piece.
pub open spec fn ref_piece(r: Seq<char>) -> bool {
    r.len() == 43 && is_ref_at(r, 0)
}

proof fn lemma_frags(g: Seq<char>, v: Seq<char>, r: Seq<char>, a: int, i: int)
    requires
        v.len() > 0,
        ref_piece(r),
        ref_free(g),
        0 <= a <= i <= g.len(),
        forall|m: int| a <= m < i ==> !occurs_at(g, v, m),
    ensures
        join(frags_at(g, v, r, a, i)) == g.subrange(a, i) + replace_spec(
            g.subrange(i, g.len() as int),
            v,
            r,
        ),
        segs_ok(frags_at(g, v, r, a, i)),
        frags_at(g, v, r, a, i).len() > 0,
        !frags_at(g, v, r, a, i)[0].1,
        !frags_at(g, v, r, a, i).last().1,
        !free_contains(frags_at(g, v, r, a, i), v),
        forall|w: Seq<char>| free_contains(frags_at(g, v, r, a, i), w) ==> contains(g, w),
    decreases g.len() - i,
{
    let fs = frags_at(g, v, r, a, i);
    let rest_text = g.subrange(i, g.len() as int);
    if i + v.len() > g.len() {
        let piece = g.subrange(a, g.len() as int);
        assert(fs == seq![(piece, false)]);
        assert(rest_text.len() < v.len());
        assert(g.subrange(a, i) + rest_text =~= piece);
        assert(join(fs) == piece + join(fs.drop_first()));
        assert(fs.drop_first() =~= Seq::<(Seq<char>, bool)>::empty());
        assert(piece + Seq::<char>::empty() =~= piece);
        lemma_sub_ref_free(g, a, g.len() as int);
        assert(seg_ok(fs[0]));
        assert(!contains(piece, v)) by {
            if contains(piece, v) {
                let m = choose|m: int| occurs_at(piece, v, m);
                assert(g.subrange(a + m, a + m + v.len()) =~= piece.subrange(m, m + v.len()));
                assert(occurs_at(g, v, a + m));
            }
        }
        assert forall|w: Seq<char>| free_contains(fs, w) implies contains(g, w) by {
            lemma_sub_contains(g, a, g.len() as int, w);
        }
    } else if g.subrange(i, i + v.len()) == v {
        let piece = g.subrange(a, i);
        let head = seq![(piece, false), (r, true)];
        let tail = frags_at(g, v, r, i + v.len(), i + v.len());
        lemma_frags(g, v, r, i + v.len(), i + v.len());
        assert(fs == head + tail);
        lemma_join_append(head, tail);
        assert(join(head) =~= piece + r) by {
            assert(head.drop_first().drop_first() =~= Seq::<(Seq<char>, bool)>::empty());
            assert(join(head.drop_first()) == r + join(head.drop_first().drop_first()));
        }
        assert(rest_text.subrange(0, v.len() as int) =~= g.subrange(i, i + v.len()));
        assert(rest_text.subrange(v.len() as int, rest_text.len() as int) =~= g.subrange(
            i + v.len(),
            g.len() as int,
        ));
        assert(g.subrange(i + v.len(), i + v.len()) =~= Seq::<char>::empty());
        assert(join(fs) =~= piece + replace_spec(rest_text, v, r));
        lemma_sub_ref_free(g, a, i);
        assert(!contains(piece, v)) by {
            if contains(piece, v) {
                let m = choose|m: int| occurs_at(piece, v, m);
                assert(g.subrange(a + m, a + m + v.len()) =~= piece.subrange(m, m + v.len()));
                assert(occurs_at(g, v, a + m));
            }
        }
        assert(segs_ok(head)) by {
            assert(seg_ok(head[0]));
            assert(seg_ok(head[1]));
        }
        lemma_segs_append(head, tail);
        assert(fs[0] == head[0]);
        assert(fs.last() == tail.last());
        assert(!free_contains(head, v)) by {
            if free_contains(head, v) {
                let k = choose|k: int| 0 <= k < head.len() && !(#[trigger] head[k]).1 && contains(head[k].0, v);
                assert(k == 0);
            }
        }
        assert forall|w: Seq<char>| free_contains(fs, w) implies contains(g, w) by {
            if free_contains(head, w) {
                let k = choose|k: int| 0 <= k < head.len() && !(#[trigger] head[k]).1 && contains(head[k].0, w);
                assert(k == 0);
                lemma_sub_contains(g, a, i, w);
            }
        }
    } else {
        assert(!occurs_at(g, v, i));
        lemma_frags(g, v, r, a, i + 1);
        assert(rest_text.subrange(0, v.len() as int) =~= g.subrange(i, i + v.len()));
        assert(rest_text.drop_first() =~= g.subrange(i + 1, g.len() as int));
        assert(g.subrange(a, i + 1) =~= g.subrange(a, i).push(g[i]));
        assert(g.subrange(a, i + 1) + replace_spec(g.subrange(i + 1, g.len() as int), v, r)
            =~= g.subrange(a, i) + replace_spec(rest_text, v, r));
    }
}

/// The pieces of `outside_from(s, v, r, i)`: references of `s` kept, free
/// text cut around the references that replace `v`.
pub open spec fn out_segs(s: Seq<char>, v: Seq<char>, r: Seq<char>, i: int) -> Segs
    decreases s.len() - i,
{
    if i < 0 || i >= s.len() {
        Seq::empty()
    } else {
        let j = next_ref(s, i);
        proof {
            lemma_next_ref(s, i);
        }
        if j == i {
            seq![(s.subrange(i, i + 43), true)] + out_segs(s, v, r, i + 43)
        } else {
            frags_at(s.subrange(i, j), v, r, 0, 0) + out_segs(s, v, r, j)
        }
    }
}

/// What is known of the output's pieces from position `i` on.
pub open spec fn out_ok(s: Seq<char>, v: Seq<char>, r: Seq<char>, i: int) -> bool {
    let out = out_segs(s, v, r, i);
    &&& join(out) == outside_from(s, v, r, i)
    &&& segs_ok(out)
    &&& (out.len() > 0 && out[0].1 <==> is_ref_at(s, i))
    &&& !free_contains(out, v)
    &&& forall|w: Seq<char>| free_contains(out, w) ==> free_contains(segs_from(s, i), w)
}

/// What is known of the input's pieces from position `i` on.
pub open spec fn ins_ok(s: Seq<char>, i: int) -> bool {
    let ins = segs_from(s, i);
    &&& join(ins) == s.subrange(i, s.len() as int)
    &&& segs_ok(ins)
    &&& (ins.len() > 0 ==> (ins[0].1 <==> is_ref_at(s, i)))
}

proof fn lemma_join_one(x: (Seq<char>, bool))
    ensures
        join(seq![x]) == x.0,
{
    let h = seq![x];
    assert(h.drop_first() =~= Seq::<(Seq<char>, bool)>::empty());
    assert(join(h) == x.0 + join(h.drop_first()));
    assert(x.0 + Seq::<char>::empty() =~= x.0);
}

proof fn lemma_out_ref_step(s: Seq<char>, v: Seq<char>, r: Seq<char>, i: int)
    requires
        v.len() > 0,
        ref_piece(r),
        0 <= i < s.len(),
        next_ref(s, i) == i,
        i + 43 <= s.len(),
        is_ref_at(s, i),
        out_ok(s, v, r, i + 43),
        ins_ok(s, i + 43),
    ensures
        out_ok(s, v, r, i),
{
    let piece = s.subrange(i, i + 43);
    let head = seq![(piece, true)];
    let tail = out_segs(s, v, r, i + 43);
    let out = out_segs(s, v, r, i);
    let ins = segs_from(s, i);
    assert(out == head + tail);
    assert(ins == head + segs_from(s, i + 43));
    lemma_join_append(head, tail);
    lemma_join_one((piece, true));
    assert(outside_from(s, v, r, i) == piece + outside_from(s, v, r, i + 43));
    assert(ref_piece(piece)) by {
        assert(piece.subrange(0, 9) =~= s.subrange(i, i + 9));
        assert forall|k: int| 9 <= k < 41 implies crate::access::is_lower_hex_digit(
            #[trigger] piece[k],
        ) by {
            assert(piece[k] == s[i + k]);
        }
    }
    assert(segs_ok(head)) by {
        assert(seg_ok(head[0]));
    }
    lemma_segs_append(head, tail);
    lemma_segs_append(head, segs_from(s, i + 43));
    assert(out[0] == head[0]);
    assert(!free_contains(head, v)) by {
        if free_contains(head, v) {
            let k = choose|k: int| 0 <= k < head.len() && !(#[trigger] head[k]).1 && contains(head[k].0, v);
            assert(k == 0);
        }
    }
    assert forall|w: Seq<char>| free_contains(out, w) implies free_contains(ins, w) by {
        if free_contains(head, w) {
            let k = choose|k: int| 0 <= k < head.len() && !(#[trigger] head[k]).1 && contains(head[k].0, w);
            assert(k == 0);
        }
    }
}

proof fn lemma_out_free_step(s: Seq<char>, v: Seq<char>, r: Seq<char>, i: int)
    requires
        v.len() > 0,
        ref_piece(r),
        0 <= i < next_ref(s, i) <= s.len(),
        next_ref(s, i) < s.len() ==> is_ref_at(s, next_ref(s, i)),
        forall|k: int| i <= k < next_ref(s, i) ==> !is_ref_at(s, k),
        out_ok(s, v, r, next_ref(s, i)),
        ins_ok(s, i),
        ins_ok(s, next_ref(s, i)),
    ensures
        out_ok(s, v, r, i),
{
    let j = next_ref(s, i);
    let g = s.subrange(i, j);
    let out = out_segs(s, v, r, i);
    let ins = segs_from(s, i);
    let ghead = seq![(g, false)];
    assert(ins == ghead + segs_from(s, j));
    assert(ins[0] == (g, false));
    assert(ref_free(g)) by {
        assert(seg_ok(ins[0]));
    }
    lemma_frags(g, v, r, 0, 0);
    let head = frags_at(g, v, r, 0, 0);
    let tail = out_segs(s, v, r, j);
    assert(out == head + tail);
    lemma_join_append(head, tail);
    assert(g.subrange(0, 0) =~= Seq::<char>::empty());
    assert(g.subrange(0, g.len() as int) =~= g);
    assert(join(head) =~= replace_spec(g, v, r));
    assert(outside_from(s, v, r, i) == replace_spec(g, v, r) + outside_from(s, v, r, j));
    lemma_segs_append(head, tail);
    assert(out[0] == head[0]);
    assert(!is_ref_at(s, i));
    assert(segs_ok(ghead)) by {
        assert(seg_ok(ghead[0]));
    }
    lemma_segs_append(ghead, segs_from(s, j));
    assert forall|w: Seq<char>| free_contains(out, w) implies free_contains(ins, w) by {
        if free_contains(head, w) {
            assert(contains(g, w));
            assert(ghead[0] == (g, false));
            assert(free_contains(ghead, w));
        }
    }
}

proof fn lemma_out_segs(s: Seq<char>, v: Seq<char>, r: Seq<char>, i: int)
    requires
        v.len() > 0,
        ref_piece(r),
        0 <= i <= s.len(),
    ensures
        out_ok(s, v, r, i),
    decreases s.len() - i,
{
    lemma_segs_from(s, i);
    if i < s.len() {
        lemma_next_ref(s, i);
        let j = next_ref(s, i);
        if j == i {
            lemma_out_segs(s, v, r, i + 43);
            lemma_segs_from(s, i + 43);
            lemma_out_ref_step(s, v, r, i);
        } else {
            lemma_out_segs(s, v, r, j);
            lemma_segs_from(s, j);
            lemma_out_free_step(s, v, r, i);
        }
    } else {
        assert(out_segs(s, v, r, i) =~= Seq::<(Seq<char>, bool)>::empty());
        assert(segs_from(s, i) =~= Seq::<(Seq<char>, bool)>::empty());
        assert(!is_ref_at(s, i));
    }
}

/// The reference of an issued id is a valid reference piece.
pub proof fn lemma_reference_piece(id: Seq<char>)
    requires
        crate::access::issued_id(id),
    ensures
        ref_piece(reference(id)),
{
    let r = reference(id);
    assert(r.subrange(0, 9) =~= ref_open());
    assert forall|k: int| 9 <= k < 41 implies crate::access::is_lower_hex_digit(#[trigger] r[k]) by {
        assert(r[k] == id[k - 9]);
    }
}

/// Rewriting `v` by a reference outside references leaves `v` nowhere
/// outside references, and a value that was nowhere outside references
/// stays so.
pub proof fn lemma_replace_outside_hides(s: Seq<char>, v: Seq<char>, r: Seq<char>, w: Seq<char>)
    requires
        v.len() > 0,
        ref_piece(r),
    ensures
        !exposed(crate::references::replace_outside(s, v, r), v),
        w.len() > 0 && !exposed(s, w) ==> !exposed(crate::references::replace_outside(s, v, r), w),
{
    lemma_segs_from(s, 0);
    lemma_out_segs(s, v, r, 0);
    let out = out_segs(s, v, r, 0);
    let ins = segs_from(s, 0);
    assert(s.subrange(0, s.len() as int) =~= s);
    if exposed(join(out), v) {
        lemma_exposed_in_free(out, v);
    }
    if w.len() > 0 && !exposed(s, w) && exposed(join(out), w) {
        lemma_exposed_in_free(out, w);
        lemma_free_exposed(ins, w);
    }
}

} // verus!
