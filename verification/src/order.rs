//! The order of texts (`Ord` for `str`: UTF-8 byte order, which is the
//! order of code points) and the selection of the least distinct texts of
//! a list, as sorting, removing repeats and truncating gives them.
use crate::model::texts;
use vstd::prelude::*;

verus! {

/// `a` sorts before `b`.
pub open spec fn text_lt(a: Seq<char>, b: Seq<char>) -> bool
    decreases a.len(),
{
    if a.len() == 0 {
        b.len() > 0
    } else if b.len() == 0 {
        false
    } else if a[0] != b[0] {
        a[0] < b[0]
    } else {
        text_lt(a.drop_first(), b.drop_first())
    }
}

pub proof fn lemma_lt_irreflexive(a: Seq<char>)
    ensures
        !text_lt(a, a),
    decreases a.len(),
{
    if a.len() > 0 {
        lemma_lt_irreflexive(a.drop_first());
    }
}

pub proof fn lemma_lt_transitive(a: Seq<char>, b: Seq<char>, c: Seq<char>)
    requires
        text_lt(a, b),
        text_lt(b, c),
    ensures
        text_lt(a, c),
    decreases a.len(),
{
    if a.len() > 0 && b.len() > 0 && c.len() > 0 {
        if a[0] == b[0] && b[0] == c[0] {
            lemma_lt_transitive(a.drop_first(), b.drop_first(), c.drop_first());
        }
    }
}

pub proof fn lemma_lt_total(a: Seq<char>, b: Seq<char>)
    ensures
        a == b || text_lt(a, b) || text_lt(b, a),
        !(text_lt(a, b) && text_lt(b, a)),
    decreases a.len(),
{
    if a.len() > 0 && b.len() > 0 {
        lemma_lt_total(a.drop_first(), b.drop_first());
        if a[0] == b[0] && a.drop_first() == b.drop_first() {
            assert(a =~= seq![a[0]] + a.drop_first());
            assert(b =~= seq![b[0]] + b.drop_first());
        }
    } else if a.len() == 0 && b.len() == 0 {
        assert(a =~= b);
    }
}

/// The order facts, for all texts.
pub proof fn lemma_text_order()
    ensures
        forall|a: Seq<char>| !#[trigger] text_lt(a, a),
        forall|a: Seq<char>, b: Seq<char>, c: Seq<char>|
            #[trigger] text_lt(a, b) && #[trigger] text_lt(b, c) ==> text_lt(a, c),
        forall|a: Seq<char>, b: Seq<char>|
            a == b || #[trigger] text_lt(a, b) || #[trigger] text_lt(b, a),
        forall|a: Seq<char>, b: Seq<char>| !(#[trigger] text_lt(a, b) && #[trigger] text_lt(b, a)),
{
    assert forall|a: Seq<char>| !#[trigger] text_lt(a, a) by {
        lemma_lt_irreflexive(a);
    }
    assert forall|a: Seq<char>, b: Seq<char>, c: Seq<char>|
        #[trigger] text_lt(a, b) && #[trigger] text_lt(b, c) implies text_lt(a, c) by {
        lemma_lt_transitive(a, b, c);
    }
    assert forall|a: Seq<char>, b: Seq<char>|
        a == b || #[trigger] text_lt(a, b) || #[trigger] text_lt(b, a) by {
        lemma_lt_total(a, b);
    }
    assert forall|a: Seq<char>, b: Seq<char>| !(#[trigger] text_lt(a, b) && #[trigger] text_lt(b, a)) by {
        lemma_lt_total(a, b);
    }
}

/// Whether `a` sorts before `b`.
pub fn text_less(a: &str, b: &str) -> (r: bool)
    ensures
        r == text_lt(a@, b@),
{
    let x = crate::text::chars_of(a);
    let y = crate::text::chars_of(b);
    let mut i: usize = 0;
    proof {
        assert(x@.subrange(0, x@.len() as int) =~= x@);
        assert(y@.subrange(0, y@.len() as int) =~= y@);
    }
    while i < x.len() && i < y.len() && x[i] == y[i]
        invariant
            i <= x.len(),
            i <= y.len(),
            x@ == a@,
            y@ == b@,
            text_lt(x@.subrange(i as int, x@.len() as int), y@.subrange(i as int, y@.len() as int))
                == text_lt(a@, b@),
        decreases x.len() - i,
    {
        proof {
            let s = x@.subrange(i as int, x@.len() as int);
            let t = y@.subrange(i as int, y@.len() as int);
            assert(s.drop_first() =~= x@.subrange(i + 1, x@.len() as int));
            assert(t.drop_first() =~= y@.subrange(i + 1, y@.len() as int));
        }
        i = i + 1;
    }
    proof {
        let s = x@.subrange(i as int, x@.len() as int);
        let t = y@.subrange(i as int, y@.len() as int);
        if i < x.len() && i < y.len() {
            assert(s[0] == x@[i as int] && t[0] == y@[i as int]);
        }
    }
    if i == x.len() {
        i < y.len()
    } else if i == y.len() {
        false
    } else {
        x[i] < y[i]
    }
}

/// `r` holds, in ascending order and once each, the least of the texts of
/// `items`, as many as there are up to `k`: what sorting `items`,
/// removing repeats and keeping the first `k` gives.
pub open spec fn least_texts_of(r: Seq<Seq<char>>, items: Seq<Seq<char>>, k: int) -> bool {
    &&& r.len() <= k
    &&& forall|i: int, j: int| 0 <= i < j < r.len() ==> text_lt(r[i], r[j])
    &&& forall|i: int| 0 <= i < r.len() ==> items.contains(#[trigger] r[i])
    &&& forall|x: Seq<char>|
        items.contains(x) && !r.contains(x) ==> r.len() == k && forall|i: int|
            0 <= i < r.len() ==> text_lt(#[trigger] r[i], x)
}

/// `x` comes after `after`, or `after` is `None`.
pub open spec fn after_bound(after: Option<String>, x: Seq<char>) -> bool {
    match after {
        Some(a) => text_lt(a@, x),
        None => true,
    }
}

/// The least text of `items` after `after` (or the least of all when
/// `after` is `None`), by index.
fn next_after(items: &Vec<String>, after: &Option<String>) -> (r: Option<usize>)
    ensures
        match r {
            Some(m) => {
                &&& m < items@.len()
                &&& after_bound(*after, items@[m as int]@)
                &&& forall|j: int|
                    0 <= j < items@.len() && after_bound(*after, #[trigger] items@[j]@)
                        ==> items@[j]@ == items@[m as int]@ || text_lt(items@[m as int]@, items@[j]@)
            },
            None => forall|j: int| 0 <= j < items@.len() ==> !after_bound(*after, #[trigger] items@[j]@),
        },
{
    proof {
        lemma_text_order();
    }
    let mut best: Option<usize> = None;
    let mut j: usize = 0;
    while j < items.len()
        invariant
            j <= items.len(),
            forall|a: Seq<char>| !#[trigger] text_lt(a, a),
            forall|a: Seq<char>, b: Seq<char>, c: Seq<char>|
                #[trigger] text_lt(a, b) && #[trigger] text_lt(b, c) ==> text_lt(a, c),
            forall|a: Seq<char>, b: Seq<char>|
                a == b || #[trigger] text_lt(a, b) || #[trigger] text_lt(b, a),
            match best {
                Some(m) => {
                    &&& m < j
                    &&& after_bound(*after, items@[m as int]@)
                    &&& forall|q: int|
                        0 <= q < j && after_bound(*after, #[trigger] items@[q]@)
                            ==> items@[q]@ == items@[m as int]@ || text_lt(items@[m as int]@, items@[q]@)
                },
                None => forall|q: int| 0 <= q < j ==> !after_bound(*after, #[trigger] items@[q]@),
            },
        decreases items.len() - j,
    {
        let eligible = match after {
            Some(a) => text_less(a.as_str(), items[j].as_str()),
            None => true,
        };
        if eligible {
            match best {
                Some(m) => {
                    if text_less(items[j].as_str(), items[m].as_str()) {
                        best = Some(j);
                    }
                },
                None => {
                    best = Some(j);
                },
            }
        }
        j = j + 1;
    }
    best
}

/// The least `k` distinct texts of `items`, in ascending order.
pub fn least_texts(items: &Vec<String>, k: usize) -> (r: Vec<String>)
    ensures
        least_texts_of(texts(r@), texts(items@), k as int),
{
    proof {
        lemma_text_order();
    }
    let ghost it = texts(items@);
    let mut out: Vec<String> = Vec::new();
    let mut last: Option<String> = None;
    let mut done = false;
    while !done && out.len() < k
        invariant
            it == texts(items@),
            out@.len() <= k,
            forall|a: Seq<char>| !#[trigger] text_lt(a, a),
            forall|a: Seq<char>, b: Seq<char>, c: Seq<char>|
                #[trigger] text_lt(a, b) && #[trigger] text_lt(b, c) ==> text_lt(a, c),
            forall|a: Seq<char>, b: Seq<char>|
                a == b || #[trigger] text_lt(a, b) || #[trigger] text_lt(b, a),
            forall|i: int, j: int| 0 <= i < j < out@.len() ==> text_lt(out@[i]@, out@[j]@),
            forall|i: int| 0 <= i < out@.len() ==> it.contains(#[trigger] out@[i]@),
            out@.len() == 0 <==> last is None,
            last matches Some(l) ==> l@ == out@[out@.len() - 1]@,
            forall|x: Seq<char>|
                it.contains(x) && !texts(out@).contains(x) ==> forall|i: int|
                    0 <= i < out@.len() ==> text_lt(#[trigger] out@[i]@, x),
            done ==> forall|x: Seq<char>| it.contains(x) ==> texts(out@).contains(x),
        decreases k - out@.len(), if done { 0int } else { 1int },
    {
        match next_after(items, &last) {
            None => {
                proof {
                    assert forall|x: Seq<char>| it.contains(x) implies texts(out@).contains(x) by {
                        let j = choose|j: int| 0 <= j < it.len() && it[j] == x;
                        assert(it[j] == items@[j]@);
                        if !texts(out@).contains(x) {
                            if out@.len() > 0 {
                                assert(text_lt(out@[out@.len() - 1]@, x));
                            }
                        }
                    }
                }
                done = true;
            },
            Some(m) => {
                let s = items[m].clone();
                let ghost before = out@;
                proof {
                    assert(it[m as int] == items@[m as int]@);
                }
                out.push(s.clone());
                last = Some(s);
                proof {
                    let n = before.len();
                    assert forall|i: int, j: int| 0 <= i < j < out@.len() implies text_lt(
                        out@[i]@,
                        out@[j]@,
                    ) by {
                        if j == n && i < n {
                            if i < n - 1 {
                                assert(text_lt(before[i]@, before[n - 1]@));
                            }
                        }
                    }
                    assert forall|x: Seq<char>|
                        it.contains(x) && !texts(out@).contains(x) implies forall|i: int|
                        0 <= i < out@.len() ==> text_lt(#[trigger] out@[i]@, x) by {
                        assert(!texts(before).contains(x)) by {
                            if texts(before).contains(x) {
                                let q = choose|q: int| 0 <= q < texts(before).len() && texts(before)[q] == x;
                                assert(texts(out@)[q] == x);
                            }
                        }
                        let j = choose|j: int| 0 <= j < it.len() && it[j] == x;
                        assert(it[j] == items@[j]@);
                        assert(x != items@[m as int]@) by {
                            assert(texts(out@)[n as int] == items@[m as int]@);
                        }
                        if n > 0 {
                            assert(text_lt(before[n - 1]@, x));
                        }
                    }
                    assert forall|i: int| 0 <= i < out@.len() implies it.contains(#[trigger] out@[i]@) by {
                        if i == n {
                            assert(it[m as int] == out@[i]@);
                        }
                    }
                }
            },
        }
    }
    proof {
        assert forall|x: Seq<char>| it.contains(x) && !texts(out@).contains(x) implies out@.len() == k
            && forall|i: int| 0 <= i < texts(out@).len() ==> text_lt(#[trigger] texts(out@)[i], x) by {
            assert forall|i: int| 0 <= i < texts(out@).len() implies text_lt(#[trigger] texts(out@)[i], x) by {
                assert(texts(out@)[i] == out@[i]@);
            }
        }
        assert forall|i: int, j: int| 0 <= i < j < texts(out@).len() implies text_lt(texts(out@)[i], texts(out@)[j]) by {
            assert(texts(out@)[i] == out@[i]@);
            assert(texts(out@)[j] == out@[j]@);
        }
        assert forall|i: int| 0 <= i < texts(out@).len() implies it.contains(#[trigger] texts(out@)[i]) by {
            assert(texts(out@)[i] == out@[i]@);
        }
    }
    out
}

} // verus!
