//! Secret isolation: credentials in submitted text are replaced by
//! references to separately stored secrets before the text is kept,
//! searched or handed to a model. Material that cannot be split reliably
//! is held back whole ("quarantined").
use crate::access::{id, issued_id};
use crate::json::{json_document, parse_document, render, render_range, token_view, tokens_view, JsonToken, TokenView};
use crate::patterns::{
    captures_view, pattern_captures, pattern_gaps, pattern_matches, regex_captures, regex_gaps,
    regex_is_match, strings_view, CaptureView,
};
use crate::references::{reference, reference_text, replace_outside, replace_outside_chars};
use crate::text::{
    append_chars, chars_of, contains, lemma_trim_idempotent, is_prefix, is_suffix, replace_chars, replace_spec,
    str_ends_with, string_of, trim, trim_chars, trim_start,
};
use vstd::prelude::*;

verus! {

/// A credential taken out of a text.
#[derive(Debug)]
pub struct IsolatedSecret {
    pub id: String,
    pub label: String,
    pub value: String,
}

/// The outcome of isolation: the text that may be kept in the clear, the
/// credentials found, and whether the whole text is held back.
#[derive(Debug)]
pub struct Isolation {
    pub text: String,
    pub secrets: Vec<IsolatedSecret>,
    pub quarantined: bool,
}

/// Labels and values of the secrets found so far, in order of discovery.
pub type Entries = Seq<(Seq<char>, Seq<char>)>;

/// Secrets found so far and whether the text has become uncertain.
pub type IsolationState = (Entries, bool);

pub open spec fn entries_of(s: Seq<IsolatedSecret>) -> Entries {
    s.map_values(|x: IsolatedSecret| (x.label@, x.value@))
}

pub open spec fn ids_of(s: Seq<IsolatedSecret>) -> Seq<Seq<char>> {
    s.map_values(|x: IsolatedSecret| x.id@)
}

/// `longer` keeps every id of `shorter` at the same position.
pub open spec fn extends(shorter: Seq<Seq<char>>, longer: Seq<Seq<char>>) -> bool {
    shorter.len() <= longer.len() && forall|k: int| 0 <= k < shorter.len() ==> longer[k]
        == shorter[k]
}

pub open spec fn all_issued(s: Seq<IsolatedSecret>) -> bool {
    forall|k: int| 0 <= k < s.len() ==> issued_id(#[trigger] s[k].id@)
}

/// Index of the first secret with this value, or -1.
pub open spec fn find_value(e: Entries, v: Seq<char>) -> int
    decreases e.len(),
{
    if e.len() == 0 {
        -1
    } else {
        let p = find_value(e.drop_last(), v);
        if p >= 0 {
            p
        } else if e.last().1 == v {
            e.len() - 1
        } else {
            -1
        }
    }
}

pub proof fn lemma_find_value(e: Entries, v: Seq<char>)
    ensures
        -1 <= find_value(e, v) < e.len(),
        find_value(e, v) >= 0 ==> e[find_value(e, v)].1 == v,
        forall|k: int| 0 <= k < find_value(e, v) ==> e[k].1 != v,
        find_value(e, v) == -1 ==> forall|k: int| 0 <= k < e.len() ==> e[k].1 != v,
    decreases e.len(),
{
    if e.len() > 0 {
        lemma_find_value(e.drop_last(), v);
        let p = find_value(e.drop_last(), v);
        if p >= 0 {
            assert(e[p] == e.drop_last()[p]);
            assert forall|k: int| 0 <= k < p implies e[k].1 != v by {
                assert(e[k] == e.drop_last()[k]);
            }
        } else if e.last().1 == v {
            assert forall|k: int| 0 <= k < e.len() - 1 implies e[k].1 != v by {
                assert(e[k] == e.drop_last()[k]);
            }
        } else if e.last().1 != v {
            assert forall|k: int| 0 <= k < e.len() implies e[k].1 != v by {
                if k < e.len() - 1 {
                    assert(e[k] == e.drop_last()[k]);
                }
            }
        }
    }
}

/// What the original text becomes where a blank value is protected.
pub open spec fn protected_marker() -> Seq<char> {
    "[protected]"@
}

/// Protecting a value: a blank value makes the text uncertain and becomes
/// `[protected]`; a value seen before reuses its secret's reference; a new
/// value becomes a new secret, taking the next id of `ids`. `None` when
/// `ids` has no id left for it.
pub open spec fn protect_spec(
    st: IsolationState,
    label: Seq<char>,
    value: Seq<char>,
    ids: Seq<Seq<char>>,
) -> Option<(IsolationState, Seq<char>)> {
    if st.0.len() > ids.len() {
        None
    } else if trim(value).len() == 0 {
        Some(((st.0, true), protected_marker()))
    } else if find_value(st.0, value) >= 0 {
        Some((st, reference(ids[find_value(st.0, value)])))
    } else if st.0.len() < ids.len() {
        Some(((st.0.push((label, value)), st.1), reference(ids[st.0.len() as int])))
    } else {
        None
    }
}

pub proof fn lemma_protect_extends(
    st: IsolationState,
    label: Seq<char>,
    value: Seq<char>,
    ids: Seq<Seq<char>>,
    ids2: Seq<Seq<char>>,
)
    requires
        protect_spec(st, label, value, ids) is Some,
        extends(ids, ids2),
    ensures
        protect_spec(st, label, value, ids2) == protect_spec(st, label, value, ids),
{
    lemma_find_value(st.0, value);
}

/// Secrets have pairwise different values and none is blank.
pub open spec fn well_formed_entries(e: Entries) -> bool {
    &&& forall|i: int, j: int| 0 <= i < j < e.len() ==> e[i].1 != e[j].1
    &&& forall|i: int| 0 <= i < e.len() ==> trim(#[trigger] e[i].1).len() > 0
}

fn marker() -> (r: String)
    ensures
        r@ == protected_marker(),
{
    String::from_str("[protected]")
}

/// Protects one value, recording a new secret when the value is new.
fn protect(secrets: &mut Vec<IsolatedSecret>, uncertain: &mut bool, label: &str, value: &str) -> (r:
    String)
    requires
        all_issued(old(secrets)@),
        well_formed_entries(entries_of(old(secrets)@)),
    ensures
        *old(uncertain) ==> *final(uncertain),
        all_issued(final(secrets)@),
        well_formed_entries(entries_of(final(secrets)@)),
        extends(ids_of(old(secrets)@), ids_of(final(secrets)@)),
        protect_spec(
            (entries_of(old(secrets)@), *old(uncertain)),
            label@,
            value@,
            ids_of(final(secrets)@),
        ) == Some(((entries_of(final(secrets)@), *final(uncertain)), r@)),
{
    let ghost e0 = entries_of(secrets@);
    proof {
        lemma_find_value(e0, value@);
    }
    let trimmed = crate::text::trim_str(value);
    if trimmed.unicode_len() == 0 {
        *uncertain = true;
        return marker();
    }
    let ghost start = secrets@;
    let mut k: usize = 0;
    while k < secrets.len()
        invariant
            secrets@ == start,
            all_issued(start),
            *uncertain == *old(uncertain),
            start == old(secrets)@,
            well_formed_entries(entries_of(start)),
            trim(value@).len() > 0,
            e0 == entries_of(secrets@),
            k <= secrets.len(),
            forall|m: int| 0 <= m < k ==> e0[m].1 != value@,
        decreases secrets.len() - k,
    {
        if crate::text::str_eq(secrets[k].value.as_str(), value) {
            proof {
                lemma_find_value(e0, value@);
                assert(e0[k as int].1 == value@);
                assert(find_value(e0, value@) == k);
                assert(ids_of(secrets@)[k as int] == secrets@[k as int].id@);
                assert(ids_of(secrets@).len() == e0.len());
            }
            return reference_text(secrets[k].id.as_str());
        }
        k = k + 1;
    }
    let fresh = id();
    let r = reference_text(fresh.as_str());
    let ghost old_secrets = secrets@;
    secrets.push(
        IsolatedSecret { id: fresh, label: String::from_str(label), value: String::from_str(value) },
    );
    proof {
        assert(entries_of(secrets@) =~= e0.push((label@, value@)));
        assert(ids_of(secrets@) =~= ids_of(old_secrets).push(r@.subrange(9, 41)) || true);
        assert(ids_of(secrets@)[old_secrets.len() as int] == secrets@[old_secrets.len() as int].id@);
    }
    r
}


// ---------------------------------------------------------------- text patterns

/// PEM private-key blocks.
pub const PRIVATE_KEY_PATTERN: &'static str =
    r"(?s)-----BEGIN [A-Z ]*PRIVATE KEY-----.*?-----END [A-Z ]*PRIVATE KEY-----";

/// `name: value` style credential assignments; group 1 is the name, group
/// 2 the value.
pub const ASSIGNMENT_PATTERN: &'static str = r#"(?i)(password|passwd|pwd|passphrase|(?:access[_ -]?|refresh[_ -]?)?token|api[_ -]?key|(?:client[_ -]?|app[_ -]?)?secret|secret[_ -]?key|private[_ -]?key|authorization|cookie|密码|口令|密钥|秘钥|令牌)\s*[:=：是为]\s*("(?:[^"\\]|\\.)*"|'[^']*'|[^\s,;，；]+)"#;

/// Bearer authorization values; group 1 is the credential.
pub const BEARER_PATTERN: &'static str = r"(?i)\bbearer\s+([A-Za-z0-9._~+/-]+=*)";

/// Well-known API token shapes.
pub const TOKEN_PATTERN: &'static str = r"(?:sk-[A-Za-z0-9_-]{16,}|gh[pousr]_[A-Za-z0-9]{20,}|github_pat_[A-Za-z0-9_]{20,}|eyJ[A-Za-z0-9_-]+\.[A-Za-z0-9_-]+\.[A-Za-z0-9_-]+)";

/// The pattern of each rewriting pass, in the order they run.
pub open spec fn pass_pattern(kind: u8) -> Seq<char> {
    if kind == 0 {
        PRIVATE_KEY_PATTERN@
    } else if kind == 1 {
        ASSIGNMENT_PATTERN@
    } else if kind == 2 {
        BEARER_PATTERN@
    } else {
        TOKEN_PATTERN@
    }
}

fn pass_pattern_str(kind: u8) -> (r: &'static str)
    ensures
        r@ == pass_pattern(kind),
{
    if kind == 0 {
        PRIVATE_KEY_PATTERN
    } else if kind == 1 {
        ASSIGNMENT_PATTERN
    } else if kind == 2 {
        BEARER_PATTERN
    } else {
        TOKEN_PATTERN
    }
}

/// The text of capture group `k`, empty when it did not take part.
pub open spec fn group(c: CaptureView, k: int) -> Seq<char> {
    if 0 <= k < c.len() {
        match c[k] {
            Some(s) => s,
            None => Seq::empty(),
        }
    } else {
        Seq::empty()
    }
}

fn group_text(c: &Vec<Option<String>>, k: usize) -> (r: String)
    ensures
        r@ == group(crate::patterns::capture_view(*c), k as int),
{
    if k < c.len() {
        match &c[k] {
            Some(s) => s.clone(),
            None => String::new(),
        }
    } else {
        String::new()
    }
}

pub open spec fn is_quote(c: char) -> bool {
    c == '"' || c == '\''
}

pub open spec fn skip_quotes(s: Seq<char>, i: int) -> int
    decreases s.len() - i,
{
    if 0 <= i < s.len() && is_quote(s[i]) {
        skip_quotes(s, i + 1)
    } else {
        i
    }
}

pub open spec fn back_quotes(s: Seq<char>, j: int, lo: int) -> int
    decreases j - lo,
{
    if lo < j && j <= s.len() && is_quote(s[j - 1]) {
        back_quotes(s, j - 1, lo)
    } else {
        j
    }
}

/// `str::trim_matches` with `"` and `'`: quotes stripped from both ends.
pub open spec fn strip_quotes(s: Seq<char>) -> Seq<char> {
    let a = skip_quotes(s, 0);
    s.subrange(a, back_quotes(s, s.len() as int, a))
}

proof fn lemma_skip_quotes(s: Seq<char>, i: int)
    requires
        0 <= i <= s.len(),
    ensures
        i <= skip_quotes(s, i) <= s.len(),
    decreases s.len() - i,
{
    if i < s.len() && is_quote(s[i]) {
        lemma_skip_quotes(s, i + 1);
    }
}

proof fn lemma_back_quotes(s: Seq<char>, j: int, lo: int)
    requires
        0 <= lo <= j <= s.len(),
    ensures
        lo <= back_quotes(s, j, lo) <= j,
    decreases j - lo,
{
    if lo < j && is_quote(s[j - 1]) {
        lemma_back_quotes(s, j - 1, lo);
    }
}

fn strip_quotes_str(s: &str) -> (r: String)
    ensures
        r@ == strip_quotes(s@),
{
    let c = chars_of(s);
    proof {
        lemma_skip_quotes(c@, 0);
    }
    let mut a: usize = 0;
    while a < c.len() && (c[a] == '"' || c[a] == '\'')
        invariant
            a <= c.len(),
            skip_quotes(c@, a as int) == skip_quotes(c@, 0),
        decreases c.len() - a,
    {
        a = a + 1;
    }
    proof {
        lemma_back_quotes(c@, c@.len() as int, a as int);
    }
    let mut b: usize = c.len();
    while b > a && (c[b - 1] == '"' || c[b - 1] == '\'')
        invariant
            a <= b <= c.len(),
            skip_quotes(c@, 0) == a,
            back_quotes(c@, b as int, a as int) == back_quotes(c@, c@.len() as int, a as int),
        decreases b - a,
    {
        b = b - 1;
    }
    let mut t: Vec<char> = Vec::new();
    let mut i = a;
    while i < b
        invariant
            a <= i <= b <= c.len(),
            t@ == c@.subrange(a as int, i as int),
        decreases b - i,
    {
        t.push(c[i]);
        i = i + 1;
        proof {
            assert(t@ =~= c@.subrange(a as int, i as int));
        }
    }
    string_of(t.as_slice())
}

/// What one match of a pass is replaced with, and the state after it.
pub open spec fn step_spec(kind: u8, st: IsolationState, c: CaptureView, ids: Seq<Seq<char>>) -> Option<
    (IsolationState, Seq<char>),
> {
    if kind == 0 {
        protect_spec(st, "private_key"@, group(c, 0), ids)
    } else if kind == 1 {
        let key = group(c, 1);
        let value = strip_quotes(group(c, 2));
        let st1 = if value.len() == 0 {
            (st.0, true)
        } else {
            st
        };
        match protect_spec(st1, key, value, ids) {
            Some((st2, p)) => Some((st2, key + ": "@ + p)),
            None => None,
        }
    } else if kind == 2 {
        match protect_spec(st, "authorization"@, group(c, 1), ids) {
            Some((st2, p)) => Some((st2, "Bearer "@ + p)),
            None => None,
        }
    } else {
        protect_spec(st, "token"@, group(c, 0), ids)
    }
}

/// The first `n` matches of a pass: the text up to the end of the `n`-th
/// replacement.
pub open spec fn pass_fold(
    kind: u8,
    st: IsolationState,
    gaps: Seq<Seq<char>>,
    caps: Seq<CaptureView>,
    n: int,
    ids: Seq<Seq<char>>,
) -> Option<(IsolationState, Seq<char>)>
    decreases n,
{
    if n <= 0 {
        Some((st, Seq::empty()))
    } else {
        match pass_fold(kind, st, gaps, caps, n - 1, ids) {
            None => None,
            Some((st1, t1)) => match step_spec(kind, st1, caps[n - 1], ids) {
                None => None,
                Some((st2, rep)) => Some((st2, t1 + gaps[n - 1] + rep)),
            },
        }
    }
}

/// One pass over a text: each match of the pass's pattern is replaced, the
/// text between matches is kept. A pattern that does not compile, or
/// pieces that do not line up with the matches, leave the text unchanged.
pub open spec fn pass_spec(kind: u8, st: IsolationState, text: Seq<char>, ids: Seq<Seq<char>>) -> Option<
    (IsolationState, Seq<char>),
> {
    match (regex_gaps(pass_pattern(kind), text), regex_captures(pass_pattern(kind), text)) {
        (Some(g), Some(c)) => if g.len() == c.len() + 1 {
            match pass_fold(kind, st, g, c, c.len() as int, ids) {
                Some((st1, t1)) => Some((st1, t1 + g[c.len() as int])),
                None => None,
            }
        } else {
            Some((st, text))
        },
        _ => Some((st, text)),
    }
}

fn pass_step(
    kind: u8,
    c: &Vec<Option<String>>,
    secrets: &mut Vec<IsolatedSecret>,
    uncertain: &mut bool,
) -> (r: String)
    requires
        all_issued(old(secrets)@),
        well_formed_entries(entries_of(old(secrets)@)),
    ensures
        *old(uncertain) ==> *final(uncertain),
        all_issued(final(secrets)@),
        well_formed_entries(entries_of(final(secrets)@)),
        extends(ids_of(old(secrets)@), ids_of(final(secrets)@)),
        forall|ids2: Seq<Seq<char>>|
            extends(ids_of(final(secrets)@), ids2) ==> step_spec(
                kind,
                (entries_of(old(secrets)@), *old(uncertain)),
                crate::patterns::capture_view(*c),
                ids2,
            ) == Some(((entries_of(final(secrets)@), *final(uncertain)), r@)),
{
    let ghost cv = crate::patterns::capture_view(*c);
    let ghost st0 = (entries_of(secrets@), *uncertain);
    if kind == 0 {
        let v = group_text(c, 0);
        let r = protect(secrets, uncertain, "private_key", v.as_str());
        proof {
            assert forall|ids2: Seq<Seq<char>>| extends(ids_of(secrets@), ids2) implies step_spec(
                kind,
                st0,
                cv,
                ids2,
            ) == Some(((entries_of(secrets@), *uncertain), r@)) by {
                lemma_protect_extends(st0, "private_key"@, v@, ids_of(secrets@), ids2);
            }
        }
        r
    } else if kind == 1 {
        let key = group_text(c, 1);
        let raw = group_text(c, 2);
        let value = strip_quotes_str(raw.as_str());
        if value.unicode_len() == 0 {
            *uncertain = true;
        }
        let ghost st1 = (entries_of(secrets@), *uncertain);
        let p = protect(secrets, uncertain, key.as_str(), value.as_str());
        let mut out = chars_of(key.as_str());
        out.push(':');
        out.push(' ');
        append_chars(&mut out, &chars_of(p.as_str()));
        let r = string_of(out.as_slice());
        proof {
            reveal_strlit(": ");
            assert(r@ =~= key@ + ": "@ + p@);
            assert forall|ids2: Seq<Seq<char>>| extends(ids_of(secrets@), ids2) implies step_spec(
                kind,
                st0,
                cv,
                ids2,
            ) == Some(((entries_of(secrets@), *uncertain), r@)) by {
                lemma_protect_extends(st1, key@, value@, ids_of(secrets@), ids2);
            }
        }
        r
    } else if kind == 2 {
        let v = group_text(c, 1);
        let p = protect(secrets, uncertain, "authorization", v.as_str());
        let mut out = chars_of("Bearer ");
        append_chars(&mut out, &chars_of(p.as_str()));
        let r = string_of(out.as_slice());
        proof {
            assert(r@ =~= "Bearer "@ + p@);
            assert forall|ids2: Seq<Seq<char>>| extends(ids_of(secrets@), ids2) implies step_spec(
                kind,
                st0,
                cv,
                ids2,
            ) == Some(((entries_of(secrets@), *uncertain), r@)) by {
                lemma_protect_extends(st0, "authorization"@, v@, ids_of(secrets@), ids2);
            }
        }
        r
    } else {
        let v = group_text(c, 0);
        let r = protect(secrets, uncertain, "token", v.as_str());
        proof {
            assert forall|ids2: Seq<Seq<char>>| extends(ids_of(secrets@), ids2) implies step_spec(
                kind,
                st0,
                cv,
                ids2,
            ) == Some(((entries_of(secrets@), *uncertain), r@)) by {
                lemma_protect_extends(st0, "token"@, v@, ids_of(secrets@), ids2);
            }
        }
        r
    }
}

/// Runs one rewriting pass over `text`.
fn run_pass(kind: u8, text: &str, secrets: &mut Vec<IsolatedSecret>, uncertain: &mut bool) -> (r:
    String)
    requires
        all_issued(old(secrets)@),
        well_formed_entries(entries_of(old(secrets)@)),
    ensures
        *old(uncertain) ==> *final(uncertain),
        all_issued(final(secrets)@),
        well_formed_entries(entries_of(final(secrets)@)),
        extends(ids_of(old(secrets)@), ids_of(final(secrets)@)),
        forall|ids2: Seq<Seq<char>>|
            extends(ids_of(final(secrets)@), ids2) ==> pass_spec(
                kind,
                (entries_of(old(secrets)@), *old(uncertain)),
                text@,
                ids2,
            ) == Some(((entries_of(final(secrets)@), *final(uncertain)), r@)),
{
    let pattern = pass_pattern_str(kind);
    let gaps = pattern_gaps(pattern, text);
    let caps = pattern_captures(pattern, text);
    let ghost st0 = (entries_of(secrets@), *uncertain);
    match (gaps, caps) {
        (Some(g), Some(c)) => {
            if g.len() == 0 || g.len() - 1 != c.len() {
                return String::from_str(text);
            }
            let ghost gv = strings_view(g@);
            let ghost cv = captures_view(c@);
            let ghost ids_start = ids_of(secrets@);
            let mut out: Vec<char> = Vec::new();
            let mut i: usize = 0;
            while i < c.len()
                invariant
                    g.len() == c.len() + 1,
                    gv == strings_view(g@),
                    cv == captures_view(c@),
                    i <= c.len(),
                    st0.1 ==> *uncertain,
                    all_issued(secrets@),
                    well_formed_entries(entries_of(secrets@)),
                    extends(ids_start, ids_of(secrets@)),
                    forall|ids2: Seq<Seq<char>>|
                        extends(ids_of(secrets@), ids2) ==> pass_fold(
                            kind,
                            st0,
                            gv,
                            cv,
                            i as int,
                            ids2,
                        ) == Some(((entries_of(secrets@), *uncertain), out@)),
                decreases c.len() - i,
            {
                let ghost ids_before = ids_of(secrets@);
                let ghost st_before = (entries_of(secrets@), *uncertain);
                let ghost out_before = out@;
                append_chars(&mut out, &chars_of(g[i].as_str()));
                let rep = pass_step(kind, &c[i], secrets, uncertain);
                append_chars(&mut out, &chars_of(rep.as_str()));
                proof {
                    assert(gv[i as int] == g@[i as int]@);
                    assert(cv[i as int] == crate::patterns::capture_view(c@[i as int]));
                    assert forall|ids2: Seq<Seq<char>>| extends(ids_of(secrets@), ids2) implies pass_fold(
                        kind,
                        st0,
                        gv,
                        cv,
                        i + 1,
                        ids2,
                    ) == Some(((entries_of(secrets@), *uncertain), out@)) by {
                        assert(extends(ids_before, ids2));
                        assert(pass_fold(kind, st0, gv, cv, i as int, ids2) == Some(
                            (st_before, out_before),
                        ));
                        assert(out@ =~= out_before + gv[i as int] + rep@);
                    }
                }
                i = i + 1;
            }
            append_chars(&mut out, &chars_of(g[c.len()].as_str()));
            proof {
                assert(gv[c.len() as int] == g@[c.len() as int]@);
                assert(regex_gaps(pass_pattern(kind), text@) == Some(gv));
                assert(regex_captures(pass_pattern(kind), text@) == Some(cv));
                assert(gv.len() == cv.len() + 1);
            }
            string_of(out.as_slice())
        },
        _ => String::from_str(text),
    }
}


// ---------------------------------------------------------------- JSON documents

/// The alphanumeric characters of a key, lowercased (`char::is_alphanumeric`
/// then `char::to_lowercase`).
pub open spec fn normalize_key(s: Seq<char>) -> Seq<char>
    decreases s.len(),
{
    if s.len() == 0 {
        Seq::empty()
    } else {
        normalize_key(s.drop_last()) + if crate::patterns::unicode_alphanumeric(s.last()) {
            crate::patterns::unicode_char_lowercase(s.last())
        } else {
            Seq::empty()
        }
    }
}

/// A key whose value is a credential: its normalized form ends with one of
/// the credential words.
pub open spec fn sensitive(key: Seq<char>) -> bool {
    let n = normalize_key(key);
    ||| is_suffix("password"@, n)
    ||| is_suffix("passwd"@, n)
    ||| is_suffix("pwd"@, n)
    ||| is_suffix("passphrase"@, n)
    ||| is_suffix("token"@, n)
    ||| is_suffix("apikey"@, n)
    ||| is_suffix("secret"@, n)
    ||| is_suffix("privatekey"@, n)
    ||| is_suffix("authorization"@, n)
    ||| is_suffix("cookie"@, n)
    ||| is_suffix("密码"@, n)
    ||| is_suffix("口令"@, n)
    ||| is_suffix("密钥"@, n)
    ||| is_suffix("秘钥"@, n)
    ||| is_suffix("令牌"@, n)
}

fn normalized_key(key: &str) -> (r: String)
    ensures
        r@ == normalize_key(key@),
{
    let c = chars_of(key);
    let mut out: Vec<char> = Vec::new();
    let mut i: usize = 0;
    while i < c.len()
        invariant
            i <= c.len(),
            out@ == normalize_key(c@.subrange(0, i as int)),
        decreases c.len() - i,
    {
        proof {
            assert(c@.subrange(0, i + 1).drop_last() =~= c@.subrange(0, i as int));
        }
        if crate::patterns::is_alphanumeric(c[i]) {
            let lower = crate::patterns::char_lowercase(c[i]);
            append_chars(&mut out, &lower);
        }
        i = i + 1;
        proof {
            assert(out@ =~= normalize_key(c@.subrange(0, i as int)));
        }
    }
    proof {
        assert(c@.subrange(0, c@.len() as int) =~= c@);
    }
    string_of(out.as_slice())
}

/// Whether a JSON key names a credential.
pub fn is_sensitive(key: &str) -> (r: bool)
    ensures
        r == sensitive(key@),
{
    let n = normalized_key(key);
    let n = n.as_str();
    str_ends_with(n, "password") || str_ends_with(n, "passwd") || str_ends_with(n, "pwd")
        || str_ends_with(n, "passphrase") || str_ends_with(n, "token") || str_ends_with(n, "apikey")
        || str_ends_with(n, "secret") || str_ends_with(n, "privatekey") || str_ends_with(
        n,
        "authorization",
    ) || str_ends_with(n, "cookie") || str_ends_with(n, "密码") || str_ends_with(n, "口令")
        || str_ends_with(n, "密钥") || str_ends_with(n, "秘钥") || str_ends_with(n, "令牌")
}

pub open spec fn is_open(t: TokenView) -> bool {
    t is ArrayStart || t is ObjectStart
}

pub open spec fn is_close(t: TokenView) -> bool {
    t is ArrayEnd || t is ObjectEnd
}

/// Index just past the container closed at nesting `depth`, scanning from
/// `q` (the end of the stream when it never closes).
pub open spec fn close_from(t: Seq<TokenView>, q: int, depth: nat) -> int
    decreases t.len() - q,
{
    if q < 0 || q >= t.len() {
        t.len() as int
    } else if is_open(t[q]) {
        close_from(t, q + 1, depth + 1)
    } else if is_close(t[q]) {
        if depth <= 1 {
            q + 1
        } else {
            close_from(t, q + 1, (depth - 1) as nat)
        }
    } else {
        close_from(t, q + 1, depth)
    }
}

/// Index just past the value that starts at `p`.
pub open spec fn value_end(t: Seq<TokenView>, p: int) -> int {
    if p < 0 || p >= t.len() {
        t.len() as int
    } else if is_open(t[p]) {
        close_from(t, p + 1, 1)
    } else {
        p + 1
    }
}

pub proof fn lemma_close_from(t: Seq<TokenView>, q: int, depth: nat)
    requires
        0 <= q <= t.len(),
    ensures
        q <= close_from(t, q, depth) <= t.len(),
        q < t.len() ==> q < close_from(t, q, depth),
    decreases t.len() - q,
{
    if q < t.len() {
        if is_open(t[q]) {
            lemma_close_from(t, q + 1, depth + 1);
        } else if is_close(t[q]) {
            if depth > 1 {
                lemma_close_from(t, q + 1, (depth - 1) as nat);
            }
        } else {
            lemma_close_from(t, q + 1, depth);
        }
    }
}

pub proof fn lemma_value_end(t: Seq<TokenView>, p: int)
    requires
        0 <= p,
    ensures
        p < value_end(t, p) || (p >= t.len() && value_end(t, p) == t.len()),
        value_end(t, p) <= t.len() || p < 0,
{
    if 0 <= p < t.len() && is_open(t[p]) {
        lemma_close_from(t, p + 1, 1);
    }
}

/// The text a credential-named key protects: its string, or the JSON of a
/// value of any other kind.
pub open spec fn scalar_of(t: Seq<TokenView>, p: int, e: int) -> Seq<char> {
    if 0 <= p < t.len() && t[p] is Str {
        t[p]->Str_0
    } else if 0 <= p <= e <= t.len() {
        render(t.subrange(p, e))
    } else {
        Seq::empty()
    }
}

/// Walks a JSON document: every string becomes a protected value, and the
/// whole value of a credential-named key becomes one protected string.
/// `acc` is the rewritten stream so far.
pub open spec fn json_walk(
    st: IsolationState,
    t: Seq<TokenView>,
    i: int,
    acc: Seq<TokenView>,
    ids: Seq<Seq<char>>,
) -> Option<(IsolationState, Seq<TokenView>)>
    decreases t.len() - i,
{
    if i < 0 || i >= t.len() {
        Some((st, acc))
    } else {
        match t[i] {
            TokenView::Str(s) => match protect_spec(st, "secret"@, s, ids) {
                None => None,
                Some((st1, rep)) => json_walk(st1, t, i + 1, acc.push(TokenView::Str(rep)), ids),
            },
            TokenView::Key(k) => if sensitive(k) {
                let e = value_end(t, i + 1);
                proof {
                    lemma_value_end(t, i + 1);
                }
                match protect_spec(st, k, scalar_of(t, i + 1, e), ids) {
                    None => None,
                    Some((st1, rep)) => json_walk(
                        st1,
                        t,
                        e,
                        acc.push(TokenView::Key(k)).push(TokenView::Str(rep)),
                        ids,
                    ),
                }
            } else {
                json_walk(st, t, i + 1, acc.push(t[i]), ids)
            },
            _ => json_walk(st, t, i + 1, acc.push(t[i]), ids),
        }
    }
}

fn copy_token(t: &JsonToken) -> (r: JsonToken)
    ensures
        token_view(r) == token_view(*t),
{
    match t {
        JsonToken::Null => JsonToken::Null,
        JsonToken::Bool(b) => JsonToken::Bool(*b),
        JsonToken::Number(n) => JsonToken::Number(n.clone()),
        JsonToken::Str(s) => JsonToken::Str(s.clone()),
        JsonToken::Key(k) => JsonToken::Key(k.clone()),
        JsonToken::ArrayStart => JsonToken::ArrayStart,
        JsonToken::ArrayEnd => JsonToken::ArrayEnd,
        JsonToken::ObjectStart => JsonToken::ObjectStart,
        JsonToken::ObjectEnd => JsonToken::ObjectEnd,
    }
}

fn close_index(t: &Vec<JsonToken>, q0: usize) -> (r: usize)
    requires
        q0 <= t.len(),
    ensures
        r == close_from(tokens_view(t@), q0 as int, 1),
{
    let ghost tv = tokens_view(t@);
    let mut q = q0;
    let mut depth: u128 = 1;
    while q < t.len()
        invariant
            tv == tokens_view(t@),
            q0 <= q <= t.len(),
            depth >= 1,
            depth <= q - q0 + 1,
            close_from(tv, q as int, depth as nat) == close_from(tv, q0 as int, 1),
        decreases t.len() - q,
    {
        proof {
            assert(tv[q as int] == token_view(t@[q as int]));
        }
        match &t[q] {
            JsonToken::ArrayStart | JsonToken::ObjectStart => {
                depth = depth + 1;
            },
            JsonToken::ArrayEnd | JsonToken::ObjectEnd => {
                if depth <= 1 {
                    return q + 1;
                }
                depth = depth - 1;
            },
            _ => {},
        }
        q = q + 1;
    }
    t.len()
}

/// Index just past the value that starts at `p`.
pub fn value_end_index(t: &Vec<JsonToken>, p: usize) -> (r: usize)
    ensures
        r == value_end(tokens_view(t@), p as int),
{
    if p >= t.len() {
        return t.len();
    }
    proof {
        assert(tokens_view(t@)[p as int] == token_view(t@[p as int]));
    }
    match &t[p] {
        JsonToken::ArrayStart | JsonToken::ObjectStart => close_index(t, p + 1),
        _ => p + 1,
    }
}

/// Rewrites a JSON document's tokens, protecting its strings.
fn walk_json(t: &Vec<JsonToken>, secrets: &mut Vec<IsolatedSecret>, uncertain: &mut bool) -> (r: Vec<
    JsonToken,
>)
    requires
        all_issued(old(secrets)@),
        well_formed_entries(entries_of(old(secrets)@)),
    ensures
        *old(uncertain) ==> *final(uncertain),
        all_issued(final(secrets)@),
        well_formed_entries(entries_of(final(secrets)@)),
        extends(ids_of(old(secrets)@), ids_of(final(secrets)@)),
        forall|ids2: Seq<Seq<char>>|
            extends(ids_of(final(secrets)@), ids2) ==> json_walk(
                (entries_of(old(secrets)@), *old(uncertain)),
                tokens_view(t@),
                0,
                Seq::empty(),
                ids2,
            ) == Some(((entries_of(final(secrets)@), *final(uncertain)), tokens_view(r@))),
{
    let ghost tv = tokens_view(t@);
    let ghost st0 = (entries_of(secrets@), *uncertain);
    let ghost ids_start = ids_of(secrets@);
    let mut out: Vec<JsonToken> = Vec::new();
    let mut i: usize = 0;
    proof {
        assert(tokens_view(out@) =~= Seq::<TokenView>::empty());
    }
    while i < t.len()
        invariant
            tv == tokens_view(t@),
            i <= t.len(),
            st0.1 ==> *uncertain,
            all_issued(secrets@),
            well_formed_entries(entries_of(secrets@)),
            extends(ids_start, ids_of(secrets@)),
            forall|ids2: Seq<Seq<char>>|
                extends(ids_of(secrets@), ids2) ==> json_walk(st0, tv, 0, Seq::empty(), ids2)
                    == json_walk(
                    (entries_of(secrets@), *uncertain),
                    tv,
                    i as int,
                    tokens_view(out@),
                    ids2,
                ),
        decreases t.len() - i,
    {
        let ghost ids_before = ids_of(secrets@);
        let ghost st_before = (entries_of(secrets@), *uncertain);
        let ghost acc_before = tokens_view(out@);
        proof {
            assert(tv[i as int] == token_view(t@[i as int]));
        }
        match &t[i] {
            JsonToken::Str(s) => {
                let rep = protect(secrets, uncertain, "secret", s.as_str());
                out.push(JsonToken::Str(rep));
                proof {
                    assert(tokens_view(out@) =~= acc_before.push(TokenView::Str(rep@)));
                    assert forall|ids2: Seq<Seq<char>>| extends(ids_of(secrets@), ids2) implies json_walk(
                        st0,
                        tv,
                        0,
                        Seq::empty(),
                        ids2,
                    ) == json_walk((entries_of(secrets@), *uncertain), tv, i + 1, tokens_view(out@), ids2) by {
                        assert(extends(ids_before, ids2));
                        lemma_protect_extends(st_before, "secret"@, s@, ids_of(secrets@), ids2);
                    }
                }
                i = i + 1;
            },
            JsonToken::Key(k) => {
                if is_sensitive(k.as_str()) {
                    proof {
                        lemma_value_end(tv, i + 1);
                    }
                    let e = if i + 1 >= t.len() {
                        t.len()
                    } else {
                        match &t[i + 1] {
                            JsonToken::ArrayStart | JsonToken::ObjectStart => close_index(t, i + 2),
                            _ => i + 2,
                        }
                    };
                    proof {
                        if i + 1 < t.len() {
                            assert(tv[i + 1] == token_view(t@[i + 1]));
                        }
                        assert(e == value_end(tv, i + 1));
                    }
                    let scalar = if i + 1 < t.len() {
                        match &t[i + 1] {
                            JsonToken::Str(v) => v.clone(),
                            _ => {
                                let rendered = render_range(t, i + 1, e);
                                proof {
                                    assert(tokens_view(t@.subrange(i + 1, e as int)) =~= tv.subrange(
                                        i + 1,
                                        e as int,
                                    ));
                                }
                                string_of(rendered.as_slice())
                            },
                        }
                    } else {
                        String::new()
                    };
                    proof {
                        if i + 1 >= t.len() {
                            assert(tv.subrange(t.len() as int, t.len() as int) =~= Seq::<TokenView>::empty());
                            assert(render(Seq::<TokenView>::empty()) =~= Seq::<char>::empty());
                        }
                        assert(scalar@ == scalar_of(tv, i + 1, e as int));
                    }
                    let rep = protect(secrets, uncertain, k.as_str(), scalar.as_str());
                    out.push(JsonToken::Key(k.clone()));
                    out.push(JsonToken::Str(rep));
                    proof {
                        assert(tokens_view(out@) =~= acc_before.push(TokenView::Key(k@)).push(
                            TokenView::Str(rep@),
                        ));
                        assert forall|ids2: Seq<Seq<char>>| extends(ids_of(secrets@), ids2) implies json_walk(
                            st0,
                            tv,
                            0,
                            Seq::empty(),
                            ids2,
                        ) == json_walk((entries_of(secrets@), *uncertain), tv, e as int, tokens_view(out@), ids2) by {
                            assert(extends(ids_before, ids2));
                            lemma_protect_extends(st_before, k@, scalar@, ids_of(secrets@), ids2);
                        }
                    }
                    i = e;
                } else {
                    out.push(JsonToken::Key(k.clone()));
                    proof {
                        assert(tokens_view(out@) =~= acc_before.push(tv[i as int]));
                    }
                    i = i + 1;
                }
            },
            _ => {
                out.push(copy_token(&t[i]));
                proof {
                    assert(tokens_view(out@) =~= acc_before.push(tv[i as int]));
                }
                i = i + 1;
            },
        }
    }
    out
}


// ---------------------------------------------------------------- assembly

/// The text with every allowed reference, `[[secret:ID]]` for an allowed
/// id, replaced by `[protected]`, in the order the ids are given.
pub open spec fn mask_spec(input: Seq<char>, allowed: Seq<Seq<char>>) -> Seq<char>
    decreases allowed.len(),
{
    if allowed.len() == 0 {
        input
    } else {
        replace_spec(
            mask_spec(input, allowed.drop_last()),
            reference(allowed.last()),
            protected_marker(),
        )
    }
}

/// Masks the references a caller is allowed to keep; the rest of the text
/// is then checked for unknown references.
pub fn mask_allowed(input: &str, allowed: &Vec<String>) -> (r: String)
    ensures
        r@ == mask_spec(input@, strings_view(allowed@)),
{
    let mut checked = chars_of(input);
    let marker_chars = chars_of("[protected]");
    let mut i: usize = 0;
    while i < allowed.len()
        invariant
            i <= allowed.len(),
            marker_chars@ == protected_marker(),
            checked@ == mask_spec(input@, strings_view(allowed@).take(i as int)),
        decreases allowed.len() - i,
    {
        let reference_chars = chars_of(reference_text(allowed[i].as_str()).as_str());
        proof {
            assert(reference_chars@.len() >= 9);
            let t = strings_view(allowed@).take(i + 1);
            assert(t.drop_last() =~= strings_view(allowed@).take(i as int));
            assert(t.last() == allowed@[i as int]@);
        }
        checked = replace_chars(&checked, &reference_chars, &marker_chars);
        i = i + 1;
    }
    proof {
        assert(strings_view(allowed@).take(allowed@.len() as int) =~= strings_view(allowed@));
    }
    string_of(checked.as_slice())
}

/// A secret's value and the id that stands for it.
pub open spec fn secret_items(e: Entries, ids: Seq<Seq<char>>) -> Seq<(Seq<char>, Seq<char>)> {
    Seq::new(e.len(), |k: int| (e[k].1, ids[k]))
}

/// Position at or after `p` of the first item whose value is shorter, in
/// UTF-8 bytes, than `x`'s.
pub open spec fn insert_pos(s: Seq<(Seq<char>, Seq<char>)>, x: (Seq<char>, Seq<char>), p: int) -> int
    decreases s.len() - p,
{
    if p < 0 || p >= s.len() {
        s.len() as int
    } else if crate::text::byte_len(s[p].0) < crate::text::byte_len(x.0) {
        p
    } else {
        insert_pos(s, x, p + 1)
    }
}

/// The items ordered by value length, longest first, keeping the given
/// order among values of equal length (a stable sort).
pub open spec fn by_length(items: Seq<(Seq<char>, Seq<char>)>) -> Seq<(Seq<char>, Seq<char>)>
    decreases items.len(),
{
    if items.len() == 0 {
        Seq::empty()
    } else {
        let s = by_length(items.drop_last());
        s.insert(insert_pos(s, items.last(), 0), items.last())
    }
}

/// Each value, in turn, replaced by its reference outside references.
pub open spec fn apply_refs(text: Seq<char>, order: Seq<(Seq<char>, Seq<char>)>) -> Seq<char>
    decreases order.len(),
{
    if order.len() == 0 {
        text
    } else {
        replace_outside(apply_refs(text, order.drop_last()), order.last().0, reference(order.last().1))
    }
}

/// The text kept in place of quarantined material.
pub open spec fn quarantine_text() -> Seq<char> {
    "[资料已保密暂存，等待补充说明]"@
}

/// The four rewriting passes in order: private keys, assignments, bearer
/// values, known tokens.
pub open spec fn passes_spec(st: IsolationState, text: Seq<char>, ids: Seq<Seq<char>>) -> Option<
    (IsolationState, Seq<char>),
> {
    match pass_spec(0, st, text, ids) {
        None => None,
        Some((st1, t1)) => match pass_spec(1, st1, t1, ids) {
            None => None,
            Some((st2, t2)) => match pass_spec(2, st2, t2, ids) {
                None => None,
                Some((st3, t3)) => pass_spec(3, st3, t3, ids),
            },
        },
    }
}

/// The text isolation starts from: the rendered document when the text is
/// JSON, else the rewritten text.
pub open spec fn document_spec(
    st: IsolationState,
    text: Seq<char>,
    document: Option<Seq<TokenView>>,
    ids: Seq<Seq<char>>,
) -> Option<(IsolationState, Seq<char>)> {
    match document {
        Some(doc) => match json_walk(st, doc, 0, Seq::empty(), ids) {
            Some((st1, out)) => Some((st1, render(out))),
            None => None,
        },
        None => Some((st, text)),
    }
}

/// The last steps: text that looks like a JSON document but is not one and
/// still contains an assignment is uncertain; uncertain text is replaced by
/// the quarantine notice; otherwise each secret's value is replaced by its
/// reference outside references, longest values first.
pub open spec fn finish_spec(
    checked: Seq<char>,
    not_document: bool,
    st: IsolationState,
    initial: Seq<char>,
    ids: Seq<Seq<char>>,
) -> (Seq<char>, Entries, bool) {
    let start = trim_start(checked);
    let looks_structured = is_prefix(seq!['{'], start) || is_prefix(seq!['['], start);
    let uncertain = st.1 || (not_document && looks_structured && regex_is_match(
        ASSIGNMENT_PATTERN@,
        crate::text::ascii_lower(checked),
    ) == Some(true));
    let safe = apply_refs(initial, by_length(secret_items(st.0, ids)));
    (
        if uncertain {
            quarantine_text()
        } else {
            safe
        },
        st.0,
        uncertain,
    )
}

/// Isolation of `input`. `allowed` lists the secret ids the text may
/// already refer to; `document` is the JSON document that the masked,
/// trimmed text holds, if it is one; `ids` are the ids given to new
/// secrets in order of discovery. The result is the kept text, the
/// secrets' labels and values, and whether the text is quarantined; `None`
/// when `ids` runs out.
pub open spec fn isolate_spec(
    input: Seq<char>,
    allowed: Seq<Seq<char>>,
    document: Option<Seq<TokenView>>,
    ids: Seq<Seq<char>>,
) -> Option<(Seq<char>, Entries, bool)> {
    let checked = mask_spec(input, allowed);
    let st0: IsolationState = (Seq::empty(), contains(checked, crate::references::ref_open()));
    match passes_spec(st0, checked, ids) {
        None => None,
        Some((st4, t4)) => match document_spec(st4, t4, document, ids) {
            None => None,
            Some((st5, initial)) => Some(finish_spec(checked, document is None, st5, initial, ids)),
        },
    }
}

/// The JSON document isolation reads: the one held by the text with its
/// allowed references masked, trimmed.
pub open spec fn isolation_document(input: Seq<char>, allowed: Seq<Seq<char>>) -> Option<Seq<TokenView>> {
    json_document(trim(mask_spec(input, allowed)))
}

pub open spec fn isolation_view(r: Isolation) -> (Seq<char>, Entries, bool) {
    (r.text@, entries_of(r.secrets@), r.quarantined)
}

pub open spec fn item_view(x: (Vec<char>, Vec<char>)) -> (Seq<char>, Seq<char>) {
    (x.0@, x.1@)
}

pub open spec fn items_view(v: Seq<(Vec<char>, Vec<char>)>) -> Seq<(Seq<char>, Seq<char>)> {
    v.map_values(|x: (Vec<char>, Vec<char>)| item_view(x))
}

/// Orders the secrets' (value, id) pairs by value length, longest first.
fn order_by_length(secrets: &Vec<IsolatedSecret>) -> (r: Vec<(Vec<char>, Vec<char>)>)
    ensures
        items_view(r@) == by_length(secret_items(entries_of(secrets@), ids_of(secrets@))),
{
    let ghost items = secret_items(entries_of(secrets@), ids_of(secrets@));
    let mut order: Vec<(Vec<char>, Vec<char>)> = Vec::new();
    let mut keys: Vec<u128> = Vec::new();
    let mut k: usize = 0;
    proof {
        assert(items_view(order@) =~= by_length(items.take(0)));
    }
    while k < secrets.len()
        invariant
            items == secret_items(entries_of(secrets@), ids_of(secrets@)),
            k <= secrets.len(),
            items_view(order@) == by_length(items.take(k as int)),
            keys.len() == order.len(),
            forall|p: int| 0 <= p < keys.len() ==> keys@[p] == crate::text::byte_len(
                #[trigger] order@[p].0@,
            ),
        decreases secrets.len() - k,
    {
        let value = chars_of(secrets[k].value.as_str());
        let ident = chars_of(secrets[k].id.as_str());
        let key = crate::text::byte_len_of(&value);
        let ghost x = (value@, ident@);
        let ghost sorted = items_view(order@);
        proof {
            assert(items[k as int] == x);
            let t = items.take(k + 1);
            assert(t.drop_last() =~= items.take(k as int));
            assert(t.last() == x);
        }
        let mut p: usize = 0;
        while p < order.len() && keys[p] >= key
            invariant
                sorted == items_view(order@),
                keys.len() == order.len(),
                forall|q: int| 0 <= q < keys.len() ==> keys@[q] == crate::text::byte_len(
                    #[trigger] order@[q].0@,
                ),
                key == crate::text::byte_len(x.0),
                p <= order.len(),
                insert_pos(sorted, x, p as int) == insert_pos(sorted, x, 0),
            decreases order.len() - p,
        {
            proof {
                assert(sorted[p as int] == item_view(order@[p as int]));
            }
            p = p + 1;
        }
        proof {
            if p < order.len() {
                assert(sorted[p as int] == item_view(order@[p as int]));
            }
            assert(insert_pos(sorted, x, p as int) == p);
        }
        let ghost old_order = order@;
        let ghost old_keys = keys@;
        order.insert(p, (value, ident));
        keys.insert(p, key);
        proof {
            old_order.insert_ensures(p as int, order@[p as int]);
            old_keys.insert_ensures(p as int, key);
            assert(items_view(order@) =~= sorted.insert(p as int, x));
            assert forall|q: int| 0 <= q < keys.len() implies keys@[q] == crate::text::byte_len(
                #[trigger] order@[q].0@,
            ) by {
                if q < p {
                    assert(order@[q] == old_order[q]);
                } else if q > p {
                    assert(order@[q] == old_order[q - 1]);
                    assert(keys@[q] == old_keys[q - 1]);
                }
            }
        }
        k = k + 1;
    }
    proof {
        assert(items.take(secrets.len() as int) =~= items);
    }
    order
}

fn run_passes(text: &str, secrets: &mut Vec<IsolatedSecret>, uncertain: &mut bool) -> (r: String)
    requires
        all_issued(old(secrets)@),
        well_formed_entries(entries_of(old(secrets)@)),
    ensures
        *old(uncertain) ==> *final(uncertain),
        all_issued(final(secrets)@),
        well_formed_entries(entries_of(final(secrets)@)),
        extends(ids_of(old(secrets)@), ids_of(final(secrets)@)),
        forall|ids2: Seq<Seq<char>>|
            extends(ids_of(final(secrets)@), ids2) ==> passes_spec(
                (entries_of(old(secrets)@), *old(uncertain)),
                text@,
                ids2,
            ) == Some(((entries_of(final(secrets)@), *final(uncertain)), r@)),
{
    let ghost st0: IsolationState = (entries_of(secrets@), *uncertain);
    let t1 = run_pass(0, text, secrets, uncertain);
    let ghost ids1 = ids_of(secrets@);
    let ghost st1: IsolationState = (entries_of(secrets@), *uncertain);
    let t2 = run_pass(1, t1.as_str(), secrets, uncertain);
    let ghost ids2 = ids_of(secrets@);
    let ghost st2: IsolationState = (entries_of(secrets@), *uncertain);
    let t3 = run_pass(2, t2.as_str(), secrets, uncertain);
    let ghost ids3 = ids_of(secrets@);
    let ghost st3: IsolationState = (entries_of(secrets@), *uncertain);
    let t4 = run_pass(3, t3.as_str(), secrets, uncertain);
    proof {
        assert forall|idsx: Seq<Seq<char>>| extends(ids_of(secrets@), idsx) implies passes_spec(
            st0,
            text@,
            idsx,
        ) == Some(((entries_of(secrets@), *uncertain), t4@)) by {
            assert(extends(ids3, idsx));
            assert(extends(ids2, idsx));
            assert(extends(ids1, idsx));
            assert(pass_spec(0, st0, text@, idsx) == Some((st1, t1@)));
            assert(pass_spec(1, st1, t1@, idsx) == Some((st2, t2@)));
            assert(pass_spec(2, st2, t2@, idsx) == Some((st3, t3@)));
        }
    }
    t4
}

fn run_document(
    text: String,
    document: Option<&Vec<JsonToken>>,
    secrets: &mut Vec<IsolatedSecret>,
    uncertain: &mut bool,
) -> (r: String)
    requires
        all_issued(old(secrets)@),
        well_formed_entries(entries_of(old(secrets)@)),
    ensures
        *old(uncertain) ==> *final(uncertain),
        all_issued(final(secrets)@),
        well_formed_entries(entries_of(final(secrets)@)),
        extends(ids_of(old(secrets)@), ids_of(final(secrets)@)),
        forall|ids2: Seq<Seq<char>>|
            extends(ids_of(final(secrets)@), ids2) ==> document_spec(
                (entries_of(old(secrets)@), *old(uncertain)),
                text@,
                match document {
                    Some(d) => Some(tokens_view(d@)),
                    None => None,
                },
                ids2,
            ) == Some(((entries_of(final(secrets)@), *final(uncertain)), r@)),
{
    match document {
        Some(doc) => {
            let walked = walk_json(doc, secrets, uncertain);
            let rendered = render_range(&walked, 0, walked.len());
            proof {
                assert(walked@.subrange(0, walked@.len() as int) =~= walked@);
            }
            string_of(rendered.as_slice())
        },
        None => text,
    }
}

fn finish(checked: &str, not_document: bool, initial: String, secrets: Vec<IsolatedSecret>, uncertain: bool) -> (r:
    Isolation)
    ensures
        uncertain ==> r.quarantined,
        isolation_view(r) == finish_spec(
            checked@,
            not_document,
            (entries_of(secrets@), uncertain),
            initial@,
            ids_of(secrets@),
        ),
        r.secrets@ == secrets@,
{
    let mut uncertain = uncertain;
    let start_chars = crate::text::trim_start_chars(checked);
    let looks_structured = start_chars.len() > 0 && (start_chars[0] == '{' || start_chars[0] == '[');
    proof {
        let st = trim_start(checked@);
        if st.len() > 0 {
            assert(is_prefix(seq!['{'], st) <==> st[0] == '{') by {
                if st[0] == '{' {
                    assert(st.subrange(0, 1) =~= seq!['{']);
                }
                if is_prefix(seq!['{'], st) {
                    assert(st.subrange(0, 1)[0] == st[0]);
                }
            }
            assert(is_prefix(seq!['['], st) <==> st[0] == '[') by {
                if st[0] == '[' {
                    assert(st.subrange(0, 1) =~= seq!['[']);
                }
                if is_prefix(seq!['['], st) {
                    assert(st.subrange(0, 1)[0] == st[0]);
                }
            }
        }
    }
    if not_document && looks_structured {
        let lowered = crate::text::ascii_lower_str(checked);
        match pattern_matches(ASSIGNMENT_PATTERN, lowered.as_str()) {
            Some(true) => {
                uncertain = true;
            },
            _ => {},
        }
    }
    let order = order_by_length(&secrets);
    let mut safe = chars_of(initial.as_str());
    let mut k: usize = 0;
    while k < order.len()
        invariant
            k <= order.len(),
            safe@ == apply_refs(initial@, items_view(order@).take(k as int)),
        decreases order.len() - k,
    {
        let replacement = chars_of(
            reference_text(string_of(order[k].1.as_slice()).as_str()).as_str(),
        );
        safe = replace_outside_chars(&safe, &order[k].0, &replacement);
        proof {
            let t = items_view(order@).take(k + 1);
            assert(t.drop_last() =~= items_view(order@).take(k as int));
            assert(t.last() == item_view(order@[k as int]));
        }
        k = k + 1;
    }
    proof {
        assert(items_view(order@).take(order@.len() as int) =~= items_view(order@));
    }
    let text = if uncertain {
        String::from_str("[资料已保密暂存，等待补充说明]")
    } else {
        string_of(safe.as_slice())
    };
    Isolation { text, secrets, quarantined: uncertain }
}

proof fn lemma_insert_pos(s: Seq<(Seq<char>, Seq<char>)>, x: (Seq<char>, Seq<char>), p: int)
    requires
        0 <= p <= s.len(),
    ensures
        p <= insert_pos(s, x, p) <= s.len(),
    decreases s.len() - p,
{
    if p < s.len() && crate::text::byte_len(s[p].0) >= crate::text::byte_len(x.0) {
        lemma_insert_pos(s, x, p + 1);
    }
}

/// `s` holds the item `y`.
pub open spec fn holds_item(s: Seq<(Seq<char>, Seq<char>)>, y: (Seq<char>, Seq<char>)) -> bool {
    exists|m: int| 0 <= m < s.len() && s[m] == y
}

proof fn lemma_insert_items(s: Seq<(Seq<char>, Seq<char>)>, p: int, x: (Seq<char>, Seq<char>))
    requires
        0 <= p <= s.len(),
    ensures
        holds_item(s.insert(p, x), x),
        forall|y: (Seq<char>, Seq<char>)| holds_item(s, y) ==> #[trigger] holds_item(s.insert(p, x), y),
        forall|m: int| 0 <= m < s.len() + 1 ==> s.insert(p, x)[m] == x || holds_item(s, #[trigger] s.insert(p, x)[m]),
{
    let t = s.insert(p, x);
    assert(t[p] == x);
    assert forall|y: (Seq<char>, Seq<char>)| holds_item(s, y) implies #[trigger] holds_item(t, y) by {
        let m = choose|m: int| 0 <= m < s.len() && s[m] == y;
        if m < p {
            assert(t[m] == s[m]);
        } else {
            assert(t[m + 1] == s[m]);
        }
    }
    assert forall|m: int| 0 <= m < s.len() + 1 implies t[m] == x || holds_item(s, #[trigger] t[m]) by {
        if m < p {
            assert(t[m] == s[m]);
        } else if m > p {
            assert(t[m] == s[m - 1]);
        }
    }
}

/// Ordering by length keeps exactly the given items.
proof fn lemma_by_length_items(items: Seq<(Seq<char>, Seq<char>)>)
    ensures
        by_length(items).len() == items.len(),
        forall|k: int| 0 <= k < items.len() ==> holds_item(by_length(items), #[trigger] items[k]),
        forall|m: int| 0 <= m < items.len() ==> holds_item(items, #[trigger] by_length(items)[m]),
    decreases items.len(),
{
    if items.len() > 0 {
        let prev = items.drop_last();
        lemma_by_length_items(prev);
        let s = by_length(prev);
        let x = items.last();
        lemma_insert_pos(s, x, 0);
        let p = insert_pos(s, x, 0);
        lemma_insert_items(s, p, x);
        let t = s.insert(p, x);
        assert(by_length(items) == t);
        assert forall|k: int| 0 <= k < items.len() implies holds_item(t, #[trigger] items[k]) by {
            if k < items.len() - 1 {
                assert(items[k] == prev[k]);
                assert(holds_item(s, prev[k]));
            }
        }
        assert forall|m: int| 0 <= m < items.len() implies holds_item(items, #[trigger] t[m]) by {
            assert(items[items.len() - 1] == x);
            if t[m] != x {
                assert(holds_item(s, t[m]));
                let m0 = choose|m0: int| 0 <= m0 < s.len() && s[m0] == t[m];
                assert(holds_item(prev, s[m0]));
                let k0 = choose|k0: int| 0 <= k0 < prev.len() && prev[k0] == s[m0];
                assert(items[k0] == prev[k0]);
            }
        }
    }
}

/// After the values of `order` are each replaced by their references,
/// none of them is left outside references.
proof fn lemma_apply_refs_hides(text: Seq<char>, order: Seq<(Seq<char>, Seq<char>)>)
    requires
        forall|m: int| 0 <= m < order.len() ==> (#[trigger] order[m]).0.len() > 0 && issued_id(order[m].1),
    ensures
        forall|m: int| 0 <= m < order.len() ==> !crate::exposure::exposed(apply_refs(text, order), (#[trigger] order[m]).0),
    decreases order.len(),
{
    if order.len() > 0 {
        let prev = order.drop_last();
        assert forall|m: int| 0 <= m < prev.len() implies (#[trigger] prev[m]).0.len() > 0 && issued_id(prev[m].1) by {
            assert(prev[m] == order[m]);
        }
        lemma_apply_refs_hides(text, prev);
        let x = order.last();
        crate::exposure::lemma_reference_piece(x.1);
        let before = apply_refs(text, prev);
        assert forall|m: int| 0 <= m < order.len() implies !crate::exposure::exposed(apply_refs(text, order), (#[trigger] order[m]).0) by {
            crate::exposure::lemma_replace_outside_hides(before, x.0, reference(x.1), order[m].0);
            if m < order.len() - 1 {
                assert(prev[m] == order[m]);
            }
        }
    }
}

/// Unless the text is quarantined, no secret's value is left in the kept
/// text outside references.
proof fn lemma_finish_hides(
    checked: Seq<char>,
    not_document: bool,
    st: IsolationState,
    initial: Seq<char>,
    ids: Seq<Seq<char>>,
)
    requires
        well_formed_entries(st.0),
        st.0.len() <= ids.len(),
        forall|k: int| 0 <= k < ids.len() ==> issued_id(#[trigger] ids[k]),
    ensures
        !finish_spec(checked, not_document, st, initial, ids).2 ==> forall|k: int|
            0 <= k < st.0.len() ==> !crate::exposure::exposed(
                finish_spec(checked, not_document, st, initial, ids).0,
                #[trigger] st.0[k].1,
            ),
{
    let items = secret_items(st.0, ids);
    lemma_by_length_items(items);
    let order = by_length(items);
    assert forall|m: int| 0 <= m < order.len() implies (#[trigger] order[m]).0.len() > 0 && issued_id(order[m].1) by {
        assert(holds_item(items, order[m]));
        let k = choose|k: int| 0 <= k < items.len() && items[k] == order[m];
        assert(items[k] == (st.0[k].1, ids[k]));
        lemma_trim_idempotent(st.0[k].1);
        assert(trim(st.0[k].1).len() > 0);
    }
    lemma_apply_refs_hides(initial, order);
    assert forall|k: int| 0 <= k < st.0.len() implies !crate::exposure::exposed(apply_refs(initial, order), #[trigger] st.0[k].1) by {
        assert(items[k] == (st.0[k].1, ids[k]));
        assert(holds_item(order, items[k]));
        let m = choose|m: int| 0 <= m < order.len() && order[m] == items[k];
        assert(order[m].0 == st.0[k].1);
    }
}

/// Separates credentials from `input`. `allowed` lists secret ids the
/// text may already refer to. When the text, those references masked and
/// trimmed, is a JSON document, its strings are protected in the document.
/// New secrets get fresh random ids; given those ids the result is exactly
/// `isolate_spec`. A text that still refers to another secret is held back.
pub fn isolate(input: &str, allowed: &Vec<String>) -> (r: Isolation)
    ensures
        isolate_spec(
            input@,
            strings_view(allowed@),
            isolation_document(input@, strings_view(allowed@)),
            ids_of(r.secrets@),
        ) == Some(isolation_view(r)),
        all_issued(r.secrets@),
        well_formed_entries(entries_of(r.secrets@)),
        r.quarantined ==> r.text@ == quarantine_text(),
        contains(mask_spec(input@, strings_view(allowed@)), crate::references::ref_open()) ==> r.quarantined,
        !r.quarantined ==> forall|k: int|
            0 <= k < r.secrets@.len() ==> !crate::exposure::exposed(r.text@, #[trigger] r.secrets@[k].value@),
{
    let checked = mask_allowed(input, allowed);
    let trimmed = string_of(crate::text::trim_chars(&chars_of(checked.as_str())).as_slice());
    let parsed = parse_document(trimmed.as_str());
    let document = parsed.as_ref();
    let mut uncertain = crate::text::str_contains(checked.as_str(), "[[secret:");
    proof {
        reveal_strlit("[[secret:");
        assert("[[secret:"@ =~= crate::references::ref_open());
    }
    let mut secrets: Vec<IsolatedSecret> = Vec::new();
    let ghost st0: IsolationState = (entries_of(secrets@), uncertain);
    proof {
        assert(entries_of(secrets@) =~= Seq::<(Seq<char>, Seq<char>)>::empty());
    }
    let t4 = run_passes(checked.as_str(), &mut secrets, &mut uncertain);
    let ghost ids4 = ids_of(secrets@);
    let ghost st4: IsolationState = (entries_of(secrets@), uncertain);
    let initial = run_document(t4, document, &mut secrets, &mut uncertain);
    let ghost st5: IsolationState = (entries_of(secrets@), uncertain);
    let ghost ids5 = ids_of(secrets@);
    let r = finish(checked.as_str(), document.is_none(), initial, secrets, uncertain);
    proof {
        let dv = match document {
            Some(d) => Some(tokens_view(d@)),
            None => None,
        };
        assert(extends(ids4, ids5));
        assert(extends(ids5, ids5));
        assert(ids_of(r.secrets@) == ids5);
        assert(st0 == (Seq::<(Seq<char>, Seq<char>)>::empty(), contains(checked@, crate::references::ref_open())));
        assert(passes_spec(st0, checked@, ids5) == Some((st4, t4@)));
        assert(document_spec(st4, t4@, dv, ids5) == Some((st5, initial@)));
        assert((dv is None) == document.is_none());
        lemma_finish_hides(checked@, document is None, st5, initial@, ids5);
        assert forall|k: int| 0 <= k < r.secrets@.len() implies #[trigger] r.secrets@[k].value@ == st5.0[k].1 by {
            assert(entries_of(r.secrets@)[k] == (r.secrets@[k].label@, r.secrets@[k].value@));
        }
    }
    r
}


// ------------------------------------------------------------ bearer values

/// `longer` starts with `shorter`.
pub open spec fn grows(shorter: Entries, longer: Entries) -> bool {
    shorter.len() <= longer.len() && forall|k: int| 0 <= k < shorter.len() ==> longer[k] == shorter[k]
}

proof fn lemma_step_grows(kind: u8, st: IsolationState, c: CaptureView, ids: Seq<Seq<char>>)
    requires
        step_spec(kind, st, c, ids) is Some,
    ensures
        grows(st.0, step_spec(kind, st, c, ids).unwrap().0.0),
{
}

proof fn lemma_fold_grows(
    kind: u8,
    st: IsolationState,
    gaps: Seq<Seq<char>>,
    caps: Seq<CaptureView>,
    n: int,
    ids: Seq<Seq<char>>,
)
    requires
        pass_fold(kind, st, gaps, caps, n, ids) is Some,
    ensures
        grows(st.0, pass_fold(kind, st, gaps, caps, n, ids).unwrap().0.0),
    decreases n,
{
    if n > 0 {
        let (st1, t1) = pass_fold(kind, st, gaps, caps, n - 1, ids).unwrap();
        lemma_fold_grows(kind, st, gaps, caps, n - 1, ids);
        lemma_step_grows(kind, st1, caps[n - 1], ids);
    }
}

proof fn lemma_pass_grows(kind: u8, st: IsolationState, text: Seq<char>, ids: Seq<Seq<char>>)
    requires
        pass_spec(kind, st, text, ids) is Some,
    ensures
        grows(st.0, pass_spec(kind, st, text, ids).unwrap().0.0),
{
    match (regex_gaps(pass_pattern(kind), text), regex_captures(pass_pattern(kind), text)) {
        (Some(g), Some(c)) => if g.len() == c.len() + 1 {
            lemma_fold_grows(kind, st, g, c, c.len() as int, ids);
        },
        _ => {},
    }
}

/// Within the bearer pass every secret is labelled `authorization`, and
/// each non-blank credential of the first `n` matches has become one.
proof fn lemma_bearer_fold(
    st: IsolationState,
    gaps: Seq<Seq<char>>,
    caps: Seq<CaptureView>,
    n: int,
    ids: Seq<Seq<char>>,
)
    requires
        0 <= n <= caps.len(),
        forall|k: int| 0 <= k < st.0.len() ==> (#[trigger] st.0[k]).0 == "authorization"@,
        pass_fold(2, st, gaps, caps, n, ids) is Some,
    ensures
        ({
            let e = pass_fold(2, st, gaps, caps, n, ids).unwrap().0.0;
            &&& forall|k: int| 0 <= k < e.len() ==> (#[trigger] e[k]).0 == "authorization"@
            &&& forall|m: int|
                0 <= m < n && trim(group(caps[m], 1)).len() > 0 ==> e.contains(
                    ("authorization"@, group(#[trigger] caps[m], 1)),
                )
        }),
    decreases n,
{
    if n > 0 {
        let (st1, t1) = pass_fold(2, st, gaps, caps, n - 1, ids).unwrap();
        lemma_bearer_fold(st, gaps, caps, n - 1, ids);
        let v = group(caps[n - 1], 1);
        let st2 = pass_fold(2, st, gaps, caps, n, ids).unwrap().0;
        lemma_step_grows(2, st1, caps[n - 1], ids);
        lemma_find_value(st1.0, v);
        assert forall|m: int|
            0 <= m < n && trim(group(caps[m], 1)).len() > 0 implies st2.0.contains(
                ("authorization"@, group(#[trigger] caps[m], 1)),
            ) by {
            if m < n - 1 {
                let w = ("authorization"@, group(caps[m], 1));
                assert(st1.0.contains(w));
                let j = choose|j: int| 0 <= j < st1.0.len() && st1.0[j] == w;
                assert(st2.0[j] == w);
            } else {
                let p = find_value(st1.0, v);
                if p >= 0 {
                    assert(st2.0[p] == st1.0[p]);
                    assert(st2.0[p] == ("authorization"@, v));
                } else {
                    assert(st2.0[st1.0.len() as int] == ("authorization"@, v));
                }
            }
        }
    }
}

/// Outside JSON documents, bearer credentials are isolated: when neither
/// the private-key nor the assignment pattern finds anything in the
/// checked text, every non-blank credential that the bearer pattern
/// `(?i)\bbearer\s+(credential)` captures there is kept as a secret
/// labelled `authorization` (and so, by `isolate`'s contract, no longer
/// appears in the kept text unless the text is held back).
pub proof fn lemma_bearer_credentials_are_isolated(
    input: Seq<char>,
    allowed: Seq<Seq<char>>,
    ids: Seq<Seq<char>>,
    caps: Seq<CaptureView>,
    gaps: Seq<Seq<char>>,
)
    requires
        regex_captures(PRIVATE_KEY_PATTERN@, mask_spec(input, allowed)) == Some(Seq::<CaptureView>::empty()),
        regex_gaps(PRIVATE_KEY_PATTERN@, mask_spec(input, allowed)) == Some(seq![mask_spec(input, allowed)]),
        regex_captures(ASSIGNMENT_PATTERN@, mask_spec(input, allowed)) == Some(Seq::<CaptureView>::empty()),
        regex_gaps(ASSIGNMENT_PATTERN@, mask_spec(input, allowed)) == Some(seq![mask_spec(input, allowed)]),
        regex_captures(BEARER_PATTERN@, mask_spec(input, allowed)) == Some(caps),
        regex_gaps(BEARER_PATTERN@, mask_spec(input, allowed)) == Some(gaps),
        gaps.len() == caps.len() + 1,
        isolate_spec(input, allowed, None, ids) is Some,
    ensures
        forall|m: int|
            0 <= m < caps.len() && trim(#[trigger] group(caps[m], 1)).len() > 0 ==> isolate_spec(
                input,
                allowed,
                None,
                ids,
            ).unwrap().1.contains(("authorization"@, group(caps[m], 1))),
{
    let checked = mask_spec(input, allowed);
    let st0: IsolationState = (Seq::empty(), contains(checked, crate::references::ref_open()));
    assert(Seq::<char>::empty() + checked =~= checked);
    assert(pass_spec(0, st0, checked, ids) == Some((st0, checked)));
    assert(pass_spec(1, st0, checked, ids) == Some((st0, checked)));
    let (st3, t3) = pass_spec(2, st0, checked, ids).unwrap();
    lemma_bearer_fold(st0, gaps, caps, caps.len() as int, ids);
    assert(st3 == pass_fold(2, st0, gaps, caps, caps.len() as int, ids).unwrap().0);
    lemma_pass_grows(3, st3, t3, ids);
    let st4 = pass_spec(3, st3, t3, ids).unwrap().0;
    assert(passes_spec(st0, checked, ids) == pass_spec(3, st3, t3, ids));
    assert forall|m: int|
        0 <= m < caps.len() && trim(#[trigger] group(caps[m], 1)).len() > 0 implies st4.0.contains(
            ("authorization"@, group(caps[m], 1)),
        ) by {
        let w = ("authorization"@, group(caps[m], 1));
        assert(st3.0.contains(w));
        let j = choose|j: int| 0 <= j < st3.0.len() && st3.0[j] == w;
        assert(st4.0[j] == w);
    }
}

/// The bearer pass rewrites a credential it has not seen before into a
/// reference: for a text where `(?i)\bbearer\s+(credential)` matches once,
/// with a non-blank credential that is not yet a secret, the pass records
/// it as a new secret labelled `authorization`, with the next id, and the
/// match becomes `Bearer [[secret:id]]` while the text around it is kept.
pub proof fn lemma_bearer_pass_rewrites(
    st: IsolationState,
    text: Seq<char>,
    ids: Seq<Seq<char>>,
    c: CaptureView,
    before: Seq<char>,
    after: Seq<char>,
)
    requires
        regex_captures(BEARER_PATTERN@, text) == Some(seq![c]),
        regex_gaps(BEARER_PATTERN@, text) == Some(seq![before, after]),
        trim(group(c, 1)).len() > 0,
        forall|k: int| 0 <= k < st.0.len() ==> (#[trigger] st.0[k]).1 != group(c, 1),
        st.0.len() < ids.len(),
    ensures
        pass_spec(2, st, text, ids) == Some(
            (
                (st.0.push(("authorization"@, group(c, 1))), st.1),
                before + "Bearer "@ + crate::references::reference(ids[st.0.len() as int]) + after,
            ),
        ),
{
    let v = group(c, 1);
    lemma_find_value(st.0, v);
    assert(find_value(st.0, v) == -1);
    let caps = seq![c];
    let gaps = seq![before, after];
    assert(pass_fold(2, st, gaps, caps, 0, ids) == Some((st, Seq::<char>::empty())));
    assert(Seq::<char>::empty() + before =~= before);
    assert(before + ("Bearer "@ + crate::references::reference(ids[st.0.len() as int])) + after =~= before
        + "Bearer "@ + crate::references::reference(ids[st.0.len() as int]) + after);
}

} // verus!
