//! Reasoning about substitution tokens in well-formed text.
//!
//! A token is a brace-delimited span `{…}` whose interior holds no
//! brace; text is token-well-formed when every `{` opens such a span
//! and every `}` closes one. Over such text, replace-all behaves like
//! substitution on whole tokens: replaced tokens disappear, no new
//! occurrence of a token is conjured at a splice boundary, and nested
//! substitutions commute. These lemmas carry the library's laws about
//! token removal and inheritance resolution.

use crate::text::{find_char, occurs, occurs_at, replace_all};
use vstd::prelude::*;

verus! {

/// No brace occurs in `s`.
pub open spec fn brace_free(s: Seq<char>) -> bool {
    forall|i: int| 0 <= i < s.len() ==> s[i] != '{' && s[i] != '}'
}

/// `t` is one whole token: braces around a brace-free interior.
pub open spec fn wf_token(t: Seq<char>) -> bool {
    t.len() >= 2 && t[0] == '{' && t.last() == '}' && brace_free(t.subrange(1, t.len() - 1))
}

/// Every `{` in `s` opens a token and every `}` closes one.
pub open spec fn tokens_wf(s: Seq<char>) -> bool
    decreases s.len(),
{
    if s.len() == 0 {
        true
    } else if s[0] == '}' {
        false
    } else if s[0] == '{' {
        let j = find_char(s, '}');
        if 1 <= j < s.len() && brace_free(s.subrange(1, j)) {
            tokens_wf(s.skip(j + 1))
        } else {
            false
        }
    } else {
        tokens_wf(s.skip(1))
    }
}

/// Brace-free text is token-well-formed.
pub proof fn lemma_brace_free_wf(s: Seq<char>)
    requires
        brace_free(s),
    ensures
        tokens_wf(s),
    decreases s.len(),
{
    if s.len() > 0 {
        assert(s[0] != '{' && s[0] != '}');
        assert(forall|i: int| 0 <= i < s.skip(1).len() ==> s.skip(1)[i] == s[i + 1]);
        lemma_brace_free_wf(s.skip(1));
    }
}

/// A token never occurs in brace-free text.
pub proof fn lemma_brace_free_no_token(s: Seq<char>, pat: Seq<char>)
    requires
        brace_free(s),
        wf_token(pat),
    ensures
        !occurs(s, pat),
{
    assert forall|i: int| !occurs_at(s, pat, i) by {
        if occurs_at(s, pat, i) {
            assert(s.subrange(i, i + pat.len() as int)[0] == pat[0]);
            assert(s[i] == '{');
        }
    }
}

/// One whole token is token-well-formed text.
pub proof fn lemma_wf_token_wf(t: Seq<char>)
    requires
        wf_token(t),
    ensures
        tokens_wf(t),
{
    let n = t.len() as int;
    assert(t[n - 1] == '}');
    assert forall|m: int| 0 <= m < n - 1 implies t[m] != '}' by {
        if m == 0 {
        } else {
            assert(t.subrange(1, n - 1)[m - 1] == t[m]);
        }
    }
    crate::text::lemma_find_char_at(t, '}', n - 1);
    assert(t.subrange(1, n - 1) == t.subrange(1, find_char(t, '}')));
    assert(t.skip(n) =~= Seq::<char>::empty());
    assert(tokens_wf(t.skip(n)));
}

/// Every `{` in well-formed text is closed by a later `}` within it.
pub proof fn lemma_open_brace_closed(s: Seq<char>, i: int)
    requires
        tokens_wf(s),
        0 <= i < s.len(),
        s[i] == '{',
    ensures
        exists|k: int| i < k < s.len() && #[trigger] s[k] == '}',
    decreases s.len(),
{
    if s[0] == '{' {
        let j = find_char(s, '}');
        crate::text::lemma_find_char_bounds(s, '}');
        if i == 0 {
            assert(0 < j < s.len() && s[j] == '}');
        } else if i <= j {
            if i < j {
                assert(s.subrange(1, j)[i - 1] == s[i]);
                assert(false);
            } else {
                assert(false);
            }
        } else {
            lemma_open_brace_closed(s.skip(j + 1), i - (j + 1));
            let k0 = choose|k: int|
                i - (j + 1) < k < s.skip(j + 1).len() && #[trigger] s.skip(j + 1)[k] == '}';
            assert(s[k0 + j + 1] == '}');
        }
    } else {
        lemma_open_brace_closed(s.skip(1), i - 1);
        let k0 = choose|k: int| i - 1 < k < s.skip(1).len() && #[trigger] s.skip(1)[k] == '}';
        assert(s[k0 + 1] == '}');
    }
}

/// Occurrences in a concatenation either sit inside one part or span
/// the boundary; over a well-formed left part, a token cannot span.
pub proof fn lemma_occurs_split(a: Seq<char>, b: Seq<char>, pat: Seq<char>)
    requires
        tokens_wf(a),
        wf_token(pat),
    ensures
        occurs(a + b, pat) <==> occurs(a, pat) || occurs(b, pat),
{
    let ab = a + b;
    let n = pat.len() as int;
    if occurs(ab, pat) {
        let i = choose|i: int| occurs_at(ab, pat, i);
        if i + n <= a.len() {
            assert(a.subrange(i, i + n) =~= ab.subrange(i, i + n));
            assert(occurs_at(a, pat, i));
        } else if i >= a.len() {
            assert(b.subrange(i - a.len(), i - a.len() + n) =~= ab.subrange(i, i + n));
            assert(occurs_at(b, pat, i - a.len()));
        } else {
            assert(ab.subrange(i, i + n)[0] == pat[0]);
            assert(a[i] == '{');
            lemma_open_brace_closed(a, i);
            let k = choose|k: int| i < k < a.len() && #[trigger] a[k] == '}';
            assert(ab[k] == pat[k - i]);
            assert(0 < k - i < n - 1 ==> pat.subrange(1, n - 1)[k - i - 1] == pat[k - i]);
            assert(pat[k - i] == '}' && 0 < k - i < n);
            if k - i < n - 1 {
                assert(false);
            } else {
                assert(k == i + n - 1);
                assert(k < a.len());
                assert(false);
            }
        }
    }
    if occurs(a, pat) {
        let i = choose|i: int| occurs_at(a, pat, i);
        assert(ab.subrange(i, i + n) =~= a.subrange(i, i + n));
        assert(occurs_at(ab, pat, i));
    }
    if occurs(b, pat) {
        let i = choose|i: int| occurs_at(b, pat, i);
        assert(ab.subrange(a.len() + i, a.len() + i + n) =~= b.subrange(i, i + n));
        assert(occurs_at(ab, pat, a.len() + i));
    }
}

/// A concatenation of well-formed texts is well-formed.
pub proof fn lemma_wf_concat(a: Seq<char>, b: Seq<char>)
    requires
        tokens_wf(a),
        tokens_wf(b),
    ensures
        tokens_wf(a + b),
    decreases a.len(),
{
    if a.len() == 0 {
        assert(a + b =~= b);
    } else if a[0] == '{' {
        let ab = a + b;
        let j = find_char(a, '}');
        crate::text::lemma_find_char_bounds(a, '}');
        assert forall|m: int| 0 <= m < j implies ab[m] != '}' by {
            if m == 0 {
            } else {
                assert(a.subrange(1, j)[m - 1] == a[m]);
            }
        }
        crate::text::lemma_find_char_at(ab, '}', j);
        assert(ab.subrange(1, j) =~= a.subrange(1, j));
        lemma_wf_concat(a.skip(j + 1), b);
        assert(ab.skip(j + 1) =~= a.skip(j + 1) + b);
    } else {
        let ab = a + b;
        lemma_wf_concat(a.skip(1), b);
        assert(ab.skip(1) =~= a.skip(1) + b);
        assert(tokens_wf(ab.skip(1)));
    }
}

/// Dropping a final non-brace character keeps text well-formed.
pub proof fn lemma_wf_drop_last(s: Seq<char>)
    requires
        tokens_wf(s),
        s.len() > 0,
        s.last() != '{',
        s.last() != '}',
    ensures
        tokens_wf(s.drop_last()),
    decreases s.len(),
{
    let d = s.drop_last();
    if s.len() == 1 {
        assert(d =~= Seq::<char>::empty());
    } else if s[0] == '{' {
        let j = find_char(s, '}');
        crate::text::lemma_find_char_bounds(s, '}');
        assert(j < s.len() - 1);
        assert(d[0] == '{');
        assert forall|m: int| 0 <= m < j implies d[m] != '}' by {
            if m > 0 {
                assert(s.subrange(1, j)[m - 1] == s[m]);
            }
        }
        assert(d[j] == '}');
        crate::text::lemma_find_char_at(d, '}', j);
        assert(d.subrange(1, j) =~= s.subrange(1, j));
        let rest = s.skip(j + 1);
        assert(rest.len() > 0 && rest.last() == s.last());
        lemma_wf_drop_last(rest);
        assert(d.skip(j + 1) =~= rest.drop_last());
    } else {
        lemma_wf_drop_last(s.skip(1));
        assert(d[0] == s[0]);
        assert(d.skip(1) =~= s.skip(1).drop_last());
    }
}

/// Where a text occurs, so does each of its prefixes.
pub proof fn lemma_occurs_prefix(s: Seq<char>, t: Seq<char>, u: Seq<char>)
    requires
        occurs(s, t),
        crate::text::has_prefix(t, u),
    ensures
        occurs(s, u),
{
    let i = choose|i: int| occurs_at(s, t, i);
    assert(s.subrange(i, i + u.len() as int) =~= t.take(u.len() as int)) by {
        assert(forall|k: int|
            0 <= k < u.len() ==> s.subrange(i, i + t.len() as int)[k] == t[k]);
    }
    assert(occurs_at(s, u, i));
}

/// Occurrences within a suffix are occurrences of the whole.
pub proof fn lemma_occurs_in_skip(s: Seq<char>, q: Seq<char>, m: int)
    requires
        0 <= m <= s.len(),
        occurs(s.skip(m), q),
    ensures
        occurs(s, q),
{
    let i = choose|i: int| occurs_at(s.skip(m), q, i);
    assert(s.subrange(m + i, m + i + q.len() as int) =~= s.skip(m).subrange(
        i,
        i + q.len() as int,
    ));
    assert(occurs_at(s, q, m + i));
}

/// Replace-all copies a left part without `{` unchanged when the
/// pattern is a token.
pub proof fn lemma_replace_skips(bf: Seq<char>, rest: Seq<char>, pat: Seq<char>, rep: Seq<char>)
    requires
        wf_token(pat),
        forall|i: int| 0 <= i < bf.len() ==> bf[i] != '{',
    ensures
        replace_all(bf + rest, pat, rep) == bf + replace_all(rest, pat, rep),
    decreases bf.len(),
{
    let s = bf + rest;
    let n = pat.len() as int;
    if bf.len() == 0 {
        assert(s =~= rest);
        assert(bf + replace_all(rest, pat, rep) =~= replace_all(rest, pat, rep));
    } else if s.len() < n {
        assert(rest.len() < n);
        assert(replace_all(s, pat, rep) == s);
        assert(replace_all(rest, pat, rep) == rest);
    } else {
        assert(s.take(n)[0] == s[0]);
        assert(s[0] == bf[0]);
        assert(s.take(n) != pat);
        assert(replace_all(s, pat, rep) == seq![s[0]] + replace_all(s.skip(1), pat, rep));
        assert(s.skip(1) =~= bf.skip(1) + rest);
        assert(forall|i: int| 0 <= i < bf.skip(1).len() ==> bf.skip(1)[i] == bf[i + 1]);
        lemma_replace_skips(bf.skip(1), rest, pat, rep);
        assert(seq![s[0]] + (bf.skip(1) + replace_all(rest, pat, rep)) =~= bf + replace_all(
            rest,
            pat,
            rep,
        ));
    }
}

/// Peeling one non-`{` head character commutes with replace-all.
pub proof fn lemma_replace_head_char(s: Seq<char>, pat: Seq<char>, rep: Seq<char>)
    requires
        wf_token(pat),
        s.len() > 0,
        s[0] != '{',
    ensures
        replace_all(s, pat, rep) == seq![s[0]] + replace_all(s.skip(1), pat, rep),
{
    let n = pat.len() as int;
    if s.len() < n {
        assert(s.skip(1).len() < n);
        assert(replace_all(s.skip(1), pat, rep) == s.skip(1));
        assert(seq![s[0]] + s.skip(1) =~= s);
    } else {
        assert(s.take(n)[0] == s[0]);
        assert(s.take(n) != pat);
    }
}

/// Over well-formed text headed by a token other than the pattern,
/// replace-all copies that token and continues after it.
pub proof fn lemma_replace_head_tok(s: Seq<char>, pat: Seq<char>, rep: Seq<char>)
    requires
        wf_token(pat),
        s.len() > 0,
        s[0] == '{',
        1 <= find_char(s, '}') < s.len(),
        brace_free(s.subrange(1, find_char(s, '}'))),
        s.take(find_char(s, '}') + 1) != pat,
    ensures
        replace_all(s, pat, rep) == s.take(find_char(s, '}') + 1) + replace_all(
            s.skip(find_char(s, '}') + 1),
            pat,
            rep,
        ),
{
    let n = pat.len() as int;
    let j = find_char(s, '}');
    crate::text::lemma_find_char_bounds(s, '}');
    let tok = s.take(j + 1);
    let rest = s.skip(j + 1);
    if s.len() < n {
        assert(rest.len() < n);
        assert(replace_all(s, pat, rep) == s);
        assert(replace_all(rest, pat, rep) == rest);
        assert(tok + rest =~= s);
    } else {
        if s.take(n) == pat {
            assert(s.take(n)[n - 1] == pat[n - 1]);
            assert(s[n - 1] == '}');
            assert forall|m: int| 0 <= m < n - 1 implies s[m] != '}' by {
                if m > 0 {
                    assert(pat.subrange(1, n - 1)[m - 1] == pat[m]);
                    assert(s.take(n)[m] == pat[m]);
                }
            }
            crate::text::lemma_find_char_at(s, '}', n - 1);
            assert(j == n - 1);
            assert(tok =~= s.take(n));
            assert(false);
        }
        assert(replace_all(s, pat, rep) == seq![s[0]] + replace_all(s.skip(1), pat, rep));
        let bf = s.subrange(1, j + 1);
        assert forall|i: int| 0 <= i < bf.len() implies bf[i] != '{' by {
            if i + 1 < j {
                assert(s.subrange(1, j)[i] == s[i + 1]);
            } else {
                assert(s[j] == '}');
            }
        }
        assert(s.skip(1) =~= bf + rest);
        lemma_replace_skips(bf, rest, pat, rep);
        assert(seq![s[0]] + (bf + replace_all(rest, pat, rep)) =~= tok + replace_all(
            rest,
            pat,
            rep,
        ));
    }
}

/// Replacing one token over well-formed text: the token is gone, the
/// result is well-formed, and no other absent token has appeared,
/// provided the replacement is well-formed and free of the token
/// looked for.
pub proof fn lemma_replace_token(s: Seq<char>, pat: Seq<char>, rep: Seq<char>, q: Seq<char>)
    requires
        tokens_wf(s),
        wf_token(pat),
        wf_token(q),
        tokens_wf(rep),
        !occurs(rep, q),
        q != pat ==> !occurs(s, q),
    ensures
        !occurs(replace_all(s, pat, rep), q),
        tokens_wf(replace_all(s, pat, rep)),
    decreases s.len(),
{
    let n = pat.len() as int;
    if s.len() == 0 {
        assert(replace_all(s, pat, rep) == s);
        assert(forall|i: int| !occurs_at(s, q, i));
    } else if s[0] == '{' {
        let j = find_char(s, '}');
        crate::text::lemma_find_char_bounds(s, '}');
        let tok = s.take(j + 1);
        let rest = s.skip(j + 1);
        assert(wf_token(tok)) by {
            assert(tok[0] == s[0]);
            assert(tok.last() == s[j]);
            assert(tok.subrange(1, j) =~= s.subrange(1, j));
        }
        assert(q != pat ==> !occurs(rest, q)) by {
            if q != pat && occurs(rest, q) {
                lemma_occurs_in_skip(s, q, j + 1);
            }
        }
        if tok == pat {
            assert(n == j + 1);
            assert(s.take(n) == pat);
            assert(replace_all(s, pat, rep) == rep + replace_all(s.skip(n), pat, rep));
            assert(s.skip(n) == rest);
            lemma_replace_token(rest, pat, rep, q);
            let r2 = replace_all(rest, pat, rep);
            lemma_wf_concat(rep, r2);
            lemma_occurs_split(rep, r2, q);
        } else {
            lemma_replace_head_tok(s, pat, rep);
            lemma_replace_token(rest, pat, rep, q);
            let r2 = replace_all(rest, pat, rep);
            assert(tok != q) by {
                if q != pat {
                    assert(s.subrange(0, j + 1) =~= tok);
                    assert(occurs_at(s, tok, 0));
                }
            }
            lemma_wf_token_wf(tok);
            lemma_wf_concat(tok, r2);
            lemma_token_no_other(tok, q);
            lemma_occurs_split(tok, r2, q);
        }
    } else {
        lemma_replace_head_char(s, pat, rep);
        assert(q != pat ==> !occurs(s.skip(1), q)) by {
            if q != pat && occurs(s.skip(1), q) {
                lemma_occurs_in_skip(s, q, 1);
            }
        }
        lemma_replace_token(s.skip(1), pat, rep, q);
        let r2 = replace_all(s.skip(1), pat, rep);
        let c = seq![s[0]];
        assert(forall|i: int| 0 <= i < c.len() ==> c[i] != '{' && c[i] != '}');
        lemma_brace_free_wf(c);
        lemma_wf_concat(c, r2);
        lemma_brace_free_no_token(c, q);
        lemma_occurs_split(c, r2, q);
    }
}

/// Replacing a token by well-formed text keeps the text well-formed.
pub proof fn lemma_replace_wf(s: Seq<char>, pat: Seq<char>, rep: Seq<char>)
    requires
        tokens_wf(s),
        wf_token(pat),
        tokens_wf(rep),
    ensures
        tokens_wf(replace_all(s, pat, rep)),
    decreases s.len(),
{
    let n = pat.len() as int;
    if s.len() == 0 {
    } else if s[0] == '{' {
        let j = find_char(s, '}');
        crate::text::lemma_find_char_bounds(s, '}');
        let tok = s.take(j + 1);
        let rest = s.skip(j + 1);
        assert(wf_token(tok)) by {
            assert(tok[0] == s[0]);
            assert(tok.last() == s[j]);
            assert(tok.subrange(1, j) =~= s.subrange(1, j));
        }
        lemma_replace_wf(rest, pat, rep);
        if tok == pat {
            assert(n == j + 1);
            assert(s.take(n) == pat);
            assert(replace_all(s, pat, rep) == rep + replace_all(s.skip(n), pat, rep));
            assert(s.skip(n) == rest);
            lemma_wf_concat(rep, replace_all(rest, pat, rep));
        } else {
            lemma_replace_head_tok(s, pat, rep);
            lemma_wf_token_wf(tok);
            lemma_wf_concat(tok, replace_all(rest, pat, rep));
        }
    } else {
        lemma_replace_head_char(s, pat, rep);
        lemma_replace_wf(s.skip(1), pat, rep);
        let c = seq![s[0]];
        lemma_brace_free_wf(c);
        lemma_wf_concat(c, replace_all(s.skip(1), pat, rep));
    }
}

/// A token occurring at the head of well-formed text headed by `{` is
/// the head token itself.
proof fn lemma_token_at_head(s: Seq<char>, q: Seq<char>)
    requires
        wf_token(q),
        occurs_at(s, q, 0),
        s.len() > 0,
        s[0] == '{',
    ensures
        1 <= find_char(s, '}') < s.len(),
        s.take(find_char(s, '}') + 1) == q,
{
    let m = q.len() as int;
    assert(s.subrange(0, m)[m - 1] == q[m - 1]);
    assert(s[m - 1] == '}');
    assert forall|k: int| 0 <= k < m - 1 implies s[k] != '}' by {
        assert(s.subrange(0, m)[k] == q[k]);
        if k > 0 {
            assert(q.subrange(1, m - 1)[k - 1] == q[k]);
        }
    }
    crate::text::lemma_find_char_at(s, '}', m - 1);
    assert(s.take(m) =~= s.subrange(0, m));
}

/// A token other than the pattern survives replace-all over
/// well-formed text.
pub proof fn lemma_replace_keeps_other(s: Seq<char>, pat: Seq<char>, rep: Seq<char>, q: Seq<char>)
    requires
        tokens_wf(s),
        wf_token(pat),
        wf_token(q),
        tokens_wf(rep),
        q != pat,
        occurs(s, q),
    ensures
        occurs(replace_all(s, pat, rep), q),
    decreases s.len(),
{
    let n = pat.len() as int;
    let m = q.len() as int;
    let i = choose|i: int| occurs_at(s, q, i);
    assert(s.subrange(i, i + m)[0] == q[0]);
    assert(s[i] == '{');
    if s[0] == '{' {
        let j = find_char(s, '}');
        crate::text::lemma_find_char_bounds(s, '}');
        let tok = s.take(j + 1);
        let rest = s.skip(j + 1);
        assert(wf_token(tok)) by {
            assert(tok[0] == s[0]);
            assert(tok.last() == s[j]);
            assert(tok.subrange(1, j) =~= s.subrange(1, j));
        }
        if i == 0 {
            lemma_token_at_head(s, q);
            assert(tok == q);
            assert(tok != pat);
            lemma_replace_head_tok(s, pat, rep);
            let r2 = replace_all(rest, pat, rep);
            assert(occurs_at(tok + r2, q, 0)) by {
                assert((tok + r2).subrange(0, m) =~= tok);
            }
        } else {
            assert(i > j) by {
                if i <= j {
                    if i < j {
                        assert(s.subrange(1, j)[i - 1] == s[i]);
                    }
                }
            }
            assert(occurs_at(rest, q, i - (j + 1))) by {
                assert(rest.subrange(i - (j + 1), i - (j + 1) + m) =~= s.subrange(i, i + m));
            }
            if tok == pat {
                assert(n == j + 1);
                assert(s.take(n) == pat);
                assert(replace_all(s, pat, rep) == rep + replace_all(s.skip(n), pat, rep));
                assert(s.skip(n) == rest);
                lemma_replace_keeps_other(rest, pat, rep, q);
                lemma_occurs_split(rep, replace_all(rest, pat, rep), q);
            } else {
                lemma_replace_head_tok(s, pat, rep);
                lemma_replace_keeps_other(rest, pat, rep, q);
                lemma_wf_token_wf(tok);
                lemma_occurs_split(tok, replace_all(rest, pat, rep), q);
            }
        }
    } else {
        assert(i >= 1);
        lemma_replace_head_char(s, pat, rep);
        assert(occurs_at(s.skip(1), q, i - 1)) by {
            assert(s.skip(1).subrange(i - 1, i - 1 + m) =~= s.subrange(i, i + m));
        }
        lemma_replace_keeps_other(s.skip(1), pat, rep, q);
        let c = seq![s[0]];
        lemma_brace_free_wf(c);
        lemma_occurs_split(c, replace_all(s.skip(1), pat, rep), q);
    }
}

/// Replacing a pattern that occurs exactly once splices the
/// replacement in at that one place.
pub proof fn lemma_replace_single(pre: Seq<char>, pat: Seq<char>, post: Seq<char>, rep: Seq<char>)
    requires
        pat.len() > 0,
        forall|i: int| i != pre.len() ==> !occurs_at(pre + pat + post, pat, i),
    ensures
        replace_all(pre + pat + post, pat, rep) == pre + rep + post,
    decreases pre.len(),
{
    let s = pre + pat + post;
    let n = pat.len() as int;
    if pre.len() == 0 {
        assert(s.take(n) =~= pat);
        assert(replace_all(s, pat, rep) == rep + replace_all(s.skip(n), pat, rep));
        assert(s.skip(n) =~= post);
        assert(!occurs(post, pat)) by {
            if occurs(post, pat) {
                let i = choose|i: int| occurs_at(post, pat, i);
                assert(s.subrange(n + i, n + i + n) =~= post.subrange(i, i + n));
                assert(occurs_at(s, pat, n + i));
            }
        }
        crate::text::lemma_replace_absent(post, pat, rep);
        assert(pre + rep + post =~= rep + post);
    } else {
        assert(!occurs_at(s, pat, 0));
        assert(s.len() >= n);
        assert(s.take(n) =~= s.subrange(0, n));
        assert(s.take(n) != pat);
        assert(replace_all(s, pat, rep) == seq![s[0]] + replace_all(s.skip(1), pat, rep));
        assert(s.skip(1) =~= pre.skip(1) + pat + post);
        assert forall|i: int| i != pre.skip(1).len() implies !occurs_at(
            pre.skip(1) + pat + post,
            pat,
            i,
        ) by {
            if 0 <= i && occurs_at(pre.skip(1) + pat + post, pat, i) {
                assert(s.subrange(i + 1, i + 1 + n) =~= (pre.skip(1) + pat + post).subrange(
                    i,
                    i + n,
                ));
                assert(occurs_at(s, pat, i + 1));
            }
        }
        lemma_replace_single(pre.skip(1), pat, post, rep);
        assert(seq![s[0]] + (pre.skip(1) + rep + post) =~= pre + rep + post);
    }
}

/// Replace-all distributes over a concatenation whose left part is
/// well-formed.
pub proof fn lemma_replace_concat(x: Seq<char>, y: Seq<char>, pat: Seq<char>, rep: Seq<char>)
    requires
        tokens_wf(x),
        wf_token(pat),
    ensures
        replace_all(x + y, pat, rep) == replace_all(x, pat, rep) + replace_all(y, pat, rep),
    decreases x.len(),
{
    let n = pat.len() as int;
    let xy = x + y;
    if x.len() == 0 {
        assert(xy =~= y);
        assert(replace_all(x, pat, rep) == x);
        assert(x + replace_all(y, pat, rep) =~= replace_all(y, pat, rep));
    } else if x[0] == '{' {
        let j = find_char(x, '}');
        crate::text::lemma_find_char_bounds(x, '}');
        let tok = x.take(j + 1);
        let rest = x.skip(j + 1);
        assert(wf_token(tok)) by {
            assert(tok[0] == x[0]);
            assert(tok.last() == x[j]);
            assert(tok.subrange(1, j) =~= x.subrange(1, j));
        }
        assert(xy[0] == x[0]);
        assert forall|m: int| 0 <= m < j implies xy[m] != '}' by {
            if m > 0 {
                assert(x.subrange(1, j)[m - 1] == x[m]);
                assert(xy[m] == x[m]);
            }
        }
        assert(xy[j] == x[j]);
        crate::text::lemma_find_char_at(xy, '}', j);
        assert(find_char(xy, '}') == j);
        assert(xy.take(j + 1) =~= tok);
        assert(xy.skip(j + 1) =~= rest + y);
        if tok == pat {
            assert(n == j + 1);
            assert(x.take(n) == pat);
            assert(xy.take(n) =~= x.take(n));
            assert(replace_all(x, pat, rep) == rep + replace_all(x.skip(n), pat, rep));
            assert(replace_all(xy, pat, rep) == rep + replace_all(xy.skip(n), pat, rep));
            assert(x.skip(n) == rest);
            assert(xy.skip(n) =~= rest + y);
            lemma_replace_concat(rest, y, pat, rep);
            assert(rep + (replace_all(rest, pat, rep) + replace_all(y, pat, rep)) =~= (rep
                + replace_all(rest, pat, rep)) + replace_all(y, pat, rep));
        } else {
            lemma_replace_head_tok(x, pat, rep);
            assert(xy.subrange(1, j) =~= x.subrange(1, j));
            lemma_replace_head_tok(xy, pat, rep);
            lemma_replace_concat(rest, y, pat, rep);
            assert(tok + (replace_all(rest, pat, rep) + replace_all(y, pat, rep)) =~= (tok
                + replace_all(rest, pat, rep)) + replace_all(y, pat, rep));
        }
    } else {
        lemma_replace_head_char(x, pat, rep);
        assert(xy[0] == x[0]);
        lemma_replace_head_char(xy, pat, rep);
        assert(xy.skip(1) =~= x.skip(1) + y);
        lemma_replace_concat(x.skip(1), y, pat, rep);
        assert(seq![x[0]] + (replace_all(x.skip(1), pat, rep) + replace_all(y, pat, rep)) =~= (
        seq![x[0]] + replace_all(x.skip(1), pat, rep)) + replace_all(y, pat, rep));
    }
}

/// Nested substitution of one token associates over well-formed text:
/// substituting `b` into `c` and then `a` into the result equals
/// substituting `a` into `b` first.
pub proof fn lemma_replace_assoc(c: Seq<char>, s: Seq<char>, b: Seq<char>, a: Seq<char>)
    requires
        tokens_wf(c),
        wf_token(s),
        tokens_wf(b),
    ensures
        replace_all(replace_all(c, s, b), s, a) == replace_all(c, s, replace_all(b, s, a)),
    decreases c.len(),
{
    let n = s.len() as int;
    let bp = replace_all(b, s, a);
    if c.len() == 0 {
        assert(replace_all(c, s, b) == c);
        assert(replace_all(c, s, a) == c);
        assert(replace_all(c, s, bp) == c);
    } else if c[0] == '{' {
        let j = find_char(c, '}');
        crate::text::lemma_find_char_bounds(c, '}');
        let tok = c.take(j + 1);
        let rest = c.skip(j + 1);
        assert(wf_token(tok)) by {
            assert(tok[0] == c[0]);
            assert(tok.last() == c[j]);
            assert(tok.subrange(1, j) =~= c.subrange(1, j));
        }
        if tok == s {
            assert(n == j + 1);
            assert(c.take(n) == s);
            assert(replace_all(c, s, b) == b + replace_all(c.skip(n), s, b));
            assert(replace_all(c, s, bp) == bp + replace_all(c.skip(n), s, bp));
            assert(c.skip(n) == rest);
            lemma_replace_concat(b, replace_all(rest, s, b), s, a);
            lemma_replace_assoc(rest, s, b, a);
        } else {
            lemma_replace_head_tok(c, s, b);
            lemma_replace_head_tok(c, s, bp);
            lemma_wf_token_wf(tok);
            lemma_replace_concat(tok, replace_all(rest, s, b), s, a);
            lemma_token_no_other(tok, s);
            crate::text::lemma_replace_absent(tok, s, a);
            lemma_replace_assoc(rest, s, b, a);
        }
    } else {
        lemma_replace_head_char(c, s, b);
        lemma_replace_head_char(c, s, bp);
        let c0 = seq![c[0]];
        lemma_replace_skips(c0, replace_all(c.skip(1), s, b), s, a);
        assert(c0 + replace_all(c.skip(1), s, b) =~= replace_all(c, s, b));
        lemma_replace_assoc(c.skip(1), s, b, a);
    }
}

/// One token contains no occurrence of a different token.
pub proof fn lemma_token_no_other(t: Seq<char>, q: Seq<char>)
    requires
        wf_token(t),
        wf_token(q),
        t != q,
    ensures
        !occurs(t, q),
{
    let n = t.len() as int;
    let m = q.len() as int;
    assert forall|i: int| !occurs_at(t, q, i) by {
        if occurs_at(t, q, i) {
            assert(t.subrange(i, i + m)[0] == q[0]);
            assert(t[i] == '{');
            if i == 0 {
                assert(t.subrange(0, m)[m - 1] == q[m - 1]);
                assert(q[m - 1] == '}');
                assert(t[m - 1] == '}');
                if m - 1 < n - 1 {
                    assert(t.subrange(1, n - 1)[m - 2] == t[m - 1]);
                    assert(false);
                } else {
                    assert(t.subrange(0, m) =~= t);
                    assert(false);
                }
            } else {
                if i < n - 1 {
                    assert(t.subrange(1, n - 1)[i - 1] == t[i]);
                    assert(false);
                } else {
                    assert(t[n - 1] == '}');
                    assert(false);
                }
            }
        }
    }
}

} // verus!
