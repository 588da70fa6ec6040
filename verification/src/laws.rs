//! The library's laws, proved over the substitution, parsing and
//! resolution specs: bound tokens are gone after substitution — at the
//! level of one table, one line, a whole parsed template and a whole
//! parsed page — and unbound ones survive; inheritance resolution does
//! not depend on the order the chain is flattened in; same-named page
//! blocks fill their slot in declaration order; and the global head
//! insertion places exactly one `<title>` after `<head>`, holding the
//! trimmed page title.
//!
//! The token laws hold of token-well-formed text: every `{` opening a
//! brace-free-interior token and every `}` closing one. Outside that
//! shape a replacement can splice characters into a new token, so the
//! laws genuinely fail — `{%{%b}}` turns into `{%a}` when `{%b}` is
//! bound to `a` — and the hypotheses name exactly the inputs on which
//! they hold.

use crate::model::Binding;
use crate::render::{apply_resources, blocks_fill, subst_parts};
use crate::subst::{link_mark, replace_vars_spec, subst_pairs, token_pat, var_mark};
use crate::text::{occurs, occurs_at, replace_all, trim_back, trim_front, trimmed};
use crate::tokens::{
    brace_free, lemma_brace_free_no_token, lemma_brace_free_wf, lemma_replace_keeps_other,
    lemma_replace_token, lemma_replace_wf, tokens_wf, wf_token,
};
use vstd::prelude::*;

verus! {

/// A token pattern built from a brace-free mark and name is one whole
/// token.
pub proof fn lemma_token_pat_wf(mark: Seq<char>, name: Seq<char>)
    requires
        brace_free(mark),
        brace_free(name),
    ensures
        wf_token(token_pat(mark, name)),
{
    reveal_strlit("{");
    reveal_strlit("}");
    let t = token_pat(mark, name);
    assert(t.len() >= 2);
    assert(t[0] == '{');
    assert(t.last() == '}');
    assert forall|i: int| 0 <= i < t.len() - 2 implies #[trigger] t.subrange(1, t.len() - 1)[i]
        != '{' && t.subrange(1, t.len() - 1)[i] != '}' by {
        assert(t.subrange(1, t.len() - 1)[i] == t[i + 1]);
        if i < mark.len() {
            assert(t[i + 1] == mark[i]);
        } else {
            assert(t[i + 1] == name[i - mark.len()]);
        }
    }
}

/// Trimming brace-free text leaves it brace-free.
pub proof fn lemma_trimmed_brace_free(s: Seq<char>)
    requires
        brace_free(s),
    ensures
        brace_free(trimmed(s)),
{
    lemma_trim_front_brace_free(s);
    lemma_trim_back_brace_free(trim_front(s));
}

proof fn lemma_trim_front_brace_free(s: Seq<char>)
    requires
        brace_free(s),
    ensures
        brace_free(trim_front(s)),
    decreases s.len(),
{
    if s.len() > 0 && crate::text::is_ws(s[0]) {
        assert(forall|i: int| 0 <= i < s.skip(1).len() ==> s.skip(1)[i] == s[i + 1]);
        lemma_trim_front_brace_free(s.skip(1));
    }
}

proof fn lemma_trim_back_brace_free(s: Seq<char>)
    requires
        brace_free(s),
    ensures
        brace_free(trim_back(s)),
    decreases s.len(),
{
    if s.len() > 0 && crate::text::is_ws(s.last()) {
        assert(forall|i: int| 0 <= i < s.drop_last().len() ==> s.drop_last()[i] == s[i]);
        lemma_trim_back_brace_free(s.drop_last());
    }
}

/// A table is fit for token reasoning: brace-free names against a
/// brace-free mark, and well-formed replacement values.
pub open spec fn table_wf(mark: Seq<char>, pairs: Seq<Binding>) -> bool {
    &&& brace_free(mark)
    &&& forall|k: int| 0 <= k < pairs.len() ==> brace_free(#[trigger] pairs[k].name@)
    &&& forall|k: int| 0 <= k < pairs.len() ==> tokens_wf(#[trigger] pairs[k].value@)
}

proof fn lemma_table_wf_drop(mark: Seq<char>, pairs: Seq<Binding>)
    requires
        table_wf(mark, pairs),
        pairs.len() > 0,
    ensures
        table_wf(mark, pairs.drop_last()),
{
    assert forall|k: int| 0 <= k < pairs.drop_last().len() implies brace_free(
        #[trigger] pairs.drop_last()[k].name@,
    ) by {
        assert(pairs.drop_last()[k] == pairs[k]);
    }
    assert forall|k: int| 0 <= k < pairs.drop_last().len() implies tokens_wf(
        #[trigger] pairs.drop_last()[k].value@,
    ) by {
        assert(pairs.drop_last()[k] == pairs[k]);
    }
}

/// Substituting a table keeps text well-formed.
pub proof fn lemma_subst_pairs_wf(text: Seq<char>, mark: Seq<char>, pairs: Seq<Binding>)
    requires
        tokens_wf(text),
        table_wf(mark, pairs),
    ensures
        tokens_wf(subst_pairs(text, mark, pairs)),
    decreases pairs.len(),
{
    if pairs.len() > 0 {
        lemma_table_wf_drop(mark, pairs);
        lemma_subst_pairs_wf(text, mark, pairs.drop_last());
        lemma_token_pat_wf(mark, pairs.last().name@);
        lemma_replace_wf(
            subst_pairs(text, mark, pairs.drop_last()),
            token_pat(mark, pairs.last().name@),
            pairs.last().value@,
        );
    }
}

/// A token absent from the text and from every replacement value is
/// still absent after the table is substituted.
pub proof fn lemma_subst_pairs_keeps_absent(
    text: Seq<char>,
    mark: Seq<char>,
    pairs: Seq<Binding>,
    q: Seq<char>,
)
    requires
        tokens_wf(text),
        table_wf(mark, pairs),
        wf_token(q),
        !occurs(text, q),
        forall|k: int| 0 <= k < pairs.len() ==> !occurs(#[trigger] pairs[k].value@, q),
    ensures
        !occurs(subst_pairs(text, mark, pairs), q),
    decreases pairs.len(),
{
    if pairs.len() > 0 {
        lemma_table_wf_drop(mark, pairs);
        assert forall|k: int| 0 <= k < pairs.drop_last().len() implies !occurs(
            #[trigger] pairs.drop_last()[k].value@,
            q,
        ) by {
            assert(pairs.drop_last()[k] == pairs[k]);
        }
        lemma_subst_pairs_keeps_absent(text, mark, pairs.drop_last(), q);
        lemma_subst_pairs_wf(text, mark, pairs.drop_last());
        lemma_token_pat_wf(mark, pairs.last().name@);
        lemma_replace_token(
            subst_pairs(text, mark, pairs.drop_last()),
            token_pat(mark, pairs.last().name@),
            pairs.last().value@,
            q,
        );
    }
}

/// After a table is substituted, no token of the table occurs in the
/// result, provided no replacement value carries one.
pub proof fn lemma_subst_pairs_removes(text: Seq<char>, mark: Seq<char>, pairs: Seq<Binding>)
    requires
        tokens_wf(text),
        table_wf(mark, pairs),
        forall|k: int, l: int|
            0 <= k < pairs.len() && 0 <= l < pairs.len() ==> !occurs(
                #[trigger] pairs[k].value@,
                token_pat(mark, #[trigger] pairs[l].name@),
            ),
    ensures
        forall|k: int|
            0 <= k < pairs.len() ==> !occurs(
                subst_pairs(text, mark, pairs),
                token_pat(mark, #[trigger] pairs[k].name@),
            ),
    decreases pairs.len(),
{
    if pairs.len() > 0 {
        let rest = pairs.drop_last();
        let prev = subst_pairs(text, mark, rest);
        let pat = token_pat(mark, pairs.last().name@);
        let val = pairs.last().value@;
        lemma_table_wf_drop(mark, pairs);
        assert forall|k: int, l: int|
            0 <= k < rest.len() && 0 <= l < rest.len() implies !occurs(
            #[trigger] rest[k].value@,
            token_pat(mark, #[trigger] rest[l].name@),
        ) by {
            assert(rest[k] == pairs[k]);
            assert(rest[l] == pairs[l]);
        }
        lemma_subst_pairs_removes(text, mark, rest);
        lemma_subst_pairs_wf(text, mark, rest);
        lemma_token_pat_wf(mark, pairs.last().name@);
        assert forall|k: int| 0 <= k < pairs.len() implies !occurs(
            subst_pairs(text, mark, pairs),
            token_pat(mark, #[trigger] pairs[k].name@),
        ) by {
            let q = token_pat(mark, pairs[k].name@);
            lemma_token_pat_wf(mark, pairs[k].name@);
            if q == pat {
                lemma_replace_token(prev, pat, val, q);
            } else {
                assert(k < pairs.len() - 1 ==> rest[k] == pairs[k]);
                assert(!occurs(prev, q)) by {
                    if k < pairs.len() - 1 {
                    } else {
                        assert(pairs[k] == pairs.last());
                        assert(false);
                    }
                }
                lemma_replace_token(prev, pat, val, q);
            }
        }
    }
}

/// A token bound by no table entry survives substitution wherever it
/// occurred, provided no replacement value carries the pattern it is
/// replaced under.
pub proof fn lemma_subst_pairs_keeps_other(
    text: Seq<char>,
    mark: Seq<char>,
    pairs: Seq<Binding>,
    q: Seq<char>,
)
    requires
        tokens_wf(text),
        table_wf(mark, pairs),
        wf_token(q),
        occurs(text, q),
        forall|k: int| 0 <= k < pairs.len() ==> q != token_pat(mark, #[trigger] pairs[k].name@),
    ensures
        occurs(subst_pairs(text, mark, pairs), q),
    decreases pairs.len(),
{
    if pairs.len() > 0 {
        let rest = pairs.drop_last();
        lemma_table_wf_drop(mark, pairs);
        assert forall|k: int| 0 <= k < rest.len() implies q != token_pat(
            mark,
            #[trigger] rest[k].name@,
        ) by {
            assert(rest[k] == pairs[k]);
        }
        lemma_subst_pairs_keeps_other(text, mark, rest, q);
        lemma_subst_pairs_wf(text, mark, rest);
        lemma_token_pat_wf(mark, pairs.last().name@);
        lemma_replace_keeps_other(
            subst_pairs(text, mark, rest),
            token_pat(mark, pairs.last().name@),
            pairs.last().value@,
            q,
        );
    }
}

/// Text in which no token of the table occurs passes substitution
/// verbatim, whatever shape it has.
pub proof fn lemma_subst_pairs_absent(text: Seq<char>, mark: Seq<char>, pairs: Seq<Binding>)
    requires
        forall|k: int|
            0 <= k < pairs.len() ==> !occurs(text, token_pat(mark, #[trigger] pairs[k].name@)),
    ensures
        subst_pairs(text, mark, pairs) == text,
    decreases pairs.len(),
{
    if pairs.len() > 0 {
        assert forall|k: int| 0 <= k < pairs.drop_last().len() implies !occurs(
            text,
            token_pat(mark, #[trigger] pairs.drop_last()[k].name@),
        ) by {
            assert(pairs.drop_last()[k] == pairs[k]);
        }
        lemma_subst_pairs_absent(text, mark, pairs.drop_last());
        crate::text::lemma_replace_absent(
            text,
            token_pat(mark, pairs.last().name@),
            pairs.last().value@,
        );
    }
}

/// A table whose values are brace-free is fit for token reasoning and
/// its values carry no token at all.
pub proof fn lemma_plain_table_wf(mark: Seq<char>, pairs: Seq<Binding>)
    requires
        brace_free(mark),
        forall|k: int| 0 <= k < pairs.len() ==> brace_free(#[trigger] pairs[k].name@),
        forall|k: int| 0 <= k < pairs.len() ==> brace_free(#[trigger] pairs[k].value@),
    ensures
        table_wf(mark, pairs),
        forall|k: int, l: int|
            0 <= k < pairs.len() && 0 <= l < pairs.len() ==> !occurs(
                #[trigger] pairs[k].value@,
                token_pat(mark, #[trigger] pairs[l].name@),
            ),
        forall|k: int|
            0 <= k < pairs.len() ==> forall|q: Seq<char>|
                wf_token(q) ==> !occurs(#[trigger] pairs[k].value@, q),
{
    assert forall|k: int| 0 <= k < pairs.len() implies tokens_wf(#[trigger] pairs[k].value@) by {
        lemma_brace_free_wf(pairs[k].value@);
    }
    assert forall|k: int|
        0 <= k < pairs.len() implies forall|q: Seq<char>|
        wf_token(q) ==> !occurs(#[trigger] pairs[k].value@, q) by {
        assert forall|q: Seq<char>| wf_token(q) implies !occurs(pairs[k].value@, q) by {
            lemma_brace_free_no_token(pairs[k].value@, q);
        }
    }
    assert forall|k: int, l: int|
        0 <= k < pairs.len() && 0 <= l < pairs.len() implies !occurs(
        #[trigger] pairs[k].value@,
        token_pat(mark, #[trigger] pairs[l].name@),
    ) by {
        lemma_token_pat_wf(mark, pairs[l].name@);
        lemma_brace_free_no_token(pairs[k].value@, token_pat(mark, pairs[l].name@));
    }
}

/// Token idempotence of load-time substitution: once variables and
/// links have been substituted, no `{%name}` token of the variable
/// table and no `{$name}` token of the link table remains, and the
/// text is still token-well-formed. Holds for brace-free names and
/// values over token-well-formed text.
pub proof fn lemma_token_idempotence(text: Seq<char>, vars: Seq<Binding>, links: Seq<Binding>)
    requires
        tokens_wf(text),
        forall|k: int| 0 <= k < vars.len() ==> brace_free(#[trigger] vars[k].name@),
        forall|k: int| 0 <= k < vars.len() ==> brace_free(#[trigger] vars[k].value@),
        forall|k: int| 0 <= k < links.len() ==> brace_free(#[trigger] links[k].name@),
        forall|k: int| 0 <= k < links.len() ==> brace_free(#[trigger] links[k].value@),
    ensures
        tokens_wf(replace_vars_spec(text, vars, links)),
        forall|k: int|
            0 <= k < vars.len() ==> !occurs(
                replace_vars_spec(text, vars, links),
                token_pat(var_mark(), #[trigger] vars[k].name@),
            ),
        forall|k: int|
            0 <= k < links.len() ==> !occurs(
                replace_vars_spec(text, vars, links),
                token_pat(link_mark(), #[trigger] links[k].name@),
            ),
{
    reveal_strlit("%");
    reveal_strlit("$");
    assert(brace_free(var_mark()));
    assert(brace_free(link_mark()));
    lemma_plain_table_wf(var_mark(), vars);
    lemma_plain_table_wf(link_mark(), links);
    let t1 = subst_pairs(text, var_mark(), vars);
    lemma_subst_pairs_wf(text, var_mark(), vars);
    lemma_subst_pairs_removes(text, var_mark(), vars);
    lemma_subst_pairs_wf(t1, link_mark(), links);
    lemma_subst_pairs_removes(t1, link_mark(), links);
    let t2 = subst_pairs(t1, link_mark(), links);
    assert forall|k: int| 0 <= k < vars.len() implies !occurs(
        t2,
        token_pat(var_mark(), #[trigger] vars[k].name@),
    ) by {
        let q = token_pat(var_mark(), vars[k].name@);
        lemma_token_pat_wf(var_mark(), vars[k].name@);
        assert(forall|l: int| 0 <= l < links.len() ==> !occurs(#[trigger] links[l].value@, q));
        lemma_subst_pairs_keeps_absent(t1, link_mark(), links, q);
    }
}

/// Token idempotence of include expansion: after substitution no
/// `{.name}` token of the include table remains, provided no expanded
/// include text itself carries one — includes are not recursive — and
/// the text stays token-well-formed.
pub proof fn lemma_include_idempotence(text: Seq<char>, includes: Seq<Binding>)
    requires
        tokens_wf(text),
        forall|k: int| 0 <= k < includes.len() ==> brace_free(#[trigger] includes[k].name@),
        forall|k: int| 0 <= k < includes.len() ==> tokens_wf(#[trigger] includes[k].value@),
        forall|k: int, l: int|
            0 <= k < includes.len() && 0 <= l < includes.len() ==> !occurs(
                #[trigger] includes[k].value@,
                token_pat(crate::subst::include_mark(), #[trigger] includes[l].name@),
            ),
    ensures
        tokens_wf(crate::subst::insert_includes_spec(text, includes)),
        forall|k: int|
            0 <= k < includes.len() ==> !occurs(
                crate::subst::insert_includes_spec(text, includes),
                token_pat(crate::subst::include_mark(), #[trigger] includes[k].name@),
            ),
{
    reveal_strlit(".");
    assert(brace_free(crate::subst::include_mark()));
    lemma_subst_pairs_wf(text, crate::subst::include_mark(), includes);
    lemma_subst_pairs_removes(text, crate::subst::include_mark(), includes);
}

/// The load-time substitution of one line keeps it token-well-formed,
/// for brace-free variable and link tables and well-formed include
/// texts.
pub proof fn lemma_subst_line_wf(
    line: Seq<char>,
    vars: Seq<Binding>,
    links: Seq<Binding>,
    includes: Seq<Binding>,
)
    requires
        tokens_wf(line),
        forall|k: int| 0 <= k < vars.len() ==> brace_free(#[trigger] vars[k].name@),
        forall|k: int| 0 <= k < vars.len() ==> brace_free(#[trigger] vars[k].value@),
        forall|k: int| 0 <= k < links.len() ==> brace_free(#[trigger] links[k].name@),
        forall|k: int| 0 <= k < links.len() ==> brace_free(#[trigger] links[k].value@),
        forall|k: int| 0 <= k < includes.len() ==> brace_free(#[trigger] includes[k].name@),
        forall|k: int| 0 <= k < includes.len() ==> tokens_wf(#[trigger] includes[k].value@),
    ensures
        tokens_wf(crate::subst::subst_line(line, vars, links, includes)),
{
    reveal_strlit("%");
    reveal_strlit("$");
    reveal_strlit(".");
    lemma_plain_table_wf(var_mark(), vars);
    lemma_plain_table_wf(link_mark(), links);
    assert(brace_free(crate::subst::include_mark()));
    let a = if crate::text::occurs(line, "{$"@) || crate::text::occurs(line, "{%"@) {
        replace_vars_spec(line, vars, links)
    } else {
        line
    };
    assert(tokens_wf(a)) by {
        if crate::text::occurs(line, "{$"@) || crate::text::occurs(line, "{%"@) {
            lemma_subst_pairs_wf(line, var_mark(), vars);
            lemma_subst_pairs_wf(subst_pairs(line, var_mark(), vars), link_mark(), links);
        }
    }
    if crate::text::occurs(a, "{."@) {
        lemma_subst_pairs_wf(a, crate::subst::include_mark(), includes);
    }
}

/// Token idempotence at the level the parsers substitute: after the
/// load-time substitution of one line, no bound `{%var}`, `{$link}` or
/// `{.include}` token remains, whether or not the line triggered each
/// pass — a token that was never substituted cannot have been there.
/// Holds for brace-free variable and link tables over a
/// token-well-formed line, with include names brace-free and include
/// texts well-formed and free of the tables' tokens.
pub proof fn lemma_subst_line_idempotence(
    line: Seq<char>,
    vars: Seq<Binding>,
    links: Seq<Binding>,
    includes: Seq<Binding>,
)
    requires
        tokens_wf(line),
        forall|k: int| 0 <= k < vars.len() ==> brace_free(#[trigger] vars[k].name@),
        forall|k: int| 0 <= k < vars.len() ==> brace_free(#[trigger] vars[k].value@),
        forall|k: int| 0 <= k < links.len() ==> brace_free(#[trigger] links[k].name@),
        forall|k: int| 0 <= k < links.len() ==> brace_free(#[trigger] links[k].value@),
        forall|k: int| 0 <= k < includes.len() ==> brace_free(#[trigger] includes[k].name@),
        forall|k: int| 0 <= k < includes.len() ==> tokens_wf(#[trigger] includes[k].value@),
        forall|k: int, l: int|
            0 <= k < includes.len() && 0 <= l < includes.len() ==> !occurs(
                #[trigger] includes[k].value@,
                token_pat(crate::subst::include_mark(), #[trigger] includes[l].name@),
            ),
        forall|k: int, l: int|
            0 <= k < includes.len() && 0 <= l < vars.len() ==> !occurs(
                #[trigger] includes[k].value@,
                token_pat(var_mark(), #[trigger] vars[l].name@),
            ),
        forall|k: int, l: int|
            0 <= k < includes.len() && 0 <= l < links.len() ==> !occurs(
                #[trigger] includes[k].value@,
                token_pat(link_mark(), #[trigger] links[l].name@),
            ),
    ensures
        forall|k: int|
            0 <= k < vars.len() ==> !occurs(
                crate::subst::subst_line(line, vars, links, includes),
                token_pat(var_mark(), #[trigger] vars[k].name@),
            ),
        forall|k: int|
            0 <= k < links.len() ==> !occurs(
                crate::subst::subst_line(line, vars, links, includes),
                token_pat(link_mark(), #[trigger] links[k].name@),
            ),
        forall|k: int|
            0 <= k < includes.len() ==> !occurs(
                crate::subst::subst_line(line, vars, links, includes),
                token_pat(crate::subst::include_mark(), #[trigger] includes[k].name@),
            ),
{
    reveal_strlit("%");
    reveal_strlit("$");
    reveal_strlit(".");
    reveal_strlit("{");
    reveal_strlit("}");
    reveal_strlit("{%");
    reveal_strlit("{$");
    reveal_strlit("{.");
    lemma_plain_table_wf(var_mark(), vars);
    lemma_plain_table_wf(link_mark(), links);
    let tokenless = !(crate::text::has_char(line, '{') && crate::text::has_char(line, '}'));
    let a = if crate::text::occurs(line, "{$"@) || crate::text::occurs(line, "{%"@) {
        replace_vars_spec(line, vars, links)
    } else {
        line
    };
    // After the variable and link pass — taken or skipped — no bound
    // variable or link token stands in `a`, and `a` is well-formed.
    assert(tokens_wf(a)) by {
        if crate::text::occurs(line, "{$"@) || crate::text::occurs(line, "{%"@) {
            lemma_token_idempotence(line, vars, links);
        }
    }
    assert forall|k: int| 0 <= k < vars.len() implies !occurs(
        a,
        token_pat(var_mark(), #[trigger] vars[k].name@),
    ) by {
        let q = token_pat(var_mark(), vars[k].name@);
        if crate::text::occurs(line, "{$"@) || crate::text::occurs(line, "{%"@) {
            lemma_token_idempotence(line, vars, links);
        } else {
            if occurs(line, q) {
                assert(q.take(2) =~= "{%"@);
                assert(crate::text::has_prefix(q, "{%"@));
                crate::tokens::lemma_occurs_prefix(line, q, "{%"@);
            }
        }
    }
    assert forall|k: int| 0 <= k < links.len() implies !occurs(
        a,
        token_pat(link_mark(), #[trigger] links[k].name@),
    ) by {
        let q = token_pat(link_mark(), links[k].name@);
        if crate::text::occurs(line, "{$"@) || crate::text::occurs(line, "{%"@) {
            lemma_token_idempotence(line, vars, links);
        } else {
            if occurs(line, q) {
                assert(q.take(2) =~= "{$"@);
                assert(crate::text::has_prefix(q, "{$"@));
                crate::tokens::lemma_occurs_prefix(line, q, "{$"@);
            }
        }
    }
    let b = if crate::text::occurs(a, "{."@) {
        crate::subst::insert_includes_spec(a, includes)
    } else {
        a
    };
    // The include pass — taken or skipped — removes its own tokens and
    // brings back none of the others.
    assert forall|k: int| 0 <= k < includes.len() implies !occurs(
        b,
        token_pat(crate::subst::include_mark(), #[trigger] includes[k].name@),
    ) by {
        let q = token_pat(crate::subst::include_mark(), includes[k].name@);
        if crate::text::occurs(a, "{."@) {
            lemma_include_idempotence(a, includes);
        } else {
            if occurs(a, q) {
                assert(q.take(2) =~= "{."@);
                assert(crate::text::has_prefix(q, "{."@));
                crate::tokens::lemma_occurs_prefix(a, q, "{."@);
            }
        }
    }
    assert forall|k: int| 0 <= k < vars.len() implies !occurs(
        b,
        token_pat(var_mark(), #[trigger] vars[k].name@),
    ) by {
        if crate::text::occurs(a, "{."@) {
            let q = token_pat(var_mark(), vars[k].name@);
            lemma_token_pat_wf(var_mark(), vars[k].name@);
            lemma_subst_pairs_keeps_absent(a, crate::subst::include_mark(), includes, q);
        }
    }
    assert forall|k: int| 0 <= k < links.len() implies !occurs(
        b,
        token_pat(link_mark(), #[trigger] links[k].name@),
    ) by {
        if crate::text::occurs(a, "{."@) {
            let q = token_pat(link_mark(), links[k].name@);
            lemma_token_pat_wf(link_mark(), links[k].name@);
            lemma_subst_pairs_keeps_absent(a, crate::subst::include_mark(), includes, q);
        }
    }
    // A line that can hold no token at all is returned unchanged and
    // holds no token afterwards either.
    if tokenless {
        assert(crate::subst::subst_line(line, vars, links, includes) == line);
        assert forall|k: int| 0 <= k < vars.len() implies !occurs(
            line,
            token_pat(var_mark(), #[trigger] vars[k].name@),
        ) by {
            let q = token_pat(var_mark(), vars[k].name@);
            if occurs(line, q) {
                let i = choose|i: int| occurs_at(line, q, i);
                assert(line.subrange(i, i + q.len() as int)[0] == q[0]);
                assert(crate::text::has_char(line, '{'));
                assert(line.subrange(i, i + q.len() as int)[q.len() - 1] == q[q.len() - 1]);
                assert(line[i + q.len() - 1] == '}');
                assert(crate::text::has_char(line, '}'));
            }
        }
        assert forall|k: int| 0 <= k < links.len() implies !occurs(
            line,
            token_pat(link_mark(), #[trigger] links[k].name@),
        ) by {
            let q = token_pat(link_mark(), links[k].name@);
            if occurs(line, q) {
                let i = choose|i: int| occurs_at(line, q, i);
                assert(line.subrange(i, i + q.len() as int)[0] == q[0]);
                assert(crate::text::has_char(line, '{'));
                assert(line.subrange(i, i + q.len() as int)[q.len() - 1] == q[q.len() - 1]);
                assert(line[i + q.len() - 1] == '}');
                assert(crate::text::has_char(line, '}'));
            }
        }
        assert forall|k: int| 0 <= k < includes.len() implies !occurs(
            line,
            token_pat(crate::subst::include_mark(), #[trigger] includes[k].name@),
        ) by {
            let q = token_pat(crate::subst::include_mark(), includes[k].name@);
            if occurs(line, q) {
                let i = choose|i: int| occurs_at(line, q, i);
                assert(line.subrange(i, i + q.len() as int)[0] == q[0]);
                assert(crate::text::has_char(line, '{'));
                assert(line.subrange(i, i + q.len() as int)[q.len() - 1] == q[q.len() - 1]);
                assert(line[i + q.len() - 1] == '}');
                assert(crate::text::has_char(line, '}'));
            }
        }
    } else {
        assert(crate::subst::subst_line(line, vars, links, includes) == b);
    }
}

/// The token a resource entry resolves during rendering.
pub open spec fn resource_tok(name: Seq<char>) -> Seq<char> {
    "{$"@ + trimmed(name) + "}"@
}

proof fn lemma_resource_tok_wf(name: Seq<char>)
    requires
        brace_free(name),
    ensures
        wf_token(resource_tok(name)),
{
    reveal_strlit("{$");
    reveal_strlit("}");
    lemma_trimmed_brace_free(name);
    let t = resource_tok(name);
    let tn = trimmed(name);
    assert(t.len() >= 2);
    assert(t[0] == '{');
    assert(t.last() == '}');
    assert forall|i: int| 0 <= i < t.len() - 2 implies #[trigger] t.subrange(1, t.len() - 1)[i]
        != '{' && t.subrange(1, t.len() - 1)[i] != '}' by {
        assert(t.subrange(1, t.len() - 1)[i] == t[i + 1]);
        if i == 0 {
            assert(t[1] == '$');
        } else {
            assert(t[i + 1] == tn[i - 1]);
        }
    }
}

/// Token idempotence of the render-time resource pass: after it, no
/// `{$file}` token of the resource table remains, for brace-free file
/// names and site paths over token-well-formed text.
pub proof fn lemma_resource_idempotence(out: Seq<char>, res: Seq<(Seq<char>, Seq<char>)>)
    requires
        tokens_wf(out),
        forall|k: int| 0 <= k < res.len() ==> brace_free(#[trigger] res[k].0),
        forall|k: int| 0 <= k < res.len() ==> brace_free(#[trigger] res[k].1),
    ensures
        tokens_wf(apply_resources(out, res)),
        forall|k: int|
            0 <= k < res.len() ==> !occurs(apply_resources(out, res), resource_tok(
                #[trigger] res[k].0,
            )),
    decreases res.len(),
{
    if res.len() > 0 {
        let rest = res.drop_last();
        let prev = apply_resources(out, rest);
        let pat = resource_tok(res.last().0);
        let val = res.last().1;
        lemma_resource_idempotence(out, rest);
        lemma_resource_tok_wf(res.last().0);
        lemma_brace_free_wf(val);
        lemma_replace_wf(prev, pat, val);
        assert forall|k: int| 0 <= k < res.len() implies !occurs(
            apply_resources(out, res),
            resource_tok(#[trigger] res[k].0),
        ) by {
            let q = resource_tok(res[k].0);
            lemma_resource_tok_wf(res[k].0);
            lemma_brace_free_no_token(val, q);
            if q == pat {
                lemma_replace_token(prev, pat, val, q);
            } else {
                assert(!occurs(prev, q)) by {
                    if k < res.len() - 1 {
                        assert(rest[k] == res[k]);
                    } else {
                        assert(res[k] == res.last());
                        assert(false);
                    }
                }
                lemma_replace_token(prev, pat, val, q);
            }
        }
    }
}

/// Resolving an inheritance chain gives one answer however it is
/// flattened: substituting the middle body into the root first and the
/// leaf after equals substituting the leaf into the middle first. Head
/// tag and block lists concatenate associatively alongside. Holds for
/// token-well-formed bodies.
pub proof fn lemma_resolution_order(
    a: Seq<char>,
    b: Seq<char>,
    c: Seq<char>,
    ha: Seq<Seq<char>>,
    hb: Seq<Seq<char>>,
    hc: Seq<Seq<char>>,
)
    requires
        tokens_wf(a),
        tokens_wf(b),
        tokens_wf(c),
    ensures
        replace_all(replace_all(c, "{content}"@, b), "{content}"@, a) == replace_all(
            c,
            "{content}"@,
            replace_all(b, "{content}"@, a),
        ),
        (ha + hb) + hc == ha + (hb + hc),
{
    reveal_strlit("{content}");
    let t = "{content}"@;
    assert(wf_token(t)) by {
        assert(t.len() == 9);
        assert(t[0] == '{');
        assert(t[8] == '}');
        assert(t[1] == 'c');
        assert(t[2] == 'o');
        assert(t[3] == 'n');
        assert(t[4] == 't');
        assert(t[5] == 'e');
        assert(t[6] == 'n');
        assert(t[7] == 't');
        assert forall|i: int| 0 <= i < 7 implies #[trigger] t.subrange(1, 8)[i] != '{' && t.subrange(
            1,
            8,
        )[i] != '}' by {
            assert(t.subrange(1, 8)[i] == t[i + 1]);
        }
    }
    crate::tokens::lemma_replace_assoc(c, t, b, a);
    assert((ha + hb) + hc =~= ha + (hb + hc));
}

/// For a three-template chain the resolver computes, parents first,
/// the leaf body substituted into the middle's resolution of the root;
/// by the order law this is also what flattening the leaf into the
/// middle first and resolving afterwards would give.
pub proof fn lemma_chain_two_strategies(ts: Seq<crate::model::Template>, leaf: int, mid: int, root: int, fuel: nat)
    requires
        0 <= leaf < ts.len(),
        0 <= mid < ts.len(),
        0 <= root < ts.len(),
        ts[leaf].inherit@.len() > 0,
        crate::inherit::find_tpl(ts, ts[leaf].inherit@) == mid,
        ts[mid].inherit@.len() > 0,
        crate::inherit::find_tpl(ts, ts[mid].inherit@) == root,
        ts[root].inherit@.len() == 0,
        fuel >= 2,
        tokens_wf(ts[leaf].content@),
        tokens_wf(ts[mid].content@),
        tokens_wf(ts[root].content@),
    ensures
        crate::inherit::resolve_rec(ts, leaf, fuel) matches crate::inherit::Resolved::Done {
            content,
            ..
        } && content == replace_all(
            replace_all(ts[root].content@, "{content}"@, ts[mid].content@),
            "{content}"@,
            ts[leaf].content@,
        ) && content == replace_all(
            ts[root].content@,
            "{content}"@,
            replace_all(ts[mid].content@, "{content}"@, ts[leaf].content@),
        ),
{
    let s = "{content}"@;
    assert(crate::inherit::resolve_rec(ts, root, (fuel - 2) as nat) matches
        crate::inherit::Resolved::Done { content, .. } && content == ts[root].content@);
    assert(crate::inherit::resolve_rec(ts, mid, (fuel - 1) as nat) matches
        crate::inherit::Resolved::Done { content, .. } && content == replace_all(
        ts[root].content@,
        s,
        ts[mid].content@,
    ));
    lemma_resolution_order(
        ts[leaf].content@,
        ts[mid].content@,
        ts[root].content@,
        seq![],
        seq![],
        seq![],
    );
}

/// Same-named page blocks fill their slot in declaration order: the
/// fill of a concatenation of block lists is the concatenation of the
/// fills.
pub proof fn lemma_block_ordering(
    body: Seq<char>,
    name: Seq<char>,
    bs1: Seq<(Seq<char>, Seq<(Seq<char>, Seq<char>)>)>,
    bs2: Seq<(Seq<char>, Seq<(Seq<char>, Seq<char>)>)>,
)
    ensures
        blocks_fill(body, name, bs1 + bs2) == blocks_fill(body, name, bs1) + blocks_fill(
            body,
            name,
            bs2,
        ),
    decreases bs2.len(),
{
    if bs2.len() == 0 {
        assert(bs1 + bs2 =~= bs1);
        assert(blocks_fill(body, name, bs1) + blocks_fill(body, name, bs2) =~= blocks_fill(
            body,
            name,
            bs1,
        ));
    } else {
        assert((bs1 + bs2).drop_last() =~= bs1 + bs2.drop_last());
        assert((bs1 + bs2).last() == bs2.last());
        lemma_block_ordering(body, name, bs1, bs2.drop_last());
        let fill_last = if bs2.last().0 == name {
            subst_parts(body, bs2.last().1)
        } else {
            Seq::<char>::empty()
        };
        assert((blocks_fill(body, name, bs1) + blocks_fill(body, name, bs2.drop_last()))
            + fill_last =~= blocks_fill(body, name, bs1) + (blocks_fill(body, name, bs2.drop_last())
            + fill_last));
    }
}

/// Two blocks of the same name render as their filled bodies
/// concatenated, first declared first.
pub proof fn lemma_two_blocks_in_order(
    body: Seq<char>,
    name: Seq<char>,
    first_parts: Seq<(Seq<char>, Seq<char>)>,
    second_parts: Seq<(Seq<char>, Seq<char>)>,
)
    ensures
        blocks_fill(body, name, seq![(name, first_parts), (name, second_parts)]) == subst_parts(body, first_parts)
            + subst_parts(body, second_parts),
{
    let bs = seq![(name, first_parts), (name, second_parts)];
    let one = seq![(name, first_parts)];
    assert(bs.last() == (name, second_parts));
    assert(bs.drop_last() =~= one);
    assert(blocks_fill(body, name, bs) == blocks_fill(body, name, one) + subst_parts(body, second_parts));
    assert(one.last() == (name, first_parts));
    assert(one.drop_last() =~= Seq::<(Seq<char>, Seq<(Seq<char>, Seq<char>)>)>::empty());
    assert(blocks_fill(body, name, one.drop_last()) == Seq::<char>::empty());
    assert(blocks_fill(body, name, one) == Seq::<char>::empty() + subst_parts(body, first_parts));
    assert(Seq::<char>::empty() + subst_parts(body, first_parts) =~= subst_parts(body, first_parts));
}

/// Text free of every bound `{%var}`, `{$link}` and `{.include}`
/// token.
pub open spec fn text_resolved(
    s: Seq<char>,
    vars: Seq<Binding>,
    links: Seq<Binding>,
    includes: Seq<Binding>,
) -> bool {
    &&& forall|k: int|
        0 <= k < vars.len() ==> !occurs(s, token_pat(var_mark(), #[trigger] vars[k].name@))
    &&& forall|k: int|
        0 <= k < links.len() ==> !occurs(s, token_pat(link_mark(), #[trigger] links[k].name@))
    &&& forall|k: int|
        0 <= k < includes.len() ==> !occurs(
            s,
            token_pat(crate::subst::include_mark(), #[trigger] includes[k].name@),
        )
}

/// Text fit to appear in a parsed entity: token-well-formed and free
/// of every bound token.
pub open spec fn text_clean(
    s: Seq<char>,
    vars: Seq<Binding>,
    links: Seq<Binding>,
    includes: Seq<Binding>,
) -> bool {
    &&& tokens_wf(s)
    &&& text_resolved(s, vars, links, includes)
}

/// Every contiguous part of resolved text is resolved.
pub proof fn lemma_resolved_subrange(
    s: Seq<char>,
    lo: int,
    hi: int,
    vars: Seq<Binding>,
    links: Seq<Binding>,
    includes: Seq<Binding>,
)
    requires
        0 <= lo <= hi <= s.len(),
        text_resolved(s, vars, links, includes),
    ensures
        text_resolved(s.subrange(lo, hi), vars, links, includes),
{
    let part = s.subrange(lo, hi);
    assert forall|q: Seq<char>| occurs(part, q) implies occurs(s, q) by {
        let i = choose|i: int| occurs_at(part, q, i);
        assert(s.subrange(lo + i, lo + i + q.len() as int) =~= part.subrange(
            i,
            i + q.len() as int,
        ));
        assert(occurs_at(s, q, lo + i));
    }
}

/// The shape the loaders give the three tables: plain variable and
/// link entries, and include texts that are well-formed and — includes
/// being substituted once and never recursive — free of every bound
/// token.
pub open spec fn tables_plain(
    vars: Seq<Binding>,
    links: Seq<Binding>,
    includes: Seq<Binding>,
) -> bool {
    &&& forall|k: int| 0 <= k < vars.len() ==> brace_free(#[trigger] vars[k].name@)
    &&& forall|k: int| 0 <= k < vars.len() ==> brace_free(#[trigger] vars[k].value@)
    &&& forall|k: int| 0 <= k < links.len() ==> brace_free(#[trigger] links[k].name@)
    &&& forall|k: int| 0 <= k < links.len() ==> brace_free(#[trigger] links[k].value@)
    &&& forall|k: int| 0 <= k < includes.len() ==> brace_free(#[trigger] includes[k].name@)
    &&& forall|k: int| 0 <= k < includes.len() ==> text_clean(
        #[trigger] includes[k].value@,
        vars,
        links,
        includes,
    )
}

/// Brace-free text is clean.
pub proof fn lemma_brace_free_clean(
    s: Seq<char>,
    vars: Seq<Binding>,
    links: Seq<Binding>,
    includes: Seq<Binding>,
)
    requires
        brace_free(s),
        tables_plain(vars, links, includes),
    ensures
        text_clean(s, vars, links, includes),
{
    reveal_strlit("%");
    reveal_strlit("$");
    reveal_strlit(".");
    lemma_brace_free_wf(s);
    assert forall|k: int| 0 <= k < vars.len() implies !occurs(
        s,
        token_pat(var_mark(), #[trigger] vars[k].name@),
    ) by {
        lemma_token_pat_wf(var_mark(), vars[k].name@);
        lemma_brace_free_no_token(s, token_pat(var_mark(), vars[k].name@));
    }
    assert forall|k: int| 0 <= k < links.len() implies !occurs(
        s,
        token_pat(link_mark(), #[trigger] links[k].name@),
    ) by {
        lemma_token_pat_wf(link_mark(), links[k].name@);
        lemma_brace_free_no_token(s, token_pat(link_mark(), links[k].name@));
    }
    assert forall|k: int| 0 <= k < includes.len() implies !occurs(
        s,
        token_pat(crate::subst::include_mark(), #[trigger] includes[k].name@),
    ) by {
        lemma_token_pat_wf(crate::subst::include_mark(), includes[k].name@);
        lemma_brace_free_no_token(s, token_pat(crate::subst::include_mark(), includes[k].name@));
    }
}

/// A concatenation of clean texts is clean.
pub proof fn lemma_clean_concat(
    a: Seq<char>,
    b: Seq<char>,
    vars: Seq<Binding>,
    links: Seq<Binding>,
    includes: Seq<Binding>,
)
    requires
        text_clean(a, vars, links, includes),
        text_clean(b, vars, links, includes),
        tables_plain(vars, links, includes),
    ensures
        text_clean(a + b, vars, links, includes),
{
    reveal_strlit("%");
    reveal_strlit("$");
    reveal_strlit(".");
    crate::tokens::lemma_wf_concat(a, b);
    assert forall|k: int| 0 <= k < vars.len() implies !occurs(
        a + b,
        token_pat(var_mark(), #[trigger] vars[k].name@),
    ) by {
        lemma_token_pat_wf(var_mark(), vars[k].name@);
        crate::tokens::lemma_occurs_split(a, b, token_pat(var_mark(), vars[k].name@));
    }
    assert forall|k: int| 0 <= k < links.len() implies !occurs(
        a + b,
        token_pat(link_mark(), #[trigger] links[k].name@),
    ) by {
        lemma_token_pat_wf(link_mark(), links[k].name@);
        crate::tokens::lemma_occurs_split(a, b, token_pat(link_mark(), links[k].name@));
    }
    assert forall|k: int| 0 <= k < includes.len() implies !occurs(
        a + b,
        token_pat(crate::subst::include_mark(), #[trigger] includes[k].name@),
    ) by {
        lemma_token_pat_wf(crate::subst::include_mark(), includes[k].name@);
        crate::tokens::lemma_occurs_split(
            a,
            b,
            token_pat(crate::subst::include_mark(), includes[k].name@),
        );
    }
}

/// Trimming well-formed text leaves it well-formed.
pub proof fn lemma_trimmed_wf(s: Seq<char>)
    requires
        tokens_wf(s),
    ensures
        tokens_wf(trimmed(s)),
{
    lemma_trim_front_wf(s);
    lemma_trim_back_wf(trim_front(s));
}

proof fn lemma_trim_front_wf(s: Seq<char>)
    requires
        tokens_wf(s),
    ensures
        tokens_wf(trim_front(s)),
    decreases s.len(),
{
    if s.len() > 0 && crate::text::is_ws(s[0]) {
        lemma_trim_front_wf(s.skip(1));
    }
}

proof fn lemma_trim_back_wf(s: Seq<char>)
    requires
        tokens_wf(s),
    ensures
        tokens_wf(trim_back(s)),
    decreases s.len(),
{
    if s.len() > 0 && crate::text::is_ws(s.last()) {
        crate::tokens::lemma_wf_drop_last(s);
        lemma_trim_back_wf(s.drop_last());
    }
}

/// The load-time substitution of a well-formed line yields clean text.
pub proof fn lemma_subst_line_clean(
    line: Seq<char>,
    vars: Seq<Binding>,
    links: Seq<Binding>,
    includes: Seq<Binding>,
)
    requires
        tokens_wf(line),
        tables_plain(vars, links, includes),
    ensures
        text_clean(crate::subst::subst_line(line, vars, links, includes), vars, links, includes),
{
    lemma_subst_line_wf(line, vars, links, includes);
    lemma_subst_line_idempotence(line, vars, links, includes);
}

/// What the renderer splices in at `<head>`: the tag itself, the
/// `<title>` holding the trimmed page title, and the global head tags.
pub open spec fn head_insert(title: Seq<char>, globals: Seq<Seq<char>>) -> Seq<char> {
    "<head>"@ + "\n<title>"@ + trimmed(title) + "</title>"@ + crate::render::led_join(globals)
}

/// Global head insertion: when `<head>` occurs exactly once in the
/// page text, the insertion step splices the title and global tags in
/// right after it, and `<title>` then occurs exactly once — inside
/// `<head>`, holding the trimmed page title. Holds when no `<title>`
/// stands in the page text, the title or the joined global tags, the
/// title carries no `<`, and the joined tags end in `>`.
#[verifier::rlimit(50)]
pub proof fn lemma_global_head_insertion(
    pre: Seq<char>,
    post: Seq<char>,
    title: Seq<char>,
    globals: Seq<Seq<char>>,
)
    requires
        forall|i: int| i != pre.len() ==> !occurs_at(pre + "<head>"@ + post, "<head>"@, i),
        !occurs(pre, "<title>"@),
        !occurs(post, "<title>"@),
        !occurs(crate::render::led_join(globals), "<title>"@),
        forall|i: int| 0 <= i < trimmed(title).len() ==> trimmed(title)[i] != '<',
        crate::render::led_join(globals).len() > 0 ==> crate::render::led_join(globals).last()
            == '>',
    ensures
        replace_all(pre + "<head>"@ + post, "<head>"@, head_insert(title, globals)) == pre
            + "<head>"@ + "\n<title>"@ + trimmed(title) + "</title>"@ + crate::render::led_join(
            globals,
        ) + post,
        forall|i: int|
            occurs_at(
                replace_all(pre + "<head>"@ + post, "<head>"@, head_insert(title, globals)),
                "<title>"@,
                i,
            ) <==> i == pre.len() + 7,
{
    reveal_strlit("<head>");
    reveal_strlit("<title>");
    reveal_strlit("\n<title>");
    reveal_strlit("</title>");
    let hd = "<head>"@;
    let tl = "<title>"@;
    let nt = "\n<title>"@;
    let ct = "</title>"@;
    let tt = trimmed(title);
    let g = crate::render::led_join(globals);
    assert(hd.len() == 6 && tl.len() == 7 && nt.len() == 8 && ct.len() == 8);
    assert(hd[0] == '<' && hd[1] == 'h' && hd[2] == 'e' && hd[3] == 'a' && hd[4] == 'd' && hd[5]
        == '>');
    assert(tl[0] == '<' && tl[1] == 't' && tl[2] == 'i' && tl[3] == 't' && tl[4] == 'l' && tl[5]
        == 'e' && tl[6] == '>');
    assert(nt[0] == '\n' && nt[1] == '<' && nt[2] == 't' && nt[3] == 'i' && nt[4] == 't' && nt[5]
        == 'l' && nt[6] == 'e' && nt[7] == '>');
    assert(ct[0] == '<' && ct[1] == '/' && ct[2] == 't' && ct[3] == 'i' && ct[4] == 't' && ct[5]
        == 'l' && ct[6] == 'e' && ct[7] == '>');
    let rep = head_insert(title, globals);
    crate::tokens::lemma_replace_single(pre, hd, post, rep);
    let p = pre.len() as int;
    let s1 = pre + hd;
    let s2 = s1 + nt;
    let s3 = s2 + tt;
    let s4 = s3 + ct;
    let s5 = s4 + g;
    let rr = s5 + post;
    assert(pre + rep + post =~= rr);
    let l3 = p + 14 + tt.len() as int;
    let l4 = l3 + 8;
    let l5 = l4 + g.len() as int;
    assert(rr.len() == l5 + post.len());
    assert forall|x: int| 0 <= x < rr.len() implies rr[x] == if x < p {
        pre[x]
    } else if x < p + 6 {
        hd[x - p]
    } else if x < p + 14 {
        nt[x - (p + 6)]
    } else if x < l3 {
        tt[x - (p + 14)]
    } else if x < l4 {
        ct[x - l3]
    } else if x < l5 {
        g[x - l4]
    } else {
        post[x - l5]
    } by {
        assert(s1.len() == p + 6);
        assert(s2.len() == p + 14);
        assert(s3.len() == l3);
        assert(s4.len() == l4);
        assert(s5.len() == l5);
    }
    assert(occurs_at(rr, tl, p + 7)) by {
        assert forall|k: int| 0 <= k < 7 implies rr.subrange(p + 7, p + 14)[k] == tl[k] by {
            assert(rr.subrange(p + 7, p + 14)[k] == rr[p + 7 + k]);
            assert(rr[p + 7 + k] == nt[k + 1]);
        }
        assert(rr.subrange(p + 7, p + 14) =~= tl);
    }
    assert forall|i: int| #[trigger] occurs_at(rr, tl, i) && i != p + 7 implies false by {
        assert forall|k: int| 0 <= k < 7 implies rr[i + k] == tl[k] by {
            assert(rr.subrange(i, i + 7)[k] == rr[i + k]);
            assert(rr.subrange(i, i + 7)[k] == tl[k]);
        }
        assert(rr[i] == '<');
        if i + 7 <= p {
            assert(pre.subrange(i, i + 7) =~= rr.subrange(i, i + 7));
            assert(occurs_at(pre, tl, i));
        } else if i < p {
            assert(rr[p] == '<');
            assert(tl[p - i] == '<');
        } else if i == p {
            assert(rr[p + 1] == 'h');
            assert(tl[1] == 't');
        } else if i < p + 6 {
            assert(rr[i] == hd[i - p]);
        } else if i == p + 6 {
            assert(rr[i] == nt[0]);
        } else if i < p + 14 {
            assert(rr[i] == nt[i - (p + 6)]);
        } else if i < l3 {
            assert(rr[i] == tt[i - (p + 14)]);
        } else if i < l4 {
            if i == l3 {
                assert(rr[i + 1] == ct[1]);
                assert(tl[1] == 't');
            } else {
                assert(rr[i] == ct[i - l3]);
            }
        } else if i + 7 <= l5 {
            assert(g.subrange(i - l4, i - l4 + 7) =~= rr.subrange(i, i + 7));
            assert(occurs_at(g, tl, i - l4));
        } else if i < l5 {
            assert(g.len() > 0);
            assert(rr[l5 - 1] == g[g.len() - 1]);
            assert(g.last() == '>');
            assert(tl[l5 - 1 - i] == '>');
            assert(l5 - 1 - i == 6);
        } else {
            assert(i + 7 <= rr.len());
            assert(post.subrange(i - l5, i - l5 + 7) =~= rr.subrange(i, i + 7));
            assert(occurs_at(post, tl, i - l5));
        }
    }
}

/// The empty text is clean.
proof fn lemma_empty_clean(vars: Seq<Binding>, links: Seq<Binding>, includes: Seq<Binding>)
    requires
        tables_plain(vars, links, includes),
    ensures
        text_clean(Seq::<char>::empty(), vars, links, includes),
{
    lemma_brace_free_clean(Seq::<char>::empty(), vars, links, includes);
}

/// Extending a body accumulator with a clean line keeps it clean.
proof fn lemma_joined_clean(
    acc: Seq<char>,
    started: bool,
    line: Seq<char>,
    vars: Seq<Binding>,
    links: Seq<Binding>,
    includes: Seq<Binding>,
)
    requires
        text_clean(acc, vars, links, includes),
        text_clean(line, vars, links, includes),
        tables_plain(vars, links, includes),
    ensures
        text_clean(crate::template::joined(acc, started, line), vars, links, includes),
{
    if started {
        reveal_strlit("\n");
        assert(brace_free("\n"@));
        lemma_brace_free_clean("\n"@, vars, links, includes);
        lemma_clean_concat(acc, "\n"@, vars, links, includes);
        lemma_clean_concat(acc + "\n"@, line, vars, links, includes);
    }
}

/// A head tag built around a clean file name is clean.
proof fn lemma_css_tag_clean(
    file: Seq<char>,
    vars: Seq<Binding>,
    links: Seq<Binding>,
    includes: Seq<Binding>,
)
    requires
        text_clean(file, vars, links, includes),
        tables_plain(vars, links, includes),
    ensures
        text_clean(crate::model::css_tag(file), vars, links, includes),
{
    reveal_strlit("<link rel='stylesheet' type='text/css' href='resources/css/");
    reveal_strlit("'>");
    let pre = "<link rel='stylesheet' type='text/css' href='resources/css/"@;
    let post = "'>"@;
    assert(brace_free(pre));
    assert(brace_free(post));
    lemma_brace_free_clean(pre, vars, links, includes);
    lemma_brace_free_clean(post, vars, links, includes);
    lemma_clean_concat(pre, file, vars, links, includes);
    lemma_clean_concat(pre + file, post, vars, links, includes);
}

/// A script tag built around a clean file name is clean.
proof fn lemma_js_tag_clean(
    file: Seq<char>,
    vars: Seq<Binding>,
    links: Seq<Binding>,
    includes: Seq<Binding>,
)
    requires
        text_clean(file, vars, links, includes),
        tables_plain(vars, links, includes),
    ensures
        text_clean(crate::model::js_tag(file), vars, links, includes),
{
    reveal_strlit("<script type='text/javascript' src='resources/js/");
    reveal_strlit("'></script>");
    let pre = "<script type='text/javascript' src='resources/js/"@;
    let post = "'></script>"@;
    assert(brace_free(pre));
    assert(brace_free(post));
    lemma_brace_free_clean(pre, vars, links, includes);
    lemma_brace_free_clean(post, vars, links, includes);
    lemma_clean_concat(pre, file, vars, links, includes);
    lemma_clean_concat(pre + file, post, vars, links, includes);
}

/// Every text a template parser state carries is clean.
pub open spec fn tpl_state_clean(
    st: crate::template::TplState,
    vars: Seq<Binding>,
    links: Seq<Binding>,
    includes: Seq<Binding>,
) -> bool {
    &&& forall|i: int|
        0 <= i < st.head.len() ==> text_clean(#[trigger] st.head[i], vars, links, includes)
    &&& forall|i: int|
        0 <= i < st.blocks.len() ==> text_clean((#[trigger] st.blocks[i]).0, vars, links, includes)
            && text_clean(st.blocks[i].1, vars, links, includes)
    &&& text_clean(st.blk_name, vars, links, includes)
    &&& text_clean(st.blk_body, vars, links, includes)
    &&& text_clean(st.content, vars, links, includes)
}

proof fn lemma_tpl_init_clean(
    mode: crate::template::ParseMode,
    vars: Seq<Binding>,
    links: Seq<Binding>,
    includes: Seq<Binding>,
)
    requires
        tables_plain(vars, links, includes),
    ensures
        tpl_state_clean(crate::template::tpl_init(mode), vars, links, includes),
{
    lemma_empty_clean(vars, links, includes);
}

/// One parser step started from a clean state on a well-formed line
/// ends in a clean state.
proof fn lemma_tpl_step_clean(
    st: crate::template::TplState,
    line: Seq<char>,
    vars: Seq<Binding>,
    links: Seq<Binding>,
    includes: Seq<Binding>,
)
    requires
        tpl_state_clean(st, vars, links, includes),
        tokens_wf(line),
        tables_plain(vars, links, includes),
    ensures
        tpl_state_clean(
            crate::template::tpl_step(st, line, vars, links, includes),
            vars,
            links,
            includes,
        ),
{
    let st2 = crate::template::tpl_step(st, line, vars, links, includes);
    let sub_raw = crate::subst::subst_line(line, vars, links, includes);
    if st.mode is Content && st.content_started {
        lemma_subst_line_clean(line, vars, links, includes);
        lemma_joined_clean(st.content, true, sub_raw, vars, links, includes);
    } else {
        let t = trimmed(line);
        lemma_trimmed_wf(line);
        let sub = crate::subst::subst_line(t, vars, links, includes);
        lemma_subst_line_clean(t, vars, links, includes);
        if t == "css"@ || t == "js"@ || t == "blocks"@ {
        } else if t.len() == 0 {
            if st.mode is Blocks {
                lemma_empty_clean(vars, links, includes);
                assert forall|i: int| 0 <= i < st2.blocks.len() implies text_clean(
                    (#[trigger] st2.blocks[i]).0,
                    vars,
                    links,
                    includes,
                ) && text_clean(st2.blocks[i].1, vars, links, includes) by {
                    if st.blk_open && i == st.blocks.len() {
                        assert(st2.blocks[i] == (st.blk_name, st.blk_body));
                    } else {
                        assert(st2.blocks[i] == st.blocks[i]);
                    }
                }
            }
        } else {
            match st.mode {
                crate::template::ParseMode::Css => {
                    lemma_css_tag_clean(sub, vars, links, includes);
                    assert forall|i: int| 0 <= i < st2.head.len() implies text_clean(
                        #[trigger] st2.head[i],
                        vars,
                        links,
                        includes,
                    ) by {
                        if i < st.head.len() {
                            assert(st2.head[i] == st.head[i]);
                        } else {
                            assert(st2.head[i] == crate::model::css_tag(sub));
                        }
                    }
                },
                crate::template::ParseMode::Js => {
                    lemma_js_tag_clean(sub, vars, links, includes);
                    assert forall|i: int| 0 <= i < st2.head.len() implies text_clean(
                        #[trigger] st2.head[i],
                        vars,
                        links,
                        includes,
                    ) by {
                        if i < st.head.len() {
                            assert(st2.head[i] == st.head[i]);
                        } else {
                            assert(st2.head[i] == crate::model::js_tag(sub));
                        }
                    }
                },
                crate::template::ParseMode::Blocks => {
                    if crate::text::has_prefix(line, "\t\t"@) || crate::text::has_prefix(
                        line,
                        "        "@,
                    ) {
                        if st.blk_open {
                            lemma_joined_clean(
                                st.blk_body,
                                st.blk_body_started,
                                sub,
                                vars,
                                links,
                                includes,
                            );
                        }
                    } else {
                        lemma_empty_clean(vars, links, includes);
                        assert forall|i: int| 0 <= i < st2.blocks.len() implies text_clean(
                            (#[trigger] st2.blocks[i]).0,
                            vars,
                            links,
                            includes,
                        ) && text_clean(st2.blocks[i].1, vars, links, includes) by {
                            if st.blk_open && i == st.blocks.len() {
                                assert(st2.blocks[i] == (st.blk_name, st.blk_body));
                            } else {
                                assert(st2.blocks[i] == st.blocks[i]);
                            }
                        }
                    }
                },
                crate::template::ParseMode::Content => {
                    lemma_subst_line_clean(line, vars, links, includes);
                },
                _ => {},
            }
        }
    }
}

proof fn lemma_tpl_fold_clean(
    st: crate::template::TplState,
    ls: Seq<Seq<char>>,
    vars: Seq<Binding>,
    links: Seq<Binding>,
    includes: Seq<Binding>,
)
    requires
        tpl_state_clean(st, vars, links, includes),
        forall|i: int| 0 <= i < ls.len() ==> tokens_wf(#[trigger] ls[i]),
        tables_plain(vars, links, includes),
    ensures
        tpl_state_clean(
            crate::template::tpl_fold(st, ls, vars, links, includes),
            vars,
            links,
            includes,
        ),
    decreases ls.len(),
{
    if ls.len() > 0 {
        assert forall|i: int| 0 <= i < ls.drop_last().len() implies tokens_wf(
            #[trigger] ls.drop_last()[i],
        ) by {
            assert(ls.drop_last()[i] == ls[i]);
        }
        lemma_tpl_fold_clean(st, ls.drop_last(), vars, links, includes);
        lemma_tpl_step_clean(
            crate::template::tpl_fold(st, ls.drop_last(), vars, links, includes),
            ls.last(),
            vars,
            links,
            includes,
        );
    }
}

/// Token idempotence through the template parser: when every line of
/// a template file is token-well-formed and the tables have the shape
/// the loaders build, every text the parsed template carries — each
/// head tag, each block name and body, and the body text — is free of
/// every bound `{%var}`, `{$link}` and `{.include}` token.
pub proof fn lemma_template_tokens_resolved(
    text: Seq<char>,
    vars: Seq<Binding>,
    links: Seq<Binding>,
    includes: Seq<Binding>,
)
    requires
        forall|i: int|
            0 <= i < crate::text::lines_of(text).len() ==> tokens_wf(
                #[trigger] crate::text::lines_of(text)[i],
            ),
        tables_plain(vars, links, includes),
    ensures
        tpl_state_clean(
            crate::template::template_spec(text, vars, links, includes).1,
            vars,
            links,
            includes,
        ),
{
    let ls = crate::text::lines_of(text);
    if ls.len() == 0 {
        lemma_tpl_init_clean(crate::template::ParseMode::Content, vars, links, includes);
    } else {
        let first = crate::template::tpl_first(ls.first());
        assert(tpl_state_clean(first.1, vars, links, includes)) by {
            lemma_tpl_init_clean(crate::template::ParseMode::Inherit, vars, links, includes);
            lemma_tpl_init_clean(crate::template::ParseMode::Css, vars, links, includes);
            lemma_tpl_init_clean(crate::template::ParseMode::Js, vars, links, includes);
            lemma_tpl_init_clean(crate::template::ParseMode::Blocks, vars, links, includes);
            lemma_tpl_init_clean(crate::template::ParseMode::Content, vars, links, includes);
        }
        assert forall|i: int| 0 <= i < ls.skip(1).len() implies tokens_wf(
            #[trigger] ls.skip(1)[i],
        ) by {
            assert(ls.skip(1)[i] == ls[i + 1]);
        }
        lemma_tpl_fold_clean(first.1, ls.skip(1), vars, links, includes);
        let folded = crate::template::tpl_fold(first.1, ls.skip(1), vars, links, includes);
        let fin = crate::template::tpl_finalize(folded);
        assert forall|i: int| 0 <= i < fin.blocks.len() implies text_clean(
            (#[trigger] fin.blocks[i]).0,
            vars,
            links,
            includes,
        ) && text_clean(fin.blocks[i].1, vars, links, includes) by {
            if folded.mode is Blocks && folded.blk_open && i == folded.blocks.len() {
                assert(fin.blocks[i] == (folded.blk_name, folded.blk_body));
            } else {
                assert(fin.blocks[i] == folded.blocks[i]);
            }
        }
    }
}


/// The text after the last colon of resolved text is resolved.
proof fn lemma_after_colon_resolved(
    s: Seq<char>,
    vars: Seq<Binding>,
    links: Seq<Binding>,
    includes: Seq<Binding>,
)
    requires
        text_resolved(s, vars, links, includes),
    ensures
        text_resolved(crate::tables::after_last_colon(s), vars, links, includes),
{
    crate::text::lemma_rfind_char_bounds(s, ':');
    let j = crate::text::rfind_char(s, ':');
    if j >= 0 {
        assert(s.skip(j + 1) =~= s.subrange(j + 1, s.len() as int));
        lemma_resolved_subrange(s, j + 1, s.len() as int, vars, links, includes);
    }
}

/// Every text a content parser state carries is clean, and every
/// configuration value it has taken is resolved.
pub open spec fn page_state_clean(
    st: crate::page::PageState,
    vars: Seq<Binding>,
    links: Seq<Binding>,
    includes: Seq<Binding>,
) -> bool {
    &&& text_resolved(st.path, vars, links, includes)
    &&& text_resolved(st.link_name, vars, links, includes)
    &&& text_resolved(st.title, vars, links, includes)
    &&& text_resolved(st.template, vars, links, includes)
    &&& forall|i: int|
        0 <= i < st.head.len() ==> text_clean(#[trigger] st.head[i], vars, links, includes)
    &&& forall|i: int|
        0 <= i < st.blocks.len() ==> text_clean((#[trigger] st.blocks[i]).0, vars, links, includes)
            && forall|j: int|
            0 <= j < st.blocks[i].1.len() ==> text_clean(
                (#[trigger] st.blocks[i].1[j]).0,
                vars,
                links,
                includes,
            ) && text_clean(st.blocks[i].1[j].1, vars, links, includes)
    &&& text_clean(st.blk_name, vars, links, includes)
    &&& forall|j: int|
        0 <= j < st.parts.len() ==> text_clean((#[trigger] st.parts[j]).0, vars, links, includes)
            && text_clean(st.parts[j].1, vars, links, includes)
    &&& text_clean(st.part_name, vars, links, includes)
    &&& text_clean(st.part_body, vars, links, includes)
    &&& text_clean(st.content, vars, links, includes)
}

proof fn lemma_page_init_clean(vars: Seq<Binding>, links: Seq<Binding>, includes: Seq<Binding>)
    requires
        tables_plain(vars, links, includes),
    ensures
        page_state_clean(crate::page::page_init(), vars, links, includes),
{
    lemma_empty_clean(vars, links, includes);
}

/// The closed part list of a clean state is clean.
proof fn lemma_close_part_clean(
    st: crate::page::PageState,
    vars: Seq<Binding>,
    links: Seq<Binding>,
    includes: Seq<Binding>,
)
    requires
        page_state_clean(st, vars, links, includes),
    ensures
        forall|j: int|
            0 <= j < crate::page::page_close_part(st).len() ==> text_clean(
                (#[trigger] crate::page::page_close_part(st)[j]).0,
                vars,
                links,
                includes,
            ) && text_clean(crate::page::page_close_part(st)[j].1, vars, links, includes),
{
    let closed = crate::page::page_close_part(st);
    assert forall|j: int| 0 <= j < closed.len() implies text_clean(
        (#[trigger] closed[j]).0,
        vars,
        links,
        includes,
    ) && text_clean(closed[j].1, vars, links, includes) by {
        if st.part_open && j == st.parts.len() {
            if st.part_body_started {
                assert(closed[j] == (st.part_name, st.part_body));
            } else {
                assert(closed[j] == (st.part_name, st.part_name));
            }
        } else {
            assert(closed[j] == st.parts[j]);
        }
    }
}

/// The closed block list of a clean state is clean.
proof fn lemma_close_block_clean(
    st: crate::page::PageState,
    vars: Seq<Binding>,
    links: Seq<Binding>,
    includes: Seq<Binding>,
)
    requires
        page_state_clean(st, vars, links, includes),
    ensures
        forall|i: int|
            0 <= i < crate::page::page_close_block(st).len() ==> text_clean(
                (#[trigger] crate::page::page_close_block(st)[i]).0,
                vars,
                links,
                includes,
            ) && forall|j: int|
                0 <= j < crate::page::page_close_block(st)[i].1.len() ==> text_clean(
                    (#[trigger] crate::page::page_close_block(st)[i].1[j]).0,
                    vars,
                    links,
                    includes,
                ) && text_clean(crate::page::page_close_block(st)[i].1[j].1, vars, links, includes),
{
    lemma_close_part_clean(st, vars, links, includes);
    let closed = crate::page::page_close_block(st);
    assert forall|i: int| 0 <= i < closed.len() implies text_clean(
        (#[trigger] closed[i]).0,
        vars,
        links,
        includes,
    ) && forall|j: int|
        0 <= j < closed[i].1.len() ==> text_clean(
            (#[trigger] closed[i].1[j]).0,
            vars,
            links,
            includes,
        ) && text_clean(closed[i].1[j].1, vars, links, includes) by {
        if st.blk_open && i == st.blocks.len() {
            assert(closed[i] == (st.blk_name, crate::page::page_close_part(st)));
        } else {
            assert(closed[i] == st.blocks[i]);
        }
    }
}

/// One content parser step started from a clean state on a
/// well-formed line ends in a clean state.
proof fn lemma_page_step_clean(
    st: crate::page::PageState,
    line: Seq<char>,
    vars: Seq<Binding>,
    links: Seq<Binding>,
    includes: Seq<Binding>,
)
    requires
        page_state_clean(st, vars, links, includes),
        tokens_wf(line),
        tables_plain(vars, links, includes),
    ensures
        page_state_clean(
            crate::page::page_step(st, line, vars, links, includes),
            vars,
            links,
            includes,
        ),
{
    let st2 = crate::page::page_step(st, line, vars, links, includes);
    let sub_raw = crate::subst::subst_line(line, vars, links, includes);
    if st.mode is Content && st.content_started {
        lemma_subst_line_clean(line, vars, links, includes);
        lemma_joined_clean(st.content, true, sub_raw, vars, links, includes);
    } else {
        let t = trimmed(line);
        lemma_trimmed_wf(line);
        let sub = crate::subst::subst_line(t, vars, links, includes);
        lemma_subst_line_clean(t, vars, links, includes);
        if t == "css"@ || t == "js"@ || t == "blocks"@ {
        } else if t.len() == 0 {
            if st.mode is Blocks {
                lemma_empty_clean(vars, links, includes);
                lemma_close_block_clean(st, vars, links, includes);
            }
        } else {
            match st.mode {
                crate::template::ParseMode::Config => {
                    let j = crate::text::find_char(sub, ':');
                    if j >= 0 {
                        lemma_after_colon_resolved(sub, vars, links, includes);
                    }
                },
                crate::template::ParseMode::Css => {
                    lemma_css_tag_clean(sub, vars, links, includes);
                    assert forall|i: int| 0 <= i < st2.head.len() implies text_clean(
                        #[trigger] st2.head[i],
                        vars,
                        links,
                        includes,
                    ) by {
                        if i < st.head.len() {
                            assert(st2.head[i] == st.head[i]);
                        } else {
                            assert(st2.head[i] == crate::model::css_tag(sub));
                        }
                    }
                },
                crate::template::ParseMode::Js => {
                    lemma_js_tag_clean(sub, vars, links, includes);
                    assert forall|i: int| 0 <= i < st2.head.len() implies text_clean(
                        #[trigger] st2.head[i],
                        vars,
                        links,
                        includes,
                    ) by {
                        if i < st.head.len() {
                            assert(st2.head[i] == st.head[i]);
                        } else {
                            assert(st2.head[i] == crate::model::js_tag(sub));
                        }
                    }
                },
                crate::template::ParseMode::Blocks => {
                    if crate::text::has_prefix(line, "\t\t\t"@) || crate::text::has_prefix(
                        line,
                        "            "@,
                    ) {
                        if st.part_open {
                            lemma_joined_clean(
                                st.part_body,
                                st.part_body_started,
                                sub,
                                vars,
                                links,
                                includes,
                            );
                        }
                    } else if crate::text::has_prefix(line, "\t\t"@) || crate::text::has_prefix(
                        line,
                        "        "@,
                    ) {
                        if st.blk_open {
                            lemma_close_part_clean(st, vars, links, includes);
                            lemma_empty_clean(vars, links, includes);
                        }
                    } else {
                        lemma_close_block_clean(st, vars, links, includes);
                        lemma_empty_clean(vars, links, includes);
                    }
                },
                crate::template::ParseMode::Content => {
                    lemma_subst_line_clean(line, vars, links, includes);
                },
                _ => {},
            }
        }
    }
}

proof fn lemma_page_fold_clean(
    st: crate::page::PageState,
    ls: Seq<Seq<char>>,
    vars: Seq<Binding>,
    links: Seq<Binding>,
    includes: Seq<Binding>,
)
    requires
        page_state_clean(st, vars, links, includes),
        forall|i: int| 0 <= i < ls.len() ==> tokens_wf(#[trigger] ls[i]),
        tables_plain(vars, links, includes),
    ensures
        page_state_clean(
            crate::page::page_fold(st, ls, vars, links, includes),
            vars,
            links,
            includes,
        ),
    decreases ls.len(),
{
    if ls.len() > 0 {
        assert forall|i: int| 0 <= i < ls.drop_last().len() implies tokens_wf(
            #[trigger] ls.drop_last()[i],
        ) by {
            assert(ls.drop_last()[i] == ls[i]);
        }
        lemma_page_fold_clean(st, ls.drop_last(), vars, links, includes);
        lemma_page_step_clean(
            crate::page::page_fold(st, ls.drop_last(), vars, links, includes),
            ls.last(),
            vars,
            links,
            includes,
        );
    }
}

/// Token idempotence through the content parser: when every line of a
/// content file is token-well-formed and the tables have the shape
/// the loaders build, every text the parsed page carries — its
/// configuration values, each head tag, each block with its parts,
/// and the body — is free of every bound `{%var}`, `{$link}` and
/// `{.include}` token.
pub proof fn lemma_page_tokens_resolved(
    text: Seq<char>,
    vars: Seq<Binding>,
    links: Seq<Binding>,
    includes: Seq<Binding>,
)
    requires
        forall|i: int|
            0 <= i < crate::text::lines_of(text).len() ==> tokens_wf(
                #[trigger] crate::text::lines_of(text)[i],
            ),
        tables_plain(vars, links, includes),
        crate::page::page_spec(text, vars, links, includes) is Some,
    ensures
        page_state_clean(
            crate::page::page_spec(text, vars, links, includes).unwrap(),
            vars,
            links,
            includes,
        ),
{
    let ls = crate::text::lines_of(text);
    lemma_page_init_clean(vars, links, includes);
    assert forall|i: int| 0 <= i < ls.skip(1).len() implies tokens_wf(
        #[trigger] ls.skip(1)[i],
    ) by {
        assert(ls.skip(1)[i] == ls[i + 1]);
    }
    lemma_page_fold_clean(crate::page::page_init(), ls.skip(1), vars, links, includes);
    let folded = crate::page::page_fold(
        crate::page::page_init(),
        ls.skip(1),
        vars,
        links,
        includes,
    );
    if folded.mode is Blocks && folded.blk_open {
        lemma_close_block_clean(folded, vars, links, includes);
        lemma_empty_clean(vars, links, includes);
    }
}

} // verus!
