//! The substitution primitives: `{%name}` and `{$name}` replacement
//! against the variable and link tables, and `{.name}` replacement
//! against the include table. Each table is applied in order, by plain
//! textual replace-all, and replacement text is never rescanned.

use crate::model::Binding;
use crate::text::replace;
use crate::text::replace_all;
use vstd::prelude::*;

verus! {

/// The token marking a variable reference: `{%name}`.
pub open spec fn var_mark() -> Seq<char> {
    "%"@
}

/// The token marking a link reference: `{$name}`.
pub open spec fn link_mark() -> Seq<char> {
    "$"@
}

/// The token marking an include reference: `{.name}`.
pub open spec fn include_mark() -> Seq<char> {
    "."@
}

/// The token text that binds `name` under a mark: `{<mark><name>}`.
pub open spec fn token_pat(mark: Seq<char>, name: Seq<char>) -> Seq<char> {
    "{"@ + mark + name + "}"@
}

/// Apply each pair in order, replacing every occurrence of its token
/// with its value.
pub open spec fn subst_pairs(text: Seq<char>, mark: Seq<char>, pairs: Seq<Binding>) -> Seq<char>
    decreases pairs.len(),
{
    if pairs.len() == 0 {
        text
    } else {
        let prev = subst_pairs(text, mark, pairs.drop_last());
        replace_all(prev, token_pat(mark, pairs.last().name@), pairs.last().value@)
    }
}

/// Variable then link substitution, each table in order.
pub open spec fn replace_vars_spec(
    text: Seq<char>,
    vars: Seq<Binding>,
    links: Seq<Binding>,
) -> Seq<char> {
    subst_pairs(subst_pairs(text, var_mark(), vars), link_mark(), links)
}

/// Include substitution, the table in order.
pub open spec fn insert_includes_spec(text: Seq<char>, includes: Seq<Binding>) -> Seq<char> {
    subst_pairs(text, include_mark(), includes)
}

/// Replace every `{<mark><name>}` token of every pair, in table order.
fn subst_pairs_exec(text: &Vec<char>, mark: &Vec<char>, pairs: &Vec<Binding>) -> (r: Vec<char>)
    ensures
        r@ == subst_pairs(text@, mark@, pairs@),
{
    let open = crate::model::lit("{");
    let close = crate::model::lit("}");
    let mut cur = crate::text::copy_text(text);
    let mut i: usize = 0;
    while i < pairs.len()
        invariant
            0 <= i <= pairs@.len(),
            cur@ == subst_pairs(text@, mark@, pairs@.take(i as int)),
            open@ == "{"@,
            close@ == "}"@,
        decreases pairs.len() - i,
    {
        let mut pat = crate::text::copy_text(&open);
        crate::text::extend(&mut pat, mark);
        crate::text::extend(&mut pat, &pairs[i].name);
        crate::text::extend(&mut pat, &close);
        assert(pat@ == token_pat(mark@, pairs@[i as int].name@));
        let next = replace(&cur, &pat, &pairs[i].value);
        proof {
            assert(pairs@.take(i + 1).drop_last() =~= pairs@.take(i as int));
            assert(pairs@.take(i + 1).last() == pairs@[i as int]);
        }
        cur = next;
        i = i + 1;
    }
    proof {
        assert(pairs@.take(pairs@.len() as int) =~= pairs@);
    }
    cur
}

/// Substitute every `{%var}` against the variable table, then every
/// `{$link}` against the link table.
#[allow(non_snake_case)]
pub fn replaceVars(text: &Vec<char>, vars: &Vec<Binding>, links: &Vec<Binding>) -> (r: Vec<char>)
    ensures
        r@ == replace_vars_spec(text@, vars@, links@),
{
    let pct = crate::model::lit("%");
    let with_vars = subst_pairs_exec(text, &pct, vars);
    let dollar = crate::model::lit("$");
    subst_pairs_exec(&with_vars, &dollar, links)
}

/// Substitute every `{.include}` against the include table.
#[allow(non_snake_case)]
pub fn insertIncludes(text: &Vec<char>, includes: &Vec<Binding>) -> (r: Vec<char>)
    ensures
        r@ == insert_includes_spec(text@, includes@),
{
    let dot = crate::model::lit(".");
    subst_pairs_exec(text, &dot, includes)
}

/// The load-time substitution applied to one parsed line: when the
/// line can hold a token at all, variables and links are substituted
/// when a `{$` or `{%` occurs, then includes when a `{.` occurs in
/// what resulted.
pub open spec fn subst_line(
    line: Seq<char>,
    vars: Seq<Binding>,
    links: Seq<Binding>,
    includes: Seq<Binding>,
) -> Seq<char> {
    if crate::text::has_char(line, '{') && crate::text::has_char(line, '}') {
        let a = if crate::text::occurs(line, "{$"@) || crate::text::occurs(line, "{%"@) {
            replace_vars_spec(line, vars, links)
        } else {
            line
        };
        if crate::text::occurs(a, "{."@) {
            insert_includes_spec(a, includes)
        } else {
            a
        }
    } else {
        line
    }
}

/// Apply the load-time substitution to one line.
pub fn subst_line_exec(
    line: &Vec<char>,
    vars: &Vec<Binding>,
    links: &Vec<Binding>,
    includes: &Vec<Binding>,
) -> (r: Vec<char>)
    ensures
        r@ == subst_line(line@, vars@, links@, includes@),
{
    if !(crate::text::contains_char(line, '{') && crate::text::contains_char(line, '}')) {
        return crate::text::copy_text(line);
    }
    let link_open = crate::model::lit("{$");
    let var_open = crate::model::lit("{%");
    let inc_open = crate::model::lit("{.");
    let a = if crate::text::contains_seq(line, &link_open) || crate::text::contains_seq(
        line,
        &var_open,
    ) {
        replaceVars(line, vars, links)
    } else {
        crate::text::copy_text(line)
    };
    if crate::text::contains_seq(&a, &inc_open) {
        insertIncludes(&a, includes)
    } else {
        a
    }
}

} // verus!
