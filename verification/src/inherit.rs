//! Inheritance resolution: flattening each template's single-parent
//! chain. A child's head tags and block templates are extended by its
//! resolved parent's, and the child body is substituted into every
//! `{content}` slot of the resolved parent body. An unknown parent
//! name or a cyclic chain is a fatal error.

use crate::model::{binds_view, Binding, RgenError, Template};
use crate::text::replace_all;
use vstd::prelude::*;

verus! {

/// The position of the first template named `name`, or `-1`.
pub open spec fn find_tpl(ts: Seq<Template>, name: Seq<char>) -> int
    decreases ts.len(),
{
    if ts.len() == 0 {
        -1
    } else if ts.first().name@ == name {
        0
    } else {
        let r = find_tpl(ts.skip(1), name);
        if r < 0 {
            -1
        } else {
            r + 1
        }
    }
}

proof fn lemma_find_tpl_at(ts: Seq<Template>, name: Seq<char>, k: int)
    requires
        0 <= k < ts.len(),
        ts[k].name@ == name,
        forall|j: int| 0 <= j < k ==> ts[j].name@ != name,
    ensures
        find_tpl(ts, name) == k,
    decreases k,
{
    if k > 0 {
        lemma_find_tpl_at(ts.skip(1), name, k - 1);
    }
}

proof fn lemma_find_tpl_none(ts: Seq<Template>, name: Seq<char>)
    requires
        forall|j: int| 0 <= j < ts.len() ==> ts[j].name@ != name,
    ensures
        find_tpl(ts, name) == -1,
    decreases ts.len(),
{
    if ts.len() > 0 {
        lemma_find_tpl_none(ts.skip(1), name);
    }
}

proof fn lemma_find_tpl_bounds(ts: Seq<Template>, name: Seq<char>)
    ensures
        -1 <= find_tpl(ts, name) < ts.len(),
        find_tpl(ts, name) >= 0 ==> ts[find_tpl(ts, name)].name@ == name,
    decreases ts.len(),
{
    if ts.len() > 0 && ts.first().name@ != name {
        lemma_find_tpl_bounds(ts.skip(1), name);
    }
}

/// Search the template list for a name.
pub fn find_template(ts: &Vec<Template>, name: &Vec<char>) -> (r: Option<usize>)
    ensures
        match r {
            Some(k) => find_tpl(ts@, name@) == k as int && k < ts@.len(),
            None => find_tpl(ts@, name@) == -1,
        },
{
    let mut i: usize = 0;
    while i < ts.len()
        invariant
            0 <= i <= ts@.len(),
            forall|j: int| 0 <= j < i ==> ts@[j].name@ != name@,
        decreases ts.len() - i,
    {
        if crate::text::chars_eq(&ts[i].name, name) {
            proof {
                lemma_find_tpl_at(ts@, name@, i as int);
            }
            return Some(i);
        }
        i = i + 1;
    }
    proof {
        lemma_find_tpl_none(ts@, name@);
    }
    None
}

/// What resolving one template yields: its flattened data, or the
/// fatal error met along its chain.
pub ghost enum Resolved {
    Done { head: Seq<Seq<char>>, blocks: Seq<(Seq<char>, Seq<char>)>, content: Seq<char> },
    MissingParent { child: Seq<char>, parent: Seq<char> },
    Cycle { name: Seq<char> },
}

/// Resolve the template at position `i`, parents first: with fuel for
/// at most `fuel` parent steps, a longer chain within a finite list
/// can only be a cycle.
pub open spec fn resolve_rec(ts: Seq<Template>, i: int, fuel: nat) -> Resolved
    decreases fuel,
{
    let t = ts[i];
    if t.inherit@.len() == 0 {
        Resolved::Done {
            head: t.head_data.deep_view(),
            blocks: binds_view(t.block_templates@),
            content: t.content@,
        }
    } else {
        let j = find_tpl(ts, t.inherit@);
        if j < 0 {
            Resolved::MissingParent { child: t.name@, parent: t.inherit@ }
        } else if fuel == 0 {
            Resolved::Cycle { name: t.name@ }
        } else {
            match resolve_rec(ts, j, (fuel - 1) as nat) {
                Resolved::Done { head, blocks, content } => Resolved::Done {
                    head: t.head_data.deep_view() + head,
                    blocks: binds_view(t.block_templates@) + blocks,
                    content: replace_all(content, "{content}"@, t.content@),
                },
                e => e,
            }
        }
    }
}

/// How a resolved template relates to the original list at `i`.
pub open spec fn resolved_matches(t: Template, ts: Seq<Template>, i: int, fuel: nat) -> bool {
    &&& t.name@ == ts[i].name@
    &&& t.inherit@ == ts[i].inherit@
    &&& (resolve_rec(ts, i, fuel) matches Resolved::Done { head, blocks, content } && t
        .head_data.deep_view() == head && binds_view(t.block_templates@) == blocks && t.content@
        == content)
}

/// A copy of a text list.
fn copy_texts(v: &Vec<Vec<char>>) -> (r: Vec<Vec<char>>)
    ensures
        r.deep_view() == v.deep_view(),
{
    let mut r: Vec<Vec<char>> = Vec::new();
    let mut i: usize = 0;
    while i < v.len()
        invariant
            0 <= i <= v@.len(),
            r.deep_view() == v.deep_view().take(i as int),
        decreases v.len() - i,
    {
        let ghost prev = r.deep_view();
        let t = crate::text::copy_text(&v[i]);
        r.push(t);
        proof {
            assert(r.deep_view() =~~= prev.push(v.deep_view()[i as int]));
            assert(v.deep_view().take(i + 1) =~= v.deep_view().take(i as int).push(
                v.deep_view()[i as int],
            ));
        }
        i = i + 1;
    }
    proof {
        assert(v.deep_view().take(v@.len() as int) =~= v.deep_view());
    }
    r
}

/// A copy of a binding list.
fn copy_binds(v: &Vec<Binding>) -> (r: Vec<Binding>)
    ensures
        binds_view(r@) == binds_view(v@),
{
    let mut r: Vec<Binding> = Vec::new();
    let mut i: usize = 0;
    while i < v.len()
        invariant
            0 <= i <= v@.len(),
            binds_view(r@) == binds_view(v@.take(i as int)),
        decreases v.len() - i,
    {
        let ghost prev = binds_view(r@);
        let name = crate::text::copy_text(&v[i].name);
        let value = crate::text::copy_text(&v[i].value);
        r.push(Binding { name, value });
        proof {
            assert(binds_view(r@) =~= prev.push((v@[i as int].name@, v@[i as int].value@)));
            assert(binds_view(v@.take(i + 1)) =~= binds_view(v@.take(i as int)).push(
                (v@[i as int].name@, v@[i as int].value@),
            ));
        }
        i = i + 1;
    }
    proof {
        assert(v@.take(v@.len() as int) =~= v@);
        assert(binds_view(v@.take(v@.len() as int)) =~= binds_view(v@));
    }
    r
}

/// Resolve the template at position `i` against the whole list.
fn resolve_one(ts: &Vec<Template>, i: usize, fuel: usize) -> (r: Result<Template, RgenError>)
    requires
        i < ts@.len(),
    ensures
        match r {
            Ok(t) => resolved_matches(t, ts@, i as int, fuel as nat),
            Err(e) => match e {
                RgenError::MissingParent { child, parent } => resolve_rec(ts@, i as int, fuel as nat)
                    == (Resolved::MissingParent { child: child@, parent: parent@ }),
                RgenError::InheritanceCycle { name } => resolve_rec(ts@, i as int, fuel as nat) == (
                Resolved::Cycle { name: name@ }),
                _ => false,
            },
        },
    decreases fuel,
{
    let t = &ts[i];
    if t.inherit.len() == 0 {
        return Ok(
            Template {
                name: crate::text::copy_text(&t.name),
                inherit: crate::text::copy_text(&t.inherit),
                head_data: copy_texts(&t.head_data),
                block_templates: copy_binds(&t.block_templates),
                content: crate::text::copy_text(&t.content),
            },
        );
    }
    match find_template(ts, &t.inherit) {
        None => Err(
            RgenError::MissingParent {
                child: crate::text::copy_text(&t.name),
                parent: crate::text::copy_text(&t.inherit),
            },
        ),
        Some(j) => {
            if fuel == 0 {
                return Err(RgenError::InheritanceCycle { name: crate::text::copy_text(&t.name) });
            }
            match resolve_one(ts, j, fuel - 1) {
                Ok(p) => {
                    let t = &ts[i];
                    let mut head = copy_texts(&t.head_data);
                    let ghost head_pre = head.deep_view();
                    let mut k: usize = 0;
                    while k < p.head_data.len()
                        invariant
                            0 <= k <= p.head_data@.len(),
                            head.deep_view() == head_pre + p.head_data.deep_view().take(k as int),
                        decreases p.head_data.len() - k,
                    {
                        let ghost prev = head.deep_view();
                        let item = crate::text::copy_text(&p.head_data[k]);
                        head.push(item);
                        proof {
                            assert(head.deep_view() =~~= prev.push(
                                p.head_data.deep_view()[k as int],
                            ));
                            assert(prev.push(p.head_data.deep_view()[k as int]) =~= head_pre
                                + p.head_data.deep_view().take(k + 1));
                        }
                        k = k + 1;
                    }
                    proof {
                        assert(p.head_data.deep_view().take(p.head_data@.len() as int)
                            =~= p.head_data.deep_view());
                    }
                    let mut blocks = copy_binds(&t.block_templates);
                    let ghost blocks_pre = binds_view(blocks@);
                    let mut k2: usize = 0;
                    while k2 < p.block_templates.len()
                        invariant
                            0 <= k2 <= p.block_templates@.len(),
                            binds_view(blocks@) == blocks_pre + binds_view(
                                p.block_templates@.take(k2 as int),
                            ),
                        decreases p.block_templates.len() - k2,
                    {
                        let ghost prev = binds_view(blocks@);
                        let b = &p.block_templates[k2];
                        let name = crate::text::copy_text(&b.name);
                        let value = crate::text::copy_text(&b.value);
                        blocks.push(Binding { name, value });
                        proof {
                            let entry = (p.block_templates@[k2 as int].name@,
                            p.block_templates@[k2 as int].value@);
                            assert(binds_view(blocks@) =~= prev.push(entry));
                            assert(binds_view(p.block_templates@.take(k2 + 1)) =~= binds_view(
                                p.block_templates@.take(k2 as int),
                            ).push(entry));
                        }
                        k2 = k2 + 1;
                    }
                    proof {
                        assert(p.block_templates@.take(p.block_templates@.len() as int)
                            =~= p.block_templates@);
                        assert(binds_view(p.block_templates@.take(p.block_templates@.len() as int))
                            =~= binds_view(p.block_templates@));
                    }
                    let sentinel = crate::model::lit("{content}");
                    let content = crate::text::replace(&p.content, &sentinel, &t.content);
                    Ok(
                        Template {
                            name: crate::text::copy_text(&t.name),
                            inherit: crate::text::copy_text(&t.inherit),
                            head_data: head,
                            block_templates: blocks,
                            content,
                        },
                    )
                },
                Err(e) => Err(e),
            }
        },
    }
}

/// What resolving the template at `i` with full fuel reports.
pub open spec fn resolve_of(ts: Seq<Template>, i: int) -> Resolved {
    resolve_rec(ts, i, ts.len())
}

/// An error value reports what resolution found.
pub open spec fn error_reflects(e: RgenError, ts: Seq<Template>, i: int) -> bool {
    match e {
        RgenError::MissingParent { child, parent } => resolve_of(ts, i)
            == (Resolved::MissingParent { child: child@, parent: parent@ }),
        RgenError::InheritanceCycle { name } => resolve_of(ts, i) == (Resolved::Cycle {
            name: name@,
        }),
        _ => false,
    }
}

/// Resolve inheritance for every template, parents first along each
/// chain; the first unknown parent or cyclic chain fails the build
/// with an error naming what was found.
#[allow(non_snake_case)]
pub fn processInheritance(templates: &Vec<Template>) -> (r: Result<Vec<Template>, RgenError>)
    ensures
        match r {
            Ok(v) => v@.len() == templates@.len() && forall|i: int|
                0 <= i < v@.len() ==> resolved_matches(
                    v@[i],
                    templates@,
                    i,
                    templates@.len(),
                ),
            Err(e) => exists|i: int|
                0 <= i < templates@.len() && #[trigger] error_reflects(e, templates@, i) && forall|
                    j: int,
                |
                    0 <= j < i ==> resolve_of(templates@, j) is Done,
        },
{
    let n = templates.len();
    let mut v: Vec<Template> = Vec::new();
    let mut i: usize = 0;
    while i < n
        invariant
            0 <= i <= n,
            n == templates@.len(),
            v@.len() == i,
            forall|j: int| 0 <= j < i ==> resolved_matches(v@[j], templates@, j, templates@.len()),
            forall|j: int| 0 <= j < i ==> resolve_of(templates@, j) is Done,
        decreases n - i,
    {
        match resolve_one(templates, i, n) {
            Ok(t) => {
                v.push(t);
            },
            Err(e) => {
                assert(error_reflects(e, templates@, i as int));
                return Err(e);
            },
        }
        i = i + 1;
    }
    Ok(v)
}

} // verus!
