//! The page renderer: combining a page with its resolved template,
//! the global head tags and the resource table into final HTML.
//!
//! For each page, the template body receives the page body at
//! `{content}`; the page's and template's head tags are inserted after
//! `<head>`; each block template slot `{name}` receives the
//! concatenation, in declaration order, of every page block of that
//! name with its `{part}` tokens filled; the global head and the
//! `<title>` are inserted after `<head>`; and `{$file}` resource
//! tokens are resolved last.

use crate::model::{binds_view, Binding, OutputFile, Page, Template};
use crate::page::blocks_view;
use crate::text::{replace_all, trimmed};
use vstd::prelude::*;

verus! {

/// Text items each preceded by a newline: the joined form head tags
/// are inserted in.
pub open spec fn led_join(items: Seq<Seq<char>>) -> Seq<char>
    decreases items.len(),
{
    if items.len() == 0 {
        seq![]
    } else {
        led_join(items.drop_last()) + "\n"@ + items.last()
    }
}

/// Join text items, a newline before each.
pub fn led_join_exec(items: &Vec<Vec<char>>) -> (r: Vec<char>)
    ensures
        r@ == led_join(items.deep_view()),
{
    let nl = crate::model::lit("\n");
    let mut r: Vec<char> = Vec::new();
    let mut i: usize = 0;
    proof {
        assert(r@ =~= led_join(items.deep_view().take(0)));
    }
    while i < items.len()
        invariant
            0 <= i <= items@.len(),
            nl@ == "\n"@,
            items.deep_view().len() == items@.len(),
            r@ == led_join(items.deep_view().take(i as int)),
        decreases items.len() - i,
    {
        crate::text::extend(&mut r, &nl);
        crate::text::extend(&mut r, &items[i]);
        proof {
            let dv = items.deep_view();
            assert(dv.take(i + 1).drop_last() =~= dv.take(i as int));
            assert(dv.take(i + 1).last() == dv[i as int]);
            assert(items@[i as int]@ == dv[i as int]);
        }
        i = i + 1;
    }
    proof {
        assert(items.deep_view().take(items@.len() as int) =~= items.deep_view());
    }
    r
}

/// A block template body with each part's `{name}` token, trimmed,
/// replaced by the part's text, parts applied in order.
pub open spec fn subst_parts(body: Seq<char>, parts: Seq<(Seq<char>, Seq<char>)>) -> Seq<char>
    decreases parts.len(),
{
    if parts.len() == 0 {
        body
    } else {
        replace_all(
            subst_parts(body, parts.drop_last()),
            "{"@ + trimmed(parts.last().0) + "}"@,
            parts.last().1,
        )
    }
}

/// Fill part tokens of a block template body from one page block.
pub fn subst_parts_exec(body: &Vec<char>, parts: &Vec<Binding>) -> (r: Vec<char>)
    ensures
        r@ == subst_parts(body@, binds_view(parts@)),
{
    let open = crate::model::lit("{");
    let close = crate::model::lit("}");
    let mut cur = crate::text::copy_text(body);
    let mut i: usize = 0;
    proof {
        assert(binds_view(parts@).take(0) =~= binds_view(parts@.take(0)));
        assert(cur@ == subst_parts(body@, binds_view(parts@).take(0)));
    }
    while i < parts.len()
        invariant
            0 <= i <= parts@.len(),
            open@ == "{"@,
            close@ == "}"@,
            binds_view(parts@).len() == parts@.len(),
            cur@ == subst_parts(body@, binds_view(parts@).take(i as int)),
        decreases parts.len() - i,
    {
        let name_trim = crate::text::trim(&parts[i].name);
        let mut pat = crate::text::copy_text(&open);
        crate::text::extend(&mut pat, &name_trim);
        crate::text::extend(&mut pat, &close);
        assert(pat@ == "{"@ + trimmed(parts@[i as int].name@) + "}"@);
        let next = crate::text::replace(&cur, &pat, &parts[i].value);
        proof {
            let bv = binds_view(parts@);
            assert(bv.take(i + 1).drop_last() =~= bv.take(i as int));
            assert(bv.take(i + 1).last() == bv[i as int]);
            assert(bv[i as int] == (parts@[i as int].name@, parts@[i as int].value@));
        }
        cur = next;
        i = i + 1;
    }
    proof {
        assert(binds_view(parts@).take(parts@.len() as int) =~= binds_view(parts@));
    }
    cur
}

/// The text rendered into one block template slot: the filled bodies
/// of every page block of that name, concatenated in page order.
pub open spec fn blocks_fill(
    body: Seq<char>,
    name: Seq<char>,
    pblocks: Seq<(Seq<char>, Seq<(Seq<char>, Seq<char>)>)>,
) -> Seq<char>
    decreases pblocks.len(),
{
    if pblocks.len() == 0 {
        seq![]
    } else {
        blocks_fill(body, name, pblocks.drop_last()) + if pblocks.last().0 == name {
            subst_parts(body, pblocks.last().1)
        } else {
            seq![]
        }
    }
}

/// Concatenate the filled bodies of every matching page block.
pub fn blocks_fill_exec(body: &Vec<char>, name: &Vec<char>, pblocks: &Vec<
    crate::model::Block,
>) -> (r: Vec<char>)
    ensures
        r@ == blocks_fill(body@, name@, blocks_view(pblocks@)),
{
    let mut r: Vec<char> = Vec::new();
    let mut i: usize = 0;
    proof {
        assert(r@ =~= blocks_fill(body@, name@, blocks_view(pblocks@).take(0)));
    }
    while i < pblocks.len()
        invariant
            0 <= i <= pblocks@.len(),
            blocks_view(pblocks@).len() == pblocks@.len(),
            r@ == blocks_fill(body@, name@, blocks_view(pblocks@).take(i as int)),
        decreases pblocks.len() - i,
    {
        let ghost bv = blocks_view(pblocks@);
        proof {
            assert(bv.take(i + 1).drop_last() =~= bv.take(i as int));
            assert(bv.take(i + 1).last() == bv[i as int]);
            assert(bv[i as int] == (pblocks@[i as int].name@, binds_view(pblocks@[i as int].parts@)));
        }
        if crate::text::chars_eq(&pblocks[i].name, name) {
            let filled = subst_parts_exec(body, &pblocks[i].parts);
            crate::text::extend(&mut r, &filled);
        } else {
            proof {
                assert(r@ + Seq::<char>::empty() =~= r@);
            }
        }
        i = i + 1;
    }
    proof {
        assert(blocks_view(pblocks@).take(pblocks@.len() as int) =~= blocks_view(pblocks@));
    }
    r
}

/// The page text after every block template slot has been filled, in
/// template order.
pub open spec fn apply_blocks(
    out: Seq<char>,
    tblocks: Seq<(Seq<char>, Seq<char>)>,
    pblocks: Seq<(Seq<char>, Seq<(Seq<char>, Seq<char>)>)>,
) -> Seq<char>
    decreases tblocks.len(),
{
    if tblocks.len() == 0 {
        out
    } else {
        let tb = tblocks.last();
        replace_all(
            apply_blocks(out, tblocks.drop_last(), pblocks),
            "{"@ + trimmed(tb.0) + "}"@,
            blocks_fill(tb.1, tb.0, pblocks),
        )
    }
}

/// Fill every block template slot of the page text.
pub fn apply_blocks_exec(
    out: Vec<char>,
    tblocks: &Vec<Binding>,
    pblocks: &Vec<crate::model::Block>,
) -> (r: Vec<char>)
    ensures
        r@ == apply_blocks(out@, binds_view(tblocks@), blocks_view(pblocks@)),
{
    let open = crate::model::lit("{");
    let close = crate::model::lit("}");
    let mut cur = out;
    let ghost orig = cur@;
    let mut i: usize = 0;
    proof {
        assert(cur@ == apply_blocks(orig, binds_view(tblocks@).take(0), blocks_view(pblocks@)));
    }
    while i < tblocks.len()
        invariant
            0 <= i <= tblocks@.len(),
            open@ == "{"@,
            close@ == "}"@,
            binds_view(tblocks@).len() == tblocks@.len(),
            cur@ == apply_blocks(orig, binds_view(tblocks@).take(i as int), blocks_view(pblocks@)),
        decreases tblocks.len() - i,
    {
        let name_trim = crate::text::trim(&tblocks[i].name);
        let mut pat = crate::text::copy_text(&open);
        crate::text::extend(&mut pat, &name_trim);
        crate::text::extend(&mut pat, &close);
        assert(pat@ == "{"@ + trimmed(tblocks@[i as int].name@) + "}"@);
        let fill = blocks_fill_exec(&tblocks[i].value, &tblocks[i].name, pblocks);
        let next = crate::text::replace(&cur, &pat, &fill);
        proof {
            let bv = binds_view(tblocks@);
            assert(bv.take(i + 1).drop_last() =~= bv.take(i as int));
            assert(bv.take(i + 1).last() == bv[i as int]);
            assert(bv[i as int] == (tblocks@[i as int].name@, tblocks@[i as int].value@));
        }
        cur = next;
        i = i + 1;
    }
    proof {
        assert(binds_view(tblocks@).take(tblocks@.len() as int) =~= binds_view(tblocks@));
    }
    cur
}

/// The page text after `{$file}` resource tokens have been replaced
/// by their site paths, in table order.
pub open spec fn apply_resources(out: Seq<char>, res: Seq<(Seq<char>, Seq<char>)>) -> Seq<char>
    decreases res.len(),
{
    if res.len() == 0 {
        out
    } else {
        replace_all(
            apply_resources(out, res.drop_last()),
            "{$"@ + trimmed(res.last().0) + "}"@,
            res.last().1,
        )
    }
}

/// Replace every resource token by its site path.
pub fn apply_resources_exec(out: Vec<char>, res: &Vec<Binding>) -> (r: Vec<char>)
    ensures
        r@ == apply_resources(out@, binds_view(res@)),
{
    let open = crate::model::lit("{$");
    let close = crate::model::lit("}");
    let mut cur = out;
    let ghost orig = cur@;
    let mut i: usize = 0;
    proof {
        assert(cur@ == apply_resources(orig, binds_view(res@).take(0)));
    }
    while i < res.len()
        invariant
            0 <= i <= res@.len(),
            open@ == "{$"@,
            close@ == "}"@,
            binds_view(res@).len() == res@.len(),
            cur@ == apply_resources(orig, binds_view(res@).take(i as int)),
        decreases res.len() - i,
    {
        let name_trim = crate::text::trim(&res[i].name);
        let mut pat = crate::text::copy_text(&open);
        crate::text::extend(&mut pat, &name_trim);
        crate::text::extend(&mut pat, &close);
        assert(pat@ == "{$"@ + trimmed(res@[i as int].name@) + "}"@);
        let next = crate::text::replace(&cur, &pat, &res[i].value);
        proof {
            let bv = binds_view(res@);
            assert(bv.take(i + 1).drop_last() =~= bv.take(i as int));
            assert(bv.take(i + 1).last() == bv[i as int]);
            assert(bv[i as int] == (res@[i as int].name@, res@[i as int].value@));
        }
        cur = next;
        i = i + 1;
    }
    proof {
        assert(binds_view(res@).take(res@.len() as int) =~= binds_view(res@));
    }
    cur
}

/// The position of the last template whose trimmed name equals the
/// page's trimmed template name, or `-1`.
pub open spec fn find_tpl_for(ts: Seq<Template>, tname: Seq<char>) -> int
    decreases ts.len(),
{
    if ts.len() == 0 {
        -1
    } else if trimmed(ts.last().name@) == trimmed(tname) {
        ts.len() - 1
    } else {
        find_tpl_for(ts.drop_last(), tname)
    }
}

proof fn lemma_find_tpl_for_at(ts: Seq<Template>, tname: Seq<char>, k: int)
    requires
        0 <= k < ts.len(),
        trimmed(ts[k].name@) == trimmed(tname),
        forall|j: int| k < j < ts.len() ==> trimmed(ts[j].name@) != trimmed(tname),
    ensures
        find_tpl_for(ts, tname) == k,
    decreases ts.len(),
{
    if k < ts.len() - 1 {
        assert(ts.drop_last() =~= ts.take(ts.len() - 1));
        lemma_find_tpl_for_at(ts.take(ts.len() - 1), tname, k);
    }
}

proof fn lemma_find_tpl_for_none(ts: Seq<Template>, tname: Seq<char>)
    requires
        forall|j: int| 0 <= j < ts.len() ==> trimmed(ts[j].name@) != trimmed(tname),
    ensures
        find_tpl_for(ts, tname) == -1,
    decreases ts.len(),
{
    if ts.len() > 0 {
        assert(ts.drop_last() =~= ts.take(ts.len() - 1));
        lemma_find_tpl_for_none(ts.take(ts.len() - 1), tname);
    }
}

/// Search for the template a page renders through: the last one whose
/// trimmed name matches.
pub fn find_template_for(ts: &Vec<Template>, tname: &Vec<char>) -> (r: Option<usize>)
    ensures
        match r {
            Some(k) => find_tpl_for(ts@, tname@) == k as int && k < ts@.len(),
            None => find_tpl_for(ts@, tname@) == -1,
        },
{
    let want = crate::text::trim(tname);
    let mut i: usize = ts.len();
    while i > 0
        invariant
            0 <= i <= ts@.len(),
            want@ == trimmed(tname@),
            forall|j: int| i <= j < ts@.len() ==> trimmed(ts@[j].name@) != trimmed(tname@),
        decreases i,
    {
        i = i - 1;
        let name_trim = crate::text::trim(&ts[i].name);
        if crate::text::chars_eq(&name_trim, &want) {
            proof {
                lemma_find_tpl_for_at(ts@, tname@, i as int);
            }
            return Some(i);
        }
    }
    proof {
        lemma_find_tpl_for_none(ts@, tname@);
    }
    None
}

/// The full HTML rendered for one page: the template body with the
/// page body, head tags, block slots, title, global head tags and
/// resource tokens resolved. A page whose template is not found
/// renders from empty text.
pub open spec fn render_page(
    p: Page,
    ts: Seq<Template>,
    res: Seq<(Seq<char>, Seq<char>)>,
    globals: Seq<Seq<char>>,
) -> Seq<char> {
    let j = find_tpl_for(ts, p.template@);
    let base = if j < 0 {
        Seq::<char>::empty()
    } else {
        let t = ts[j];
        let body_filled = replace_all(t.content@, "{content}"@, p.content@);
        let with_head = replace_all(
            body_filled,
            "<head>"@,
            "<head>"@ + led_join(p.head_data.deep_view() + t.head_data.deep_view()),
        );
        apply_blocks(with_head, binds_view(t.block_templates@), blocks_view(p.blocks@))
    };
    let with_title = replace_all(
        base,
        "<head>"@,
        "<head>"@ + "\n<title>"@ + trimmed(p.title@) + "</title>"@ + led_join(globals),
    );
    apply_resources(with_title, res)
}

/// Render one page to HTML.
pub fn render_page_exec(
    p: &Page,
    templates: &Vec<Template>,
    resources: &Vec<Binding>,
    globals: &Vec<Vec<char>>,
) -> (r: Vec<char>)
    ensures
        r@ == render_page(*p, templates@, binds_view(resources@), globals.deep_view()),
{
    let sentinel = crate::model::lit("{content}");
    let head_tok = crate::model::lit("<head>");
    let mut base: Vec<char> = Vec::new();
    match find_template_for(templates, &p.template) {
        Some(j) => {
            let t = &templates[j];
            let body_filled = crate::text::replace(&t.content, &sentinel, &p.content);
            let mut head_items: Vec<Vec<char>> = Vec::new();
            let mut k: usize = 0;
            proof {
                assert(head_items.deep_view() =~= p.head_data.deep_view().take(0));
            }
            while k < p.head_data.len()
                invariant
                    0 <= k <= p.head_data@.len(),
                    p.head_data.deep_view().len() == p.head_data@.len(),
                    head_items.deep_view() == p.head_data.deep_view().take(k as int),
                decreases p.head_data.len() - k,
            {
                let ghost prev = head_items.deep_view();
                let item = crate::text::copy_text(&p.head_data[k]);
                head_items.push(item);
                proof {
                    assert(head_items.deep_view() =~~= prev.push(
                        p.head_data.deep_view()[k as int],
                    ));
                    assert(prev.push(p.head_data.deep_view()[k as int])
                        =~= p.head_data.deep_view().take(k + 1));
                }
                k = k + 1;
            }
            proof {
                assert(p.head_data.deep_view().take(p.head_data@.len() as int)
                    =~= p.head_data.deep_view());
            }
            let ghost mid = head_items.deep_view();
            let mut k2: usize = 0;
            while k2 < t.head_data.len()
                invariant
                    0 <= k2 <= t.head_data@.len(),
                    t.head_data.deep_view().len() == t.head_data@.len(),
                    head_items.deep_view() == mid + t.head_data.deep_view().take(k2 as int),
                decreases t.head_data.len() - k2,
            {
                let ghost prev = head_items.deep_view();
                let item = crate::text::copy_text(&t.head_data[k2]);
                head_items.push(item);
                proof {
                    assert(head_items.deep_view() =~~= prev.push(
                        t.head_data.deep_view()[k2 as int],
                    ));
                    assert(prev.push(t.head_data.deep_view()[k2 as int]) =~= mid
                        + t.head_data.deep_view().take(k2 + 1));
                }
                k2 = k2 + 1;
            }
            proof {
                assert(t.head_data.deep_view().take(t.head_data@.len() as int)
                    =~= t.head_data.deep_view());
                assert(head_items.deep_view() == p.head_data.deep_view()
                    + t.head_data.deep_view());
            }
            let joined_head = led_join_exec(&head_items);
            let mut rep = crate::text::copy_text(&head_tok);
            crate::text::extend(&mut rep, &joined_head);
            let with_head = crate::text::replace(&body_filled, &head_tok, &rep);
            base = apply_blocks_exec(with_head, &t.block_templates, &p.blocks);
        },
        None => {
            proof {
                assert(base@ =~= Seq::<char>::empty());
            }
        },
    }
    let title_trim = crate::text::trim(&p.title);
    let joined_globals = led_join_exec(globals);
    let title_open = crate::model::lit("\n<title>");
    let title_close = crate::model::lit("</title>");
    let mut title_rep = crate::text::copy_text(&head_tok);
    crate::text::extend(&mut title_rep, &title_open);
    crate::text::extend(&mut title_rep, &title_trim);
    crate::text::extend(&mut title_rep, &title_close);
    crate::text::extend(&mut title_rep, &joined_globals);
    assert(title_rep@ == "<head>"@ + "\n<title>"@ + trimmed(p.title@) + "</title>"@ + led_join(
        globals.deep_view(),
    ));
    let with_title = crate::text::replace(&base, &head_tok, &title_rep);
    apply_resources_exec(with_title, resources)
}

/// Render every page, pairing its declared output path with its HTML.
#[allow(non_snake_case)]
pub fn processContent(
    pages: &Vec<Page>,
    templates: &Vec<Template>,
    resourceNames: &Vec<Binding>,
    globalCSSJS: &Vec<Vec<char>>,
) -> (r: Vec<OutputFile>)
    ensures
        r@.len() == pages@.len(),
        forall|i: int|
            0 <= i < r@.len() ==> r@[i].path@ == pages@[i].path@ && r@[i].html@ == render_page(
                pages@[i],
                templates@,
                binds_view(resourceNames@),
                globalCSSJS.deep_view(),
            ),
{
    let mut r: Vec<OutputFile> = Vec::new();
    let mut i: usize = 0;
    while i < pages.len()
        invariant
            0 <= i <= pages@.len(),
            r@.len() == i,
            forall|j: int|
                0 <= j < i ==> r@[j].path@ == pages@[j].path@ && r@[j].html@ == render_page(
                    pages@[j],
                    templates@,
                    binds_view(resourceNames@),
                    globalCSSJS.deep_view(),
                ),
        decreases pages.len() - i,
    {
        let html = render_page_exec(&pages[i], templates, resourceNames, globalCSSJS);
        let path = crate::text::copy_text(&pages[i].path);
        r.push(OutputFile { path, html });
        i = i + 1;
    }
    r
}

} // verus!
