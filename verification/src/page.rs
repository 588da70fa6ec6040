//! The content parser: a line-oriented state machine that reads a
//! content file into a page. The file must open with a `config` line;
//! the configuration section sets `path`, `linkName`, `title` and
//! `template`; `css`, `js` and `blocks` sections follow as in
//! templates; blocks use three indent levels — a block name, a part
//! name, and part text — and a part declared without text defaults to
//! its own name. A blank line ends the blocks section and the body
//! runs to the end of the file. Every processed line receives the
//! load-time substitutions.

use crate::model::{binds_view, css_tag, js_tag, lit, Binding, Block, Page, RgenError, SourceFile};
use crate::subst::{subst_line, subst_line_exec};
use crate::tables::after_last_colon;
use crate::template::{joined, ParseMode};
use crate::text::{find_char, has_prefix, lines_of, trimmed};
use vstd::prelude::*;

verus! {

/// The name and part list of each block, in declaration order.
pub open spec fn blocks_view(bs: Seq<Block>) -> Seq<(Seq<char>, Seq<(Seq<char>, Seq<char>)>)> {
    bs.map_values(|b: Block| (b.name@, binds_view(b.parts@)))
}

/// The content parser's accumulated state.
pub ghost struct PageState {
    pub mode: ParseMode,
    pub path: Seq<char>,
    pub link_name: Seq<char>,
    pub title: Seq<char>,
    pub template: Seq<char>,
    pub head: Seq<Seq<char>>,
    pub blocks: Seq<(Seq<char>, Seq<(Seq<char>, Seq<char>)>)>,
    pub blk_open: bool,
    pub blk_name: Seq<char>,
    pub parts: Seq<(Seq<char>, Seq<char>)>,
    pub part_open: bool,
    pub part_name: Seq<char>,
    pub part_body: Seq<char>,
    pub part_body_started: bool,
    pub content: Seq<char>,
    pub content_started: bool,
}

/// The state after the `config` line, before any other line.
pub open spec fn page_init() -> PageState {
    PageState {
        mode: ParseMode::Config,
        path: seq![],
        link_name: seq![],
        title: seq![],
        template: seq![],
        head: seq![],
        blocks: seq![],
        blk_open: false,
        blk_name: seq![],
        parts: seq![],
        part_open: false,
        part_name: seq![],
        part_body: seq![],
        part_body_started: false,
        content: seq![],
        content_started: false,
    }
}

/// The part list with the open part, if any, closed and appended: a
/// part that never received text is recorded as its own name.
pub open spec fn page_close_part(st: PageState) -> Seq<(Seq<char>, Seq<char>)> {
    if st.part_open {
        if st.part_body_started {
            st.parts.push((st.part_name, st.part_body))
        } else {
            st.parts.push((st.part_name, st.part_name))
        }
    } else {
        st.parts
    }
}

/// The block list with the open block, if any, closed and appended,
/// its open part closed first.
pub open spec fn page_close_block(st: PageState) -> Seq<
    (Seq<char>, Seq<(Seq<char>, Seq<char>)>),
> {
    if st.blk_open {
        st.blocks.push((st.blk_name, page_close_part(st)))
    } else {
        st.blocks
    }
}

/// The state with block bookkeeping cleared.
pub open spec fn page_clear_block(st: PageState) -> PageState {
    PageState {
        blk_open: false,
        blk_name: seq![],
        parts: seq![],
        part_open: false,
        part_name: seq![],
        part_body: seq![],
        part_body_started: false,
        ..st
    }
}

/// One configuration line: `key:value`, the key before the first `:`,
/// the value after the last one. Unknown keys and lines without a `:`
/// set nothing.
pub open spec fn page_config_line(st: PageState, sub: Seq<char>) -> PageState {
    let j = find_char(sub, ':');
    if j < 0 {
        st
    } else {
        let key = sub.take(j);
        let value = after_last_colon(sub);
        if key == "path"@ {
            PageState { path: value, ..st }
        } else if key == "linkName"@ {
            PageState { link_name: value, ..st }
        } else if key == "title"@ {
            PageState { title: value, ..st }
        } else if key == "template"@ {
            PageState { template: value, ..st }
        } else {
            st
        }
    }
}

/// One step of the content parser.
pub open spec fn page_step(
    st: PageState,
    line: Seq<char>,
    vars: Seq<Binding>,
    links: Seq<Binding>,
    includes: Seq<Binding>,
) -> PageState {
    if st.mode is Content && st.content_started {
        PageState {
            content: joined(st.content, true, subst_line(line, vars, links, includes)),
            ..st
        }
    } else {
        let t = trimmed(line);
        if t == "css"@ {
            PageState { mode: ParseMode::Css, ..st }
        } else if t == "js"@ {
            PageState { mode: ParseMode::Js, ..st }
        } else if t == "blocks"@ {
            PageState { mode: ParseMode::Blocks, ..st }
        } else if t.len() == 0 {
            if st.mode is Blocks {
                PageState {
                    mode: ParseMode::Content,
                    blocks: page_close_block(st),
                    ..page_clear_block(st)
                }
            } else {
                st
            }
        } else {
            let sub = subst_line(t, vars, links, includes);
            match st.mode {
                ParseMode::Config => page_config_line(st, sub),
                ParseMode::Css => PageState { head: st.head.push(css_tag(sub)), ..st },
                ParseMode::Js => PageState { head: st.head.push(js_tag(sub)), ..st },
                ParseMode::Blocks => {
                    if has_prefix(line, "\t\t\t"@) || has_prefix(line, "            "@) {
                        if st.part_open {
                            PageState {
                                part_body: joined(st.part_body, st.part_body_started, sub),
                                part_body_started: true,
                                ..st
                            }
                        } else {
                            st
                        }
                    } else if has_prefix(line, "\t\t"@) || has_prefix(line, "        "@) {
                        if st.blk_open {
                            PageState {
                                parts: page_close_part(st),
                                part_open: true,
                                part_name: sub,
                                part_body: seq![],
                                part_body_started: false,
                                ..st
                            }
                        } else {
                            st
                        }
                    } else {
                        PageState {
                            blocks: page_close_block(st),
                            blk_open: true,
                            blk_name: sub,
                            ..page_clear_block(st)
                        }
                    }
                },
                ParseMode::Content => PageState {
                    content: subst_line(line, vars, links, includes),
                    content_started: true,
                    ..st
                },
                _ => st,
            }
        }
    }
}

/// The parser state after reading a sequence of lines.
pub open spec fn page_fold(
    st: PageState,
    ls: Seq<Seq<char>>,
    vars: Seq<Binding>,
    links: Seq<Binding>,
    includes: Seq<Binding>,
) -> PageState
    decreases ls.len(),
{
    if ls.len() == 0 {
        st
    } else {
        page_step(page_fold(st, ls.drop_last(), vars, links, includes), ls.last(), vars, links,
        includes)
    }
}

/// The state at end of file, with a still-open block closed.
pub open spec fn page_finalize(st: PageState) -> PageState {
    if st.mode is Blocks && st.blk_open {
        PageState { blocks: page_close_block(st), ..page_clear_block(st) }
    } else {
        st
    }
}

/// The parse of a whole content file: `None` when the file does not
/// open with a `config` line, otherwise the final parser state.
pub open spec fn page_spec(
    text: Seq<char>,
    vars: Seq<Binding>,
    links: Seq<Binding>,
    includes: Seq<Binding>,
) -> Option<PageState> {
    let ls = lines_of(text);
    if ls.len() == 0 || trimmed(ls.first()) != "config"@ {
        None
    } else {
        Some(page_finalize(page_fold(page_init(), ls.skip(1), vars, links, includes)))
    }
}

/// How a parsed `Page` value relates to its source text.
pub open spec fn page_matches(
    p: Page,
    text: Seq<char>,
    vars: Seq<Binding>,
    links: Seq<Binding>,
    includes: Seq<Binding>,
) -> bool {
    match page_spec(text, vars, links, includes) {
        Some(st) => {
            &&& p.path@ == st.path
            &&& p.link_name@ == st.link_name
            &&& p.title@ == st.title
            &&& p.template@ == st.template
            &&& p.head_data.deep_view() == st.head
            &&& blocks_view(p.blocks@) == st.blocks
            &&& p.content@ == st.content
        },
        None => false,
    }
}

/// Parse one content file; fails when the `config` header is missing.
pub fn parse_page(
    f: &SourceFile,
    vars: &Vec<Binding>,
    links: &Vec<Binding>,
    includes: &Vec<Binding>,
) -> (r: Result<Page, RgenError>)
    ensures
        match r {
            Ok(p) => page_matches(p, f.text@, vars@, links@, includes@),
            Err(e) => page_spec(f.text@, vars@, links@, includes@) is None && (e matches
                RgenError::MissingConfig { path } && path@ == f.path@),
        },
{
    let kw_config = lit("config");
    let kw_css = lit("css");
    let kw_js = lit("js");
    let kw_blocks = lit("blocks");
    let kw_path = lit("path");
    let kw_link_name = lit("linkName");
    let kw_title = lit("title");
    let kw_template = lit("template");
    let part_tabs = lit("\t\t\t");
    let part_spaces = lit("            ");
    let mid_tabs = lit("\t\t");
    let mid_spaces = lit("        ");

    let ls = crate::text::split_lines(&f.text);
    let ghost dv = lines_of(f.text@);

    if ls.len() == 0 {
        return Err(RgenError::MissingConfig { path: crate::text::copy_text(&f.path) });
    }
    let first_trim = crate::text::trim(&ls[0]);
    assert(ls@[0]@ == dv.first());
    if !crate::text::chars_eq(&first_trim, &kw_config) {
        return Err(RgenError::MissingConfig { path: crate::text::copy_text(&f.path) });
    }

    let mut mode: ParseMode = ParseMode::Config;
    let mut path: Vec<char> = Vec::new();
    let mut link_name: Vec<char> = Vec::new();
    let mut title: Vec<char> = Vec::new();
    let mut template: Vec<char> = Vec::new();
    let mut head: Vec<Vec<char>> = Vec::new();
    let mut blocks: Vec<Block> = Vec::new();
    let mut blk_open: bool = false;
    let mut blk_name: Vec<char> = Vec::new();
    let mut parts: Vec<Binding> = Vec::new();
    let mut part_open: bool = false;
    let mut part_name: Vec<char> = Vec::new();
    let mut part_body: Vec<char> = Vec::new();
    let mut part_body_started: bool = false;
    let mut content: Vec<char> = Vec::new();
    let mut content_started: bool = false;

    proof {
        let st0 = page_init();
        assert(head.deep_view() =~= st0.head);
        assert(blocks_view(blocks@) =~= st0.blocks);
        assert(binds_view(parts@) =~= st0.parts);
        assert(dv.subrange(1, 1) =~= dv.skip(1).take(0));
        assert(page_fold(page_init(), dv.subrange(1, 1), vars@, links@, includes@) == st0);
    }

    let mut i: usize = 1;
    while i < ls.len()
        invariant
            1 <= i <= ls@.len(),
            kw_css@ == "css"@,
            kw_js@ == "js"@,
            kw_blocks@ == "blocks"@,
            kw_path@ == "path"@,
            kw_link_name@ == "linkName"@,
            kw_title@ == "title"@,
            kw_template@ == "template"@,
            part_tabs@ == "\t\t\t"@,
            part_spaces@ == "            "@,
            mid_tabs@ == "\t\t"@,
            mid_spaces@ == "        "@,
            ls.deep_view() == dv,
            dv == lines_of(f.text@),
            dv.len() == ls@.len(),
            dv.len() > 0,
            ({
                let g = page_fold(page_init(), dv.subrange(1, i as int), vars@, links@, includes@);
                g.mode == mode && g.path == path@ && g.link_name == link_name@ && g.title == title@
                    && g.template == template@ && g.head == head.deep_view() && g.blocks
                    == blocks_view(blocks@) && g.blk_open == blk_open && g.blk_name == blk_name@
                    && g.parts == binds_view(parts@) && g.part_open == part_open && g.part_name
                    == part_name@ && g.part_body == part_body@ && g.part_body_started
                    == part_body_started && g.content == content@ && g.content_started
                    == content_started
            }),
        decreases ls.len() - i,
    {
        let ghost g = page_fold(page_init(), dv.subrange(1, i as int), vars@, links@, includes@);
        let ghost g2 = page_fold(page_init(), dv.subrange(1, i + 1), vars@, links@, includes@);
        proof {
            assert(dv.subrange(1, i + 1).drop_last() =~= dv.subrange(1, i as int));
            assert(dv.subrange(1, i + 1).last() == dv[i as int]);
            assert(g2 == page_step(g, dv[i as int], vars@, links@, includes@));
        }
        let line = &ls[i];
        assert(line@ == dv[i as int]);
        let mut in_content_body = false;
        match mode {
            ParseMode::Content => {
                if content_started {
                    in_content_body = true;
                }
            },
            _ => {},
        }
        if in_content_body {
            let sub = subst_line_exec(line, vars, links, includes);
            let nl = lit("\n");
            crate::text::extend(&mut content, &nl);
            crate::text::extend(&mut content, &sub);
            assert(content@ == joined(g.content, true, subst_line(line@, vars@, links@, includes@)));
        } else {
            let t = crate::text::trim(line);
            if crate::text::chars_eq(&t, &kw_css) {
                mode = ParseMode::Css;
            } else if crate::text::chars_eq(&t, &kw_js) {
                mode = ParseMode::Js;
            } else if crate::text::chars_eq(&t, &kw_blocks) {
                mode = ParseMode::Blocks;
            } else if t.len() == 0 {
                let mut blocks_mode = false;
                match mode {
                    ParseMode::Blocks => {
                        blocks_mode = true;
                    },
                    _ => {},
                }
                if blocks_mode {
                    if blk_open {
                        let closed_parts = close_part_exec(
                            parts,
                            part_open,
                            part_name,
                            &part_body,
                            part_body_started,
                            Ghost(g),
                        );
                        let ghost prev = blocks_view(blocks@);
                        blocks.push(Block { name: blk_name, parts: closed_parts });
                        proof {
                            assert(blocks_view(blocks@) =~= prev.push(
                                (g.blk_name, page_close_part(g)),
                            ));
                        }
                    }
                    blk_name = Vec::new();
                    parts = Vec::new();
                    part_name = Vec::new();
                    part_body = Vec::new();
                    blk_open = false;
                    part_open = false;
                    part_body_started = false;
                    mode = ParseMode::Content;
                    proof {
                        assert(blk_name@ =~= Seq::<char>::empty());
                        assert(part_name@ =~= Seq::<char>::empty());
                        assert(part_body@ =~= Seq::<char>::empty());
                        assert(binds_view(parts@) =~= Seq::<(Seq<char>, Seq<char>)>::empty());
                    }
                }
            } else {
                let sub = subst_line_exec(&t, vars, links, includes);
                match mode {
                    ParseMode::Config => {
                        match crate::text::find_char_exec(&sub, ':') {
                            Some(j) => {
                                let key = crate::text::subrange(&sub, 0, j);
                                assert(key@ =~= sub@.take(j as int));
                                let value = crate::tables::take_after_last_colon(&sub);
                                if crate::text::chars_eq(&key, &kw_path) {
                                    path = value;
                                } else if crate::text::chars_eq(&key, &kw_link_name) {
                                    link_name = value;
                                } else if crate::text::chars_eq(&key, &kw_title) {
                                    title = value;
                                } else if crate::text::chars_eq(&key, &kw_template) {
                                    template = value;
                                }
                            },
                            None => {},
                        }
                    },
                    ParseMode::Css => {
                        let tag = crate::model::make_css_tag(&sub);
                        let ghost prev = head.deep_view();
                        head.push(tag);
                        proof {
                            assert(head.deep_view() =~~= prev.push(
                                css_tag(subst_line(trimmed(line@), vars@, links@, includes@)),
                            ));
                        }
                    },
                    ParseMode::Js => {
                        let tag = crate::model::make_js_tag(&sub);
                        let ghost prev = head.deep_view();
                        head.push(tag);
                        proof {
                            assert(head.deep_view() =~~= prev.push(
                                js_tag(subst_line(trimmed(line@), vars@, links@, includes@)),
                            ));
                        }
                    },
                    ParseMode::Blocks => {
                        if crate::text::starts_with(line, &part_tabs) || crate::text::starts_with(
                            line,
                            &part_spaces,
                        ) {
                            if part_open {
                                if part_body_started {
                                    let nl = lit("\n");
                                    crate::text::extend(&mut part_body, &nl);
                                    crate::text::extend(&mut part_body, &sub);
                                } else {
                                    part_body = sub;
                                }
                                part_body_started = true;
                            }
                        } else if crate::text::starts_with(line, &mid_tabs)
                            || crate::text::starts_with(line, &mid_spaces) {
                            if blk_open {
                                let closed = close_part_exec(
                                    parts,
                                    part_open,
                                    part_name,
                                    &part_body,
                                    part_body_started,
                                    Ghost(g),
                                );
                                parts = closed;
                                part_open = true;
                                part_name = sub;
                                part_body = Vec::new();
                                part_body_started = false;
                            }
                        } else {
                            if blk_open {
                                let closed_parts = close_part_exec(
                                    parts,
                                    part_open,
                                    part_name,
                                    &part_body,
                                    part_body_started,
                                    Ghost(g),
                                );
                                let ghost prev = blocks_view(blocks@);
                                blocks.push(Block { name: blk_name, parts: closed_parts });
                                proof {
                                    assert(blocks_view(blocks@) =~= prev.push(
                                        (g.blk_name, page_close_part(g)),
                                    ));
                                }
                            }
                            blk_open = true;
                            blk_name = sub;
                            parts = Vec::new();
                            part_name = Vec::new();
                            part_body = Vec::new();
                            part_open = false;
                            part_body_started = false;
                            proof {
                                assert(part_name@ =~= Seq::<char>::empty());
                                assert(part_body@ =~= Seq::<char>::empty());
                                assert(binds_view(parts@) =~= Seq::<
                                    (Seq<char>, Seq<char>),
                                >::empty());
                            }
                        }
                    },
                    ParseMode::Content => {
                        content = subst_line_exec(line, vars, links, includes);
                        content_started = true;
                    },
                    _ => {},
                }
            }
        }
        i = i + 1;
    }
    proof {
        assert(dv.subrange(1, dv.len() as int) =~= dv.skip(1));
    }
    let ghost gfin = page_fold(page_init(), dv.skip(1), vars@, links@, includes@);
    if blk_open {
        let mut final_blocks_mode = false;
        match mode {
            ParseMode::Blocks => {
                final_blocks_mode = true;
            },
            _ => {},
        }
        if final_blocks_mode {
            let closed_parts = close_part_exec(
                parts,
                part_open,
                part_name,
                &part_body,
                part_body_started,
                Ghost(gfin),
            );
            let ghost prev = blocks_view(blocks@);
            blocks.push(Block { name: blk_name, parts: closed_parts });
            proof {
                assert(blocks_view(blocks@) =~= prev.push((gfin.blk_name, page_close_part(gfin))));
            }
        }
    }
    proof {
        let st = page_finalize(gfin);
        assert(st.head == head.deep_view());
        assert(st.blocks == blocks_view(blocks@));
    }
    Ok(
        Page {
            path,
            link_name,
            title,
            template,
            blocks,
            head_data: head,
            content,
        },
    )
}

/// Close the open part, if any, appending it to the part list.
fn close_part_exec(
    parts: Vec<Binding>,
    part_open: bool,
    part_name: Vec<char>,
    part_body: &Vec<char>,
    part_body_started: bool,
    Ghost(g): Ghost<PageState>,
) -> (r: Vec<Binding>)
    requires
        g.parts == binds_view(parts@),
        g.part_open == part_open,
        g.part_name == part_name@,
        g.part_body == part_body@,
        g.part_body_started == part_body_started,
    ensures
        binds_view(r@) == page_close_part(g),
{
    let mut parts = parts;
    if part_open {
        let ghost prev = binds_view(parts@);
        if part_body_started {
            let body = crate::text::copy_text(part_body);
            let ghost nm = part_name@;
            parts.push(Binding { name: part_name, value: body });
            proof {
                assert(binds_view(parts@) =~= prev.push((nm, g.part_body)));
            }
        } else {
            let name2 = crate::text::copy_text(&part_name);
            let ghost nm = part_name@;
            parts.push(Binding { name: part_name, value: name2 });
            proof {
                assert(binds_view(parts@) =~= prev.push((nm, nm)));
            }
        }
    }
    parts
}

/// Parse every content file, in file order; the first file without a
/// `config` header fails the load.
#[allow(non_snake_case)]
pub fn loadContent(
    contentFiles: &Vec<SourceFile>,
    vars: &Vec<Binding>,
    links: &Vec<Binding>,
    includes: &Vec<Binding>,
) -> (r: Result<Vec<Page>, RgenError>)
    ensures
        match r {
            Ok(v) => v@.len() == contentFiles@.len() && forall|i: int|
                0 <= i < v@.len() ==> page_matches(
                    v@[i],
                    contentFiles@[i].text@,
                    vars@,
                    links@,
                    includes@,
                ),
            Err(e) => exists|i: int|
                0 <= i < contentFiles@.len() && #[trigger] page_spec(
                    contentFiles@[i].text@,
                    vars@,
                    links@,
                    includes@,
                ) is None && (e matches RgenError::MissingConfig { path } && path@
                == contentFiles@[i].path@) && forall|j: int|
                    0 <= j < i ==> page_spec(
                        contentFiles@[j].text@,
                        vars@,
                        links@,
                        includes@,
                    ) is Some,
        },
{
    let mut v: Vec<Page> = Vec::new();
    let mut i: usize = 0;
    while i < contentFiles.len()
        invariant
            0 <= i <= contentFiles@.len(),
            v@.len() == i,
            forall|j: int|
                0 <= j < i ==> page_matches(
                    v@[j],
                    contentFiles@[j].text@,
                    vars@,
                    links@,
                    includes@,
                ),
        decreases contentFiles.len() - i,
    {
        match parse_page(&contentFiles[i], vars, links, includes) {
            Ok(p) => {
                v.push(p);
            },
            Err(e) => {
                proof {
                    assert forall|j: int| 0 <= j < i implies page_spec(
                        contentFiles@[j].text@,
                        vars@,
                        links@,
                        includes@,
                    ) is Some by {
                        assert(page_matches(
                            v@[j],
                            contentFiles@[j].text@,
                            vars@,
                            links@,
                            includes@,
                        ));
                    }
                    assert(page_spec(contentFiles@[i as int].text@, vars@, links@, includes@)
                        is None);
                }
                return Err(e);
            },
        }
        i = i + 1;
    }
    Ok(v)
}

/// The hook where a Markdown pass would rewrite page bodies and block
/// parts to HTML; the conversion itself is an external collaborator
/// and this build applies none, leaving every page unchanged.
#[allow(non_snake_case)]
pub fn mdToHTML(pages: &mut Vec<Page>)
    ensures
        final(pages)@ == old(pages)@,
{
}

} // verus!
