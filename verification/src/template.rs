//! The template parser: a line-oriented state machine that reads a
//! template file into its inheritance parent, head tags, named block
//! templates and body text.
//!
//! The first line may carry an `inherit <name>` directive or open a
//! section; afterwards the literal lines `css`, `js` and `blocks`
//! switch sections, a blank line ends the blocks section, and the
//! first body line starts the body, which then runs to the end of the
//! file. Every processed line receives the load-time substitutions.

use crate::model::{binds_view, css_tag, js_tag, lit, Binding, SourceFile, Template};
use crate::subst::{subst_line, subst_line_exec};
use crate::text::{filestem_of, has_prefix, lines_of, rfind_char, trimmed};
use vstd::prelude::*;

verus! {

/// The sections a parsed file moves through.
pub enum ParseMode {
    /// A content file's leading configuration section.
    Config,
    /// The line-1 `inherit` directive was seen; waiting for a header.
    Inherit,
    /// Lines name CSS files for the head.
    Css,
    /// Lines name JS files for the head.
    Js,
    /// Lines declare blocks by indentation.
    Blocks,
    /// Remaining lines are body text.
    Content,
}

/// The template parser's accumulated state.
pub ghost struct TplState {
    pub mode: ParseMode,
    pub head: Seq<Seq<char>>,
    pub blocks: Seq<(Seq<char>, Seq<char>)>,
    pub blk_open: bool,
    pub blk_name: Seq<char>,
    pub blk_body: Seq<char>,
    pub blk_body_started: bool,
    pub content: Seq<char>,
    pub content_started: bool,
}

/// The state before any line has been read, in a given mode.
pub open spec fn tpl_init(mode: ParseMode) -> TplState {
    TplState {
        mode,
        head: seq![],
        blocks: seq![],
        blk_open: false,
        blk_name: seq![],
        blk_body: seq![],
        blk_body_started: false,
        content: seq![],
        content_started: false,
    }
}

/// The block list with the open block, if any, closed and appended.
pub open spec fn tpl_close_block(st: TplState) -> Seq<(Seq<char>, Seq<char>)> {
    if st.blk_open {
        st.blocks.push((st.blk_name, st.blk_body))
    } else {
        st.blocks
    }
}

/// A body accumulator extended by one line: the first line stands
/// alone, later ones are joined with a newline.
pub open spec fn joined(acc: Seq<char>, started: bool, line: Seq<char>) -> Seq<char> {
    if started {
        acc + "\n"@ + line
    } else {
        line
    }
}

/// One step of the template parser.
pub open spec fn tpl_step(
    st: TplState,
    line: Seq<char>,
    vars: Seq<Binding>,
    links: Seq<Binding>,
    includes: Seq<Binding>,
) -> TplState {
    if st.mode is Content && st.content_started {
        TplState {
            content: joined(st.content, true, subst_line(line, vars, links, includes)),
            ..st
        }
    } else {
        let t = trimmed(line);
        if t == "css"@ {
            TplState { mode: ParseMode::Css, ..st }
        } else if t == "js"@ {
            TplState { mode: ParseMode::Js, ..st }
        } else if t == "blocks"@ {
            TplState { mode: ParseMode::Blocks, ..st }
        } else if t.len() == 0 {
            if st.mode is Blocks {
                TplState {
                    mode: ParseMode::Content,
                    blocks: tpl_close_block(st),
                    blk_open: false,
                    blk_name: seq![],
                    blk_body: seq![],
                    blk_body_started: false,
                    ..st
                }
            } else {
                st
            }
        } else {
            let sub = subst_line(t, vars, links, includes);
            match st.mode {
                ParseMode::Css => TplState { head: st.head.push(css_tag(sub)), ..st },
                ParseMode::Js => TplState { head: st.head.push(js_tag(sub)), ..st },
                ParseMode::Blocks => {
                    if has_prefix(line, "\t\t"@) || has_prefix(line, "        "@) {
                        if st.blk_open {
                            TplState {
                                blk_body: joined(st.blk_body, st.blk_body_started, sub),
                                blk_body_started: true,
                                ..st
                            }
                        } else {
                            st
                        }
                    } else {
                        TplState {
                            blocks: tpl_close_block(st),
                            blk_open: true,
                            blk_name: sub,
                            blk_body: seq![],
                            blk_body_started: false,
                            ..st
                        }
                    }
                },
                ParseMode::Content => TplState {
                    content: subst_line(line, vars, links, includes),
                    content_started: true,
                    ..st
                },
                _ => st,
            }
        }
    }
}

/// The parser state after reading a sequence of lines.
pub open spec fn tpl_fold(
    st: TplState,
    ls: Seq<Seq<char>>,
    vars: Seq<Binding>,
    links: Seq<Binding>,
    includes: Seq<Binding>,
) -> TplState
    decreases ls.len(),
{
    if ls.len() == 0 {
        st
    } else {
        tpl_step(tpl_fold(st, ls.drop_last(), vars, links, includes), ls.last(), vars, links,
        includes)
    }
}

/// The state at end of file, with a still-open block closed.
pub open spec fn tpl_finalize(st: TplState) -> TplState {
    if st.mode is Blocks && st.blk_open {
        TplState { blocks: tpl_close_block(st), blk_open: false, ..st }
    } else {
        st
    }
}

/// The parent name an `inherit` directive sets: the last
/// space-separated token of the trimmed line.
pub open spec fn inherit_name(t: Seq<char>) -> Seq<char> {
    let j = rfind_char(t, ' ');
    if j < 0 {
        t
    } else {
        t.skip(j + 1)
    }
}

/// What the first line of a template file sets up: the parent name
/// (empty without an `inherit` directive) and the starting state. A
/// first line that is no directive and no header is dropped.
pub open spec fn tpl_first(line: Seq<char>) -> (Seq<char>, TplState) {
    let t = trimmed(line);
    if has_prefix(t, "inherit "@) {
        (inherit_name(t), tpl_init(ParseMode::Inherit))
    } else if t == "css"@ {
        (seq![], tpl_init(ParseMode::Css))
    } else if t == "js"@ {
        (seq![], tpl_init(ParseMode::Js))
    } else if t == "blocks"@ {
        (seq![], tpl_init(ParseMode::Blocks))
    } else {
        (seq![], tpl_init(ParseMode::Content))
    }
}

/// The parent name and final parser state for a whole file.
pub open spec fn template_spec(
    text: Seq<char>,
    vars: Seq<Binding>,
    links: Seq<Binding>,
    includes: Seq<Binding>,
) -> (Seq<char>, TplState) {
    let ls = lines_of(text);
    if ls.len() == 0 {
        (seq![], tpl_finalize(tpl_init(ParseMode::Content)))
    } else {
        let first = tpl_first(ls.first());
        (first.0, tpl_finalize(tpl_fold(first.1, ls.skip(1), vars, links, includes)))
    }
}

/// How a parsed `Template` value relates to its source file.
pub open spec fn tpl_matches(
    t: Template,
    f: SourceFile,
    vars: Seq<Binding>,
    links: Seq<Binding>,
    includes: Seq<Binding>,
) -> bool {
    let spec_result = template_spec(f.text@, vars, links, includes);
    &&& t.name@ == filestem_of(f.path@)
    &&& t.inherit@ == spec_result.0
    &&& t.head_data.deep_view() == spec_result.1.head
    &&& binds_view(t.block_templates@) == spec_result.1.blocks
    &&& t.content@ == spec_result.1.content
}

/// Parse one template file.
pub fn parse_template(
    f: &SourceFile,
    vars: &Vec<Binding>,
    links: &Vec<Binding>,
    includes: &Vec<Binding>,
) -> (t: Template)
    ensures
        tpl_matches(t, *f, vars@, links@, includes@),
{
    let kw_css = lit("css");
    let kw_js = lit("js");
    let kw_blocks = lit("blocks");
    let kw_inherit = lit("inherit ");
    let inner_tabs = lit("\t\t");
    let inner_spaces = lit("        ");
    let name = crate::text::filestem(&f.path);
    let ls = crate::text::split_lines(&f.text);

    let mut inherit: Vec<char> = Vec::new();
    let mut mode: ParseMode = ParseMode::Content;
    let mut head: Vec<Vec<char>> = Vec::new();
    let mut blocks: Vec<Binding> = Vec::new();
    let mut blk_open: bool = false;
    let mut blk_name: Vec<char> = Vec::new();
    let mut blk_body: Vec<char> = Vec::new();
    let mut blk_body_started: bool = false;
    let mut content: Vec<char> = Vec::new();
    let mut content_started: bool = false;

    if ls.len() == 0 {
        proof {
            assert(lines_of(f.text@).len() == 0);
            let st = template_spec(f.text@, vars@, links@, includes@).1;
            assert(head.deep_view() =~= st.head);
            assert(binds_view(blocks@) =~= st.blocks);
            assert(content@ =~= st.content);
            assert(inherit@ =~= template_spec(f.text@, vars@, links@, includes@).0);
        }
        return Template { name, inherit, head_data: head, block_templates: blocks, content };
    }

    let first_trim = crate::text::trim(&ls[0]);
    assert(ls@[0]@ == lines_of(f.text@).first());
    if crate::text::starts_with(&first_trim, &kw_inherit) {
        mode = ParseMode::Inherit;
        let ft_len = first_trim.len();
        match crate::text::rfind(&first_trim, ' ') {
            Some(j) => {
                inherit = crate::text::subrange(&first_trim, j + 1, ft_len);
                assert(inherit@ =~= first_trim@.skip(j + 1));
            },
            None => {
                inherit = crate::text::copy_text(&first_trim);
            },
        }
        assert(inherit@ == inherit_name(trimmed(ls@[0]@)));
    } else if crate::text::chars_eq(&first_trim, &kw_css) {
        mode = ParseMode::Css;
    } else if crate::text::chars_eq(&first_trim, &kw_js) {
        mode = ParseMode::Js;
    } else if crate::text::chars_eq(&first_trim, &kw_blocks) {
        mode = ParseMode::Blocks;
    } else {
        mode = ParseMode::Content;
    }
    let ghost first = tpl_first(lines_of(f.text@).first());
    proof {
        assert(inherit@ == first.0);
        let st0 = first.1;
        assert(st0.mode == mode);
        assert(head.deep_view() =~= st0.head);
        assert(binds_view(blocks@) =~= st0.blocks);
        assert(blk_name@ =~= st0.blk_name);
        assert(blk_body@ =~= st0.blk_body);
        assert(content@ =~= st0.content);
    }

    let ghost dv = lines_of(f.text@);
    let mut i: usize = 1;
    proof {
        assert(dv.skip(1).take(0) =~= dv.subrange(1, 1));
        assert(tpl_fold(first.1, dv.subrange(1, 1), vars@, links@, includes@) == first.1);
    }
    while i < ls.len()
        invariant
            1 <= i <= ls@.len(),
            kw_css@ == "css"@,
            kw_js@ == "js"@,
            kw_blocks@ == "blocks"@,
            inner_tabs@ == "\t\t"@,
            inner_spaces@ == "        "@,
            ls.deep_view() == dv,
            dv == lines_of(f.text@),
            dv.len() == ls@.len(),
            dv.len() > 0,
            inherit@ == first.0,
            first == tpl_first(dv.first()),
            ({
                let g = tpl_fold(first.1, dv.subrange(1, i as int), vars@, links@, includes@);
                g.mode == mode && g.head == head.deep_view() && g.blocks == binds_view(blocks@)
                    && g.blk_open == blk_open && g.blk_name == blk_name@ && g.blk_body == blk_body@
                    && g.blk_body_started == blk_body_started && g.content == content@
                    && g.content_started == content_started
            }),
        decreases ls.len() - i,
    {
        let ghost g = tpl_fold(first.1, dv.subrange(1, i as int), vars@, links@, includes@);
        let ghost g2 = tpl_fold(first.1, dv.subrange(1, i + 1), vars@, links@, includes@);
        proof {
            assert(dv.subrange(1, i + 1).drop_last() =~= dv.subrange(1, i as int));
            assert(dv.subrange(1, i + 1).last() == dv[i as int]);
            assert(g2 == tpl_step(g, dv[i as int], vars@, links@, includes@));
        }
        let line = &ls[i];
        assert(line@ == dv[i as int]);
        let mut in_content_body = false;
        match mode {
            ParseMode::Content => {
                if content_started {
                    in_content_body = true;
                }
            },
            _ => {},
        }
        if in_content_body {
            let sub = subst_line_exec(line, vars, links, includes);
            let nl = lit("\n");
            crate::text::extend(&mut content, &nl);
            crate::text::extend(&mut content, &sub);
            assert(content@ == joined(g.content, true, subst_line(line@, vars@, links@, includes@)));
        } else {
            let t = crate::text::trim(line);
            if crate::text::chars_eq(&t, &kw_css) {
                mode = ParseMode::Css;
            } else if crate::text::chars_eq(&t, &kw_js) {
                mode = ParseMode::Js;
            } else if crate::text::chars_eq(&t, &kw_blocks) {
                mode = ParseMode::Blocks;
            } else if t.len() == 0 {
                let mut blocks_mode = false;
                match mode {
                    ParseMode::Blocks => {
                        blocks_mode = true;
                    },
                    _ => {},
                }
                if blocks_mode {
                    if blk_open {
                        let ghost prev = binds_view(blocks@);
                        blocks.push(Binding { name: blk_name, value: blk_body });
                        proof {
                            assert(binds_view(blocks@) =~= prev.push((g.blk_name, g.blk_body)));
                        }
                    }
                    blk_name = Vec::new();
                    blk_body = Vec::new();
                    blk_body_started = false;
                    blk_open = false;
                    mode = ParseMode::Content;
                    proof {
                        assert(blk_name@ =~= Seq::<char>::empty());
                        assert(blk_body@ =~= Seq::<char>::empty());
                    }
                }
            } else {
                let sub = subst_line_exec(&t, vars, links, includes);
                match mode {
                    ParseMode::Css => {
                        let tag = crate::model::make_css_tag(&sub);
                        let ghost prev = head.deep_view();
                        head.push(tag);
                        proof {
                            assert(head.deep_view() =~~= prev.push(
                                css_tag(subst_line(trimmed(line@), vars@, links@, includes@)),
                            ));
                        }
                    },
                    ParseMode::Js => {
                        let tag = crate::model::make_js_tag(&sub);
                        let ghost prev = head.deep_view();
                        head.push(tag);
                        proof {
                            assert(head.deep_view() =~~= prev.push(
                                js_tag(subst_line(trimmed(line@), vars@, links@, includes@)),
                            ));
                        }
                    },
                    ParseMode::Blocks => {
                        if crate::text::starts_with(line, &inner_tabs) || crate::text::starts_with(
                            line,
                            &inner_spaces,
                        ) {
                            if blk_open {
                                if blk_body_started {
                                    let nl = lit("\n");
                                    crate::text::extend(&mut blk_body, &nl);
                                    crate::text::extend(&mut blk_body, &sub);
                                } else {
                                    blk_body = sub;
                                }
                                blk_body_started = true;
                            }
                        } else {
                            if blk_open {
                                let ghost prev = binds_view(blocks@);
                                blocks.push(Binding { name: blk_name, value: blk_body });
                                proof {
                                    assert(binds_view(blocks@) =~= prev.push(
                                        (g.blk_name, g.blk_body),
                                    ));
                                }
                            }
                            blk_open = true;
                            blk_name = sub;
                            blk_body = Vec::new();
                            blk_body_started = false;
                        }
                    },
                    ParseMode::Content => {
                        content = subst_line_exec(line, vars, links, includes);
                        content_started = true;
                    },
                    _ => {},
                }
            }
        }
        i = i + 1;
    }
    proof {
        assert(dv.subrange(1, dv.len() as int) =~= dv.skip(1));
    }
    let ghost gfin = tpl_fold(first.1, dv.skip(1), vars@, links@, includes@);
    if blk_open {
        let mut final_blocks_mode = false;
        match mode {
            ParseMode::Blocks => {
                final_blocks_mode = true;
            },
            _ => {},
        }
        if final_blocks_mode {
            let ghost prev = binds_view(blocks@);
            blocks.push(Binding { name: blk_name, value: blk_body });
            proof {
                assert(binds_view(blocks@) =~= prev.push((gfin.blk_name, gfin.blk_body)));
            }
        }
    }
    proof {
        let st = tpl_finalize(gfin);
        assert(st.head == head.deep_view());
        assert(st.blocks == binds_view(blocks@));
        assert(st.content == content@);
    }
    Template { name, inherit, head_data: head, block_templates: blocks, content }
}

/// Parse every template file, in file order.
#[allow(non_snake_case)]
pub fn loadTemplates(
    templateFiles: &Vec<SourceFile>,
    vars: &Vec<Binding>,
    links: &Vec<Binding>,
    includes: &Vec<Binding>,
) -> (r: Vec<Template>)
    ensures
        r@.len() == templateFiles@.len(),
        forall|i: int|
            0 <= i < r@.len() ==> tpl_matches(
                r@[i],
                templateFiles@[i],
                vars@,
                links@,
                includes@,
            ),
{
    let mut r: Vec<Template> = Vec::new();
    let mut i: usize = 0;
    while i < templateFiles.len()
        invariant
            0 <= i <= templateFiles@.len(),
            r@.len() == i,
            forall|j: int|
                0 <= j < i ==> tpl_matches(r@[j], templateFiles@[j], vars@, links@, includes@),
        decreases templateFiles.len() - i,
    {
        let t = parse_template(&templateFiles[i], vars, links, includes);
        r.push(t);
        i = i + 1;
    }
    r
}

} // verus!
