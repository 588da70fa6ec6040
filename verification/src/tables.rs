//! The lookup tables built before templates and pages are loaded: the
//! resource table, the variable table, the link table, the include
//! table and the global head tags.

use crate::model::{binds_view, css_tag, js_tag, lit, Binding, SourceFile};
use crate::subst::{replace_vars_spec, replaceVars};
use crate::text::{
    basename_of, filestem_of, find_idx, has_prefix, lines_of, rfind_char, trimmed,
};
use vstd::prelude::*;

verus! {

/// Where a resource path's site-relative part starts: at `/js/`,
/// `/img/` or `/css/`, the later-searched marker taking precedence,
/// or at the start of the path when none occurs.
pub open spec fn resource_index(p: Seq<char>) -> int {
    let jcss = find_idx(p, "/css/"@);
    let jimg = find_idx(p, "/img/"@);
    let jjs = find_idx(p, "/js/"@);
    if jjs >= 0 {
        jjs
    } else if jimg >= 0 {
        jimg
    } else if jcss >= 0 {
        jcss
    } else {
        0
    }
}

/// The resource table entry for one path: its basename, and the path
/// from the site-relative marker on.
pub open spec fn resource_entry(p: Seq<char>) -> (Seq<char>, Seq<char>) {
    (basename_of(p), p.skip(resource_index(p)))
}

/// Build the resource table: one `(filename, site path)` entry per
/// resource file, in file order.
#[allow(non_snake_case)]
pub fn loadResourceNames(resourceFiles: &Vec<Vec<char>>) -> (r: Vec<Binding>)
    ensures
        binds_view(r@) == resourceFiles@.map_values(|p: Vec<char>| resource_entry(p@)),
{
    let pat_css = lit("/css/");
    let pat_img = lit("/img/");
    let pat_js = lit("/js/");
    let mut r: Vec<Binding> = Vec::new();
    let mut i: usize = 0;
    proof {
        assert(binds_view(r@) =~= resourceFiles@.take(0).map_values(
            |p: Vec<char>| resource_entry(p@),
        ));
    }
    while i < resourceFiles.len()
        invariant
            0 <= i <= resourceFiles@.len(),
            pat_css@ == "/css/"@,
            pat_img@ == "/img/"@,
            pat_js@ == "/js/"@,
            binds_view(r@) == resourceFiles@.take(i as int).map_values(
                |p: Vec<char>| resource_entry(p@),
            ),
        decreases resourceFiles.len() - i,
    {
        let p = &resourceFiles[i];
        let n = p.len();
        let jcss = crate::text::find(p, &pat_css);
        let jimg = crate::text::find(p, &pat_img);
        let jjs = crate::text::find(p, &pat_js);
        let idx: usize = match jjs {
            Some(k) => k,
            None => match jimg {
                Some(k) => k,
                None => match jcss {
                    Some(k) => k,
                    None => 0,
                },
            },
        };
        assert(idx as int == resource_index(p@));
        let name = crate::text::basename(p);
        let value = crate::text::subrange(p, idx, n);
        proof {
            assert(p@.subrange(idx as int, n as int) =~= p@.skip(idx as int));
        }
        let ghost prev = binds_view(r@);
        r.push(Binding { name, value });
        proof {
            assert(binds_view(r@) =~= prev.push(resource_entry(p@)));
            assert(resourceFiles@.take(i + 1).map_values(|q: Vec<char>| resource_entry(q@))
                =~= resourceFiles@.take(i as int).map_values(
                |q: Vec<char>| resource_entry(q@),
            ).push(resource_entry(p@)));
        }
        i = i + 1;
    }
    proof {
        assert(resourceFiles@.take(resourceFiles@.len() as int) =~= resourceFiles@);
    }
    r
}

/// The `(name, value)` pair a `vars.txt` line declares, if any: the
/// text before the first `: ` and the text between that separator and
/// the next one, both trimmed. A line without `: ` declares nothing.
pub open spec fn var_line_entry(line: Seq<char>) -> Option<(Seq<char>, Seq<char>)> {
    let j = find_idx(line, ": "@);
    if j < 0 {
        None
    } else {
        let name = trimmed(line.take(j));
        let rest = line.skip(j + 2);
        let k = find_idx(rest, ": "@);
        let raw = if k < 0 {
            rest
        } else {
            rest.take(k)
        };
        Some((name, trimmed(raw)))
    }
}

/// The variable table declared by a sequence of lines, in line order.
pub open spec fn vars_of_lines(ls: Seq<Seq<char>>) -> Seq<(Seq<char>, Seq<char>)>
    decreases ls.len(),
{
    if ls.len() == 0 {
        seq![]
    } else {
        let rest = vars_of_lines(ls.drop_last());
        match var_line_entry(ls.last()) {
            Some(p) => rest.push(p),
            None => rest,
        }
    }
}

/// Parse the text of `vars.txt` into the variable table, skipping
/// blank and malformed lines.
#[allow(non_snake_case)]
pub fn loadVars(text: &Vec<char>) -> (r: Vec<Binding>)
    ensures
        binds_view(r@) == vars_of_lines(lines_of(text@)),
{
    let sep = lit(": ");
    let ls = crate::text::split_lines(text);
    let mut r: Vec<Binding> = Vec::new();
    let mut i: usize = 0;
    proof {
        reveal_strlit(": ");
        assert(binds_view(r@) =~= vars_of_lines(ls.deep_view().take(0)));
    }
    while i < ls.len()
        invariant
            0 <= i <= ls@.len(),
            sep@ == ": "@,
            sep@.len() == 2,
            ls.deep_view() == lines_of(text@),
            ls.deep_view().len() == ls@.len(),
            binds_view(r@) == vars_of_lines(ls.deep_view().take(i as int)),
        decreases ls.len() - i,
    {
        let line = &ls[i];
        assert(line@ == ls.deep_view()[i as int]);
        match crate::text::find(line, &sep) {
            Some(j) => {
                let n = line.len();
                let before = crate::text::subrange(line, 0, j);
                let name = crate::text::trim(&before);
                assert(line@.subrange(0, j as int) =~= line@.take(j as int));
                let rest = crate::text::subrange(line, j + 2, n);
                assert(rest@ =~= line@.skip(j + 2));
                let raw = match crate::text::find(&rest, &sep) {
                    Some(k) => {
                        let w = crate::text::subrange(&rest, 0, k);
                        assert(w@ =~= rest@.take(k as int));
                        w
                    },
                    None => rest,
                };
                let value = crate::text::trim(&raw);
                let ghost prev = binds_view(r@);
                let ghost entry = var_line_entry(line@).unwrap();
                r.push(Binding { name, value });
                proof {
                    assert(binds_view(r@) =~= prev.push(entry));
                }
            },
            None => {
                assert(var_line_entry(line@) is None);
            },
        }
        proof {
            let dv = ls.deep_view();
            assert(dv.take(i + 1).drop_last() =~= dv.take(i as int));
            assert(dv.take(i + 1).last() == dv[i as int]);
        }
        i = i + 1;
    }
    proof {
        assert(ls.deep_view().take(ls@.len() as int) =~= ls.deep_view());
    }
    r
}

/// The text after the last `:` of a line, or the whole line when it
/// has none.
pub open spec fn after_last_colon(line: Seq<char>) -> Seq<char> {
    let j = rfind_char(line, ':');
    if j < 0 {
        line
    } else {
        line.skip(j + 1)
    }
}

/// Scan a content file's lines for its `linkName` and `path`
/// configuration values, stopping once both have been seen non-empty.
pub open spec fn links_scan(
    ls: Seq<Seq<char>>,
    name: Seq<char>,
    path: Seq<char>,
) -> (Seq<char>, Seq<char>)
    decreases ls.len(),
{
    if name.len() > 0 && path.len() > 0 {
        (name, path)
    } else if ls.len() == 0 {
        (name, path)
    } else {
        let line = ls.first();
        let name2 = if has_prefix(line, "\tlinkName:"@) {
            trimmed(after_last_colon(line))
        } else {
            name
        };
        let path2 = if !has_prefix(line, "\tlinkName:"@) && has_prefix(line, "\tpath:"@) {
            trimmed(after_last_colon(line))
        } else {
            path
        };
        links_scan(ls.skip(1), name2, path2)
    }
}

/// The link table entry a content file declares, if its header names
/// both a non-empty `linkName` and a non-empty `path`.
pub open spec fn link_entry(text: Seq<char>) -> Option<(Seq<char>, Seq<char>)> {
    let p = links_scan(lines_of(text), Seq::empty(), Seq::empty());
    if p.0.len() > 0 && p.1.len() > 0 {
        Some(p)
    } else {
        None
    }
}

/// Extract the text after the last `:` of a line.
pub fn take_after_last_colon(line: &Vec<char>) -> (r: Vec<char>)
    ensures
        r@ == after_last_colon(line@),
{
    let n = line.len();
    match crate::text::rfind(line, ':') {
        Some(j) => {
            let r = crate::text::subrange(line, j + 1, n);
            assert(r@ =~= line@.skip(j + 1));
            r
        },
        None => crate::text::copy_text(line),
    }
}

/// Scan one content file for its `(linkName, path)` declaration.
pub fn link_of_content(text: &Vec<char>) -> (r: Option<Binding>)
    ensures
        match r {
            Some(b) => link_entry(text@) == Some((b.name@, b.value@)),
            None => link_entry(text@) is None,
        },
{
    let link_name_hdr = lit("\tlinkName:");
    let path_hdr = lit("\tpath:");
    let ls = crate::text::split_lines(text);
    let mut name: Vec<char> = Vec::new();
    let mut path: Vec<char> = Vec::new();
    let mut i: usize = 0;
    proof {
        assert(name@ =~= Seq::<char>::empty());
        assert(path@ =~= Seq::<char>::empty());
        assert(ls.deep_view().skip(0) =~= ls.deep_view());
    }
    while i < ls.len() && (name.len() == 0 || path.len() == 0)
        invariant
            0 <= i <= ls@.len(),
            link_name_hdr@ == "\tlinkName:"@,
            path_hdr@ == "\tpath:"@,
            ls.deep_view() == lines_of(text@),
            ls.deep_view().len() == ls@.len(),
            links_scan(ls.deep_view().skip(i as int), name@, path@) == links_scan(
                lines_of(text@),
                Seq::empty(),
                Seq::empty(),
            ),
            name@.len() > 0 && path@.len() > 0 ==> links_scan(
                lines_of(text@),
                Seq::empty(),
                Seq::empty(),
            ) == (name@, path@),
        decreases ls.len() - i,
    {
        let line = &ls[i];
        assert(line@ == ls.deep_view()[i as int]);
        let ghost tail = ls.deep_view().skip(i as int);
        proof {
            assert(tail.len() > 0);
            assert(tail.first() == line@);
            assert(tail.skip(1) =~= ls.deep_view().skip(i + 1));
        }
        if crate::text::starts_with(line, &link_name_hdr) {
            let v = take_after_last_colon(line);
            name = crate::text::trim(&v);
        } else if crate::text::starts_with(line, &path_hdr) {
            let v = take_after_last_colon(line);
            path = crate::text::trim(&v);
        }
        i = i + 1;
        proof {
            if name@.len() > 0 && path@.len() > 0 {
                assert(links_scan(ls.deep_view().skip(i as int), name@, path@) == (name@, path@));
            }
        }
    }
    proof {
        if !(name@.len() > 0 && path@.len() > 0) {
            assert(i as int == ls@.len() || !(name@.len() == 0 || path@.len() == 0));
            assert(ls.deep_view().skip(i as int).len() == 0 || (name@.len() > 0 && path@.len()
                > 0));
            assert(links_scan(ls.deep_view().skip(i as int), name@, path@) == (name@, path@));
        }
    }
    if name.len() > 0 && path.len() > 0 {
        Some(Binding { name, value: path })
    } else {
        None
    }
}

/// The position of a name in a table, or `-1`.
pub open spec fn tbl_find(t: Seq<(Seq<char>, Seq<char>)>, name: Seq<char>) -> int
    decreases t.len(),
{
    if t.len() == 0 {
        -1
    } else if t.first().0 == name {
        0
    } else {
        let r = tbl_find(t.skip(1), name);
        if r < 0 {
            -1
        } else {
            r + 1
        }
    }
}

proof fn lemma_tbl_find_at(t: Seq<(Seq<char>, Seq<char>)>, name: Seq<char>, k: int)
    requires
        0 <= k < t.len(),
        t[k].0 == name,
        forall|j: int| 0 <= j < k ==> t[j].0 != name,
    ensures
        tbl_find(t, name) == k,
    decreases k,
{
    if k > 0 {
        lemma_tbl_find_at(t.skip(1), name, k - 1);
    }
}

proof fn lemma_tbl_find_none(t: Seq<(Seq<char>, Seq<char>)>, name: Seq<char>)
    requires
        forall|j: int| 0 <= j < t.len() ==> t[j].0 != name,
    ensures
        tbl_find(t, name) == -1,
    decreases t.len(),
{
    if t.len() > 0 {
        lemma_tbl_find_none(t.skip(1), name);
    }
}

/// A table with an entry written: a new name is appended, a known one
/// keeps its place and takes the new value — the last write wins.
pub open spec fn tbl_upsert(
    t: Seq<(Seq<char>, Seq<char>)>,
    name: Seq<char>,
    value: Seq<char>,
) -> Seq<(Seq<char>, Seq<char>)> {
    let j = tbl_find(t, name);
    if j < 0 {
        t.push((name, value))
    } else {
        t.update(j, (name, value))
    }
}

/// No two entries of the table share a name.
pub open spec fn tbl_unique(t: Seq<(Seq<char>, Seq<char>)>) -> bool {
    forall|k: int, l: int| 0 <= k < l < t.len() ==> (#[trigger] t[k].0) != (#[trigger] t[l].0)
}

proof fn lemma_tbl_find_bounds(t: Seq<(Seq<char>, Seq<char>)>, name: Seq<char>)
    ensures
        -1 <= tbl_find(t, name) < t.len(),
        tbl_find(t, name) >= 0 ==> t[tbl_find(t, name)].0 == name,
    decreases t.len(),
{
    if t.len() > 0 && t.first().0 != name {
        lemma_tbl_find_bounds(t.skip(1), name);
    }
}

proof fn lemma_tbl_find_present(t: Seq<(Seq<char>, Seq<char>)>, name: Seq<char>, k: int)
    requires
        0 <= k < t.len(),
        t[k].0 == name,
    ensures
        tbl_find(t, name) >= 0,
    decreases t.len(),
{
    if t.first().0 != name {
        lemma_tbl_find_present(t.skip(1), name, k - 1);
    }
}

proof fn lemma_tbl_upsert_unique(t: Seq<(Seq<char>, Seq<char>)>, name: Seq<char>, value: Seq<char>)
    requires
        tbl_unique(t),
    ensures
        tbl_unique(tbl_upsert(t, name, value)),
{
    lemma_tbl_find_bounds(t, name);
    let j = tbl_find(t, name);
    if j < 0 {
        assert forall|k: int| 0 <= k < t.len() implies (#[trigger] t[k].0) != name by {
            if t[k].0 == name {
                lemma_tbl_find_present(t, name, k);
            }
        }
    }
}

/// The link table declared by a sequence of content file texts, in
/// file order, files without a full declaration skipped; a repeated
/// `linkName` keeps one entry whose path is the last declared.
pub open spec fn links_of_files(files: Seq<SourceFile>) -> Seq<(Seq<char>, Seq<char>)>
    decreases files.len(),
{
    if files.len() == 0 {
        seq![]
    } else {
        let rest = links_of_files(files.drop_last());
        match link_entry(files.last().text@) {
            Some(p) => tbl_upsert(rest, p.0, p.1),
            None => rest,
        }
    }
}

/// Every link table has unique names.
pub proof fn lemma_links_unique(files: Seq<SourceFile>)
    ensures
        tbl_unique(links_of_files(files)),
    decreases files.len(),
{
    if files.len() > 0 {
        lemma_links_unique(files.drop_last());
        match link_entry(files.last().text@) {
            Some(p) => {
                lemma_tbl_upsert_unique(links_of_files(files.drop_last()), p.0, p.1);
            },
            None => {},
        }
    }
}

/// Search the binding list for a name.
fn binds_find(r: &Vec<Binding>, name: &Vec<char>) -> (res: Option<usize>)
    ensures
        match res {
            Some(k) => tbl_find(binds_view(r@), name@) == k as int && k < r@.len(),
            None => tbl_find(binds_view(r@), name@) == -1,
        },
{
    let mut i: usize = 0;
    while i < r.len()
        invariant
            0 <= i <= r@.len(),
            forall|j: int| 0 <= j < i ==> (#[trigger] binds_view(r@)[j]).0 != name@,
        decreases r.len() - i,
    {
        if crate::text::chars_eq(&r[i].name, name) {
            proof {
                assert(binds_view(r@)[i as int].0 == name@);
                lemma_tbl_find_at(binds_view(r@), name@, i as int);
            }
            return Some(i);
        }
        assert(binds_view(r@)[i as int].0 != name@);
        i = i + 1;
    }
    proof {
        lemma_tbl_find_none(binds_view(r@), name@);
    }
    None
}

/// Build the link table from the content files: one entry per declared
/// `linkName`, the last declared path winning on a repeat.
#[allow(non_snake_case)]
pub fn loadLinks(contentFiles: &Vec<SourceFile>) -> (r: Vec<Binding>)
    ensures
        binds_view(r@) == links_of_files(contentFiles@),
        tbl_unique(binds_view(r@)),
{
    let mut r: Vec<Binding> = Vec::new();
    let mut i: usize = 0;
    proof {
        assert(binds_view(r@) =~= links_of_files(contentFiles@.take(0)));
    }
    while i < contentFiles.len()
        invariant
            0 <= i <= contentFiles@.len(),
            binds_view(r@) == links_of_files(contentFiles@.take(i as int)),
        decreases contentFiles.len() - i,
    {
        match link_of_content(&contentFiles[i].text) {
            Some(b) => {
                let ghost prev = binds_view(r@);
                let ghost entry = (b.name@, b.value@);
                match binds_find(&r, &b.name) {
                    Some(j) => {
                        r.set(j, b);
                        proof {
                            assert(binds_view(r@) =~= prev.update(
                                tbl_find(prev, entry.0),
                                entry,
                            ));
                        }
                    },
                    None => {
                        r.push(b);
                        proof {
                            assert(binds_view(r@) =~= prev.push(entry));
                        }
                    },
                }
            },
            None => {},
        }
        proof {
            assert(contentFiles@.take(i + 1).drop_last() =~= contentFiles@.take(i as int));
            assert(contentFiles@.take(i + 1).last() == contentFiles@[i as int]);
        }
        i = i + 1;
    }
    proof {
        assert(contentFiles@.take(contentFiles@.len() as int) =~= contentFiles@);
        lemma_links_unique(contentFiles@);
    }
    r
}

/// The include table: for each include file, its filestem bound to its
/// text with variables and links substituted once.
pub open spec fn includes_of_files(
    files: Seq<SourceFile>,
    vars: Seq<Binding>,
    links: Seq<Binding>,
) -> Seq<(Seq<char>, Seq<char>)> {
    files.map_values(
        |f: SourceFile| (filestem_of(f.path@), replace_vars_spec(f.text@, vars, links)),
    )
}

/// Build the include table from the include files.
#[allow(non_snake_case)]
pub fn loadIncludes(
    includeFiles: &Vec<SourceFile>,
    vars: &Vec<Binding>,
    links: &Vec<Binding>,
) -> (r: Vec<Binding>)
    ensures
        binds_view(r@) == includes_of_files(includeFiles@, vars@, links@),
{
    let mut r: Vec<Binding> = Vec::new();
    let mut i: usize = 0;
    proof {
        assert(binds_view(r@) =~= includes_of_files(includeFiles@.take(0), vars@, links@));
    }
    while i < includeFiles.len()
        invariant
            0 <= i <= includeFiles@.len(),
            binds_view(r@) == includes_of_files(includeFiles@.take(i as int), vars@, links@),
        decreases includeFiles.len() - i,
    {
        let f = &includeFiles[i];
        let name = crate::text::filestem(&f.path);
        let value = replaceVars(&f.text, vars, links);
        let ghost prev = binds_view(r@);
        let ghost entry = (name@, value@);
        r.push(Binding { name, value });
        proof {
            assert(binds_view(r@) =~= prev.push(entry));
            assert(includes_of_files(includeFiles@.take(i + 1), vars@, links@)
                =~= includes_of_files(includeFiles@.take(i as int), vars@, links@).push(entry));
        }
        i = i + 1;
    }
    proof {
        assert(includeFiles@.take(includeFiles@.len() as int) =~= includeFiles@);
    }
    r
}

/// The global head tags of the lines following a `css` section header:
/// one `<link>` tag per line until a `js` header switches sections.
pub open spec fn globals_css(ls: Seq<Seq<char>>) -> Seq<Seq<char>>
    decreases ls.len(),
{
    if ls.len() == 0 {
        seq![]
    } else if trimmed(ls.first()) == "js"@ {
        globals_js(ls.skip(1))
    } else {
        seq![css_tag(trimmed(ls.first()))] + globals_css(ls.skip(1))
    }
}

/// The global head tags of the lines of a `js` section: one `<script>`
/// tag per line to the end.
pub open spec fn globals_js(ls: Seq<Seq<char>>) -> Seq<Seq<char>>
    decreases ls.len(),
{
    if ls.len() == 0 {
        seq![]
    } else {
        seq![js_tag(trimmed(ls.first()))] + globals_js(ls.skip(1))
    }
}

/// The global head tags of `globals.txt`: its first line opens the
/// `css` or the `js` section; any other first line yields nothing.
pub open spec fn globals_of(ls: Seq<Seq<char>>) -> Seq<Seq<char>> {
    if ls.len() == 0 {
        seq![]
    } else if trimmed(ls.first()) == "css"@ {
        globals_css(ls.skip(1))
    } else if trimmed(ls.first()) == "js"@ {
        globals_js(ls.skip(1))
    } else {
        seq![]
    }
}

/// Parse `templates/globals.txt` into the ordered global head tags.
#[allow(non_snake_case)]
pub fn loadGlobalCSSJS(text: &Vec<char>) -> (r: Vec<Vec<char>>)
    ensures
        r.deep_view() == globals_of(lines_of(text@)),
{
    let kw_css = lit("css");
    let kw_js = lit("js");
    let ls = crate::text::split_lines(text);
    let mut r: Vec<Vec<char>> = Vec::new();
    if ls.len() == 0 {
        proof {
            assert(r.deep_view() =~= globals_of(lines_of(text@)));
        }
        return r;
    }
    let first_line = crate::text::trim(&ls[0]);
    assert(ls@[0]@ == ls.deep_view()[0]);
    let mut in_js: bool = if crate::text::chars_eq(&first_line, &kw_css) {
        false
    } else if crate::text::chars_eq(&first_line, &kw_js) {
        true
    } else {
        proof {
            assert(r.deep_view() =~= globals_of(lines_of(text@)));
        }
        return r;
    };
    let mut i: usize = 1;
    proof {
        assert(ls.deep_view().skip(1) =~= ls.deep_view().skip(1));
        assert(ls.deep_view().first() == ls.deep_view()[0]);
        if in_js {
            assert(globals_of(ls.deep_view()) == globals_js(ls.deep_view().skip(1)));
        } else {
            assert(globals_of(ls.deep_view()) == globals_css(ls.deep_view().skip(1)));
        }
        assert(r.deep_view() + globals_of(ls.deep_view()) =~= globals_of(ls.deep_view()));
    }
    while i < ls.len()
        invariant
            1 <= i <= ls@.len(),
            kw_css@ == "css"@,
            kw_js@ == "js"@,
            ls.deep_view() == lines_of(text@),
            ls.deep_view().len() == ls@.len(),
            globals_of(ls.deep_view()) == r.deep_view() + if in_js {
                globals_js(ls.deep_view().skip(i as int))
            } else {
                globals_css(ls.deep_view().skip(i as int))
            },
        decreases ls.len() - i,
    {
        let line = crate::text::trim(&ls[i]);
        assert(ls@[i as int]@ == ls.deep_view()[i as int]);
        let ghost tail = ls.deep_view().skip(i as int);
        proof {
            assert(tail.len() > 0);
            assert(tail.first() == ls.deep_view()[i as int]);
            assert(tail.skip(1) =~= ls.deep_view().skip(i + 1));
        }
        if in_js {
            let tag = crate::model::make_js_tag(&line);
            let ghost prev = r.deep_view();
            r.push(tag);
            proof {
                assert(r.deep_view() =~~= prev.push(js_tag(trimmed(tail.first()))));
                assert(prev + (seq![js_tag(trimmed(tail.first()))] + globals_js(tail.skip(1)))
                    =~= prev.push(js_tag(trimmed(tail.first()))) + globals_js(tail.skip(1)));
            }
        } else {
            if crate::text::chars_eq(&line, &kw_js) {
                in_js = true;
                assert(globals_css(tail) == globals_js(tail.skip(1)));
            } else {
                let tag = crate::model::make_css_tag(&line);
                let ghost prev = r.deep_view();
                r.push(tag);
                proof {
                    assert(r.deep_view() =~~= prev.push(css_tag(trimmed(tail.first()))));
                    assert(prev + (seq![css_tag(trimmed(tail.first()))] + globals_css(tail.skip(1)))
                        =~= prev.push(css_tag(trimmed(tail.first()))) + globals_css(tail.skip(1)));
                }
            }
        }
        i = i + 1;
    }
    proof {
        assert(ls.deep_view().skip(ls@.len() as int).len() == 0);
        assert(r.deep_view() + Seq::<Seq<char>>::empty() =~= r.deep_view());
    }
    r
}

} // verus!
