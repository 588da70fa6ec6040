use rgen::inherit::processInheritance;
use rgen::model::{Binding, DirEntry, RgenError, SourceFile};
use rgen::page::{loadContent, mdToHTML, parse_page};
use rgen::render::processContent;
use rgen::source::{filter_source_entries, output_path};
use rgen::subst::{insertIncludes, replaceVars};
use rgen::tables::{link_of_content, loadGlobalCSSJS, loadLinks, loadResourceNames, loadVars};
use rgen::template::loadTemplates;

fn t(s: &str) -> Vec<char> {
    s.chars().collect()
}

fn s(v: &[char]) -> String {
    v.iter().collect()
}

fn sf(path: &str, text: &str) -> SourceFile {
    SourceFile { path: t(path), text: t(text) }
}

fn build(
    vars_text: &str,
    globals_text: &str,
    content_files: Vec<SourceFile>,
    include_files: Vec<SourceFile>,
    template_files: Vec<SourceFile>,
    resource_paths: Vec<&str>,
) -> Vec<(String, String)> {
    let vars = loadVars(&t(vars_text));
    let links = loadLinks(&content_files);
    let includes = rgen::tables::loadIncludes(&include_files, &vars, &links);
    let globals = loadGlobalCSSJS(&t(globals_text));
    let templates = loadTemplates(&template_files, &vars, &links, &includes);
    let templates = processInheritance(&templates).expect("inheritance");
    let mut pages = loadContent(&content_files, &vars, &links, &includes).expect("content");
    mdToHTML(&mut pages);
    let resources: Vec<Vec<char>> = resource_paths.iter().map(|p| t(p)).collect();
    let resource_table = loadResourceNames(&resources);
    let out = processContent(&pages, &templates, &resource_table, &globals);
    out.iter().map(|o| (s(&o.path), s(&o.html))).collect()
}

#[test]
fn variable_substitution_in_rendered_page() {
    let out = build(
        "site: MySite",
        "",
        vec![sf(
            "content/index.txt",
            "config\n\tpath:index.html\n\tlinkName:home\n\ttitle:Home\n\ttemplate:t\n",
        )],
        vec![],
        vec![sf("templates/t.txt", "blocks\n\n<h1>{%site}</h1>")],
        vec![],
    );
    assert_eq!(out.len(), 1);
    assert_eq!(out[0].0, "index.html");
    assert_eq!(out[0].1, "<h1>MySite</h1>");
}

#[test]
fn include_expansion_with_variable() {
    let out = build(
        "site: X",
        "",
        vec![sf(
            "content/index.txt",
            "config\n\tpath:index.html\n\tlinkName:home\n\ttitle:Home\n\ttemplate:t\n",
        )],
        vec![sf("include/nav.html", "[{%site}]")],
        vec![sf("templates/t.txt", "blocks\n\n<nav>{.nav}</nav>")],
        vec![],
    );
    assert_eq!(out[0].1, "<nav>[X]</nav>");
}

#[test]
fn link_resolution_across_pages() {
    let out = build(
        "",
        "",
        vec![
            sf(
                "content/about.txt",
                "config\n\tpath:about.html\n\tlinkName:about\n\ttitle:About\n\ttemplate:t\n",
            ),
            sf(
                "content/index.txt",
                "config\n\tpath:index.html\n\tlinkName:home\n\ttitle:Home\n\ttemplate:t\n",
            ),
        ],
        vec![],
        vec![sf("templates/t.txt", "blocks\n\n<a href='{$about}'>")],
        vec![],
    );
    assert_eq!(out[1].1, "<a href='about.html'>");
}

#[test]
fn inheritance_substitutes_child_into_content_slot() {
    let out = build(
        "",
        "",
        vec![sf(
            "content/index.txt",
            "config\n\tpath:index.html\n\tlinkName:home\n\ttitle:Home\n\ttemplate:child\n",
        )],
        vec![],
        vec![
            sf("templates/base.txt", "blocks\n\n<html><body>{content}</body></html>"),
            sf("templates/child.txt", "inherit base\nblocks\n\n<p>hi</p>"),
        ],
        vec![],
    );
    assert_eq!(out[0].1, "<html><body><p>hi</p></body></html>");
}

#[test]
fn blocks_with_parts_render_in_declaration_order() {
    let page_text = "config\n\tpath:p.html\n\tlinkName:p\n\ttitle:T\n\ttemplate:t\nblocks\n\titem\n\t\tlabel\n\t\t\tHome\n\t\thref\n\t\t\t/\n\titem\n\t\tlabel\n\t\t\tAbout\n\t\thref\n\t\t\t/a\n";
    let out = build(
        "",
        "",
        vec![sf("content/p.txt", page_text)],
        vec![],
        vec![sf("templates/t.txt", "blocks\n\titem\n\t\t<li>{label}:{href}</li>\n\n{item}")],
        vec![],
    );
    assert_eq!(out[0].1, "<li>Home:/</li><li>About:/a</li>");
}

#[test]
fn globals_inserted_with_title_inside_head() {
    let out = build(
        "",
        "css\nmain.css\njs\napp.js",
        vec![sf(
            "content/index.txt",
            "config\n\tpath:index.html\n\tlinkName:home\n\ttitle: T \n\ttemplate:t\n",
        )],
        vec![],
        vec![sf("templates/t.txt", "blocks\n\n<head></head>")],
        vec![],
    );
    assert_eq!(
        out[0].1,
        "<head>\n<title>T</title>\n<link rel='stylesheet' type='text/css' href='resources/css/main.css'>\n<script type='text/javascript' src='resources/js/app.js'></script></head>",
    );
}

#[test]
fn globals_sit_above_page_local_head_data() {
    let out = build(
        "",
        "css\nglobal.css",
        vec![sf(
            "content/index.txt",
            "config\n\tpath:index.html\n\tlinkName:home\n\ttitle:T\n\ttemplate:t\ncss\nlocal.css\n",
        )],
        vec![],
        vec![sf("templates/t.txt", "blocks\n\n<head></head>")],
        vec![],
    );
    let html = &out[0].1;
    let global_at = html.find("global.css").expect("global tag");
    let local_at = html.find("local.css").expect("local tag");
    assert!(global_at < local_at);
    assert!(html.find("<title>").unwrap() < global_at);
}

#[test]
fn title_appears_exactly_once() {
    let out = build(
        "",
        "css\nmain.css",
        vec![sf(
            "content/index.txt",
            "config\n\tpath:index.html\n\tlinkName:home\n\ttitle:Once\n\ttemplate:t\n",
        )],
        vec![],
        vec![sf("templates/t.txt", "blocks\n\n<head></head><body></body>")],
        vec![],
    );
    assert_eq!(out[0].1.matches("<title>").count(), 1);
    assert!(out[0].1.contains("<head>\n<title>Once</title>"));
}

#[test]
fn resource_tokens_resolved_at_render_time() {
    let out = build(
        "",
        "",
        vec![sf(
            "content/index.txt",
            "config\n\tpath:index.html\n\tlinkName:home\n\ttitle:T\n\ttemplate:t\n",
        )],
        vec![],
        vec![sf("templates/t.txt", "blocks\n\n<img src='{$logo.png}'>")],
        vec!["site/resources/img/logo.png"],
    );
    assert_eq!(out[0].1, "<img src='/img/logo.png'>");
}

#[test]
fn unbound_tokens_are_preserved_verbatim() {
    let out = build(
        "site: X",
        "",
        vec![sf(
            "content/index.txt",
            "config\n\tpath:index.html\n\tlinkName:home\n\ttitle:T\n\ttemplate:t\n",
        )],
        vec![],
        vec![sf("templates/t.txt", "blocks\n\n<p>{%other}{.nope}{$gone}</p>")],
        vec![],
    );
    assert_eq!(out[0].1, "<p>{%other}{.nope}{$gone}</p>");
}

#[test]
fn bound_tokens_all_eliminated_after_render() {
    let out = build(
        "a: 1\nb: 2",
        "",
        vec![sf(
            "content/index.txt",
            "config\n\tpath:index.html\n\tlinkName:home\n\ttitle:T\n\ttemplate:t\n",
        )],
        vec![sf("include/frag.txt", "A={%a}")],
        vec![sf("templates/t.txt", "blocks\n\n{%a}|{%b}|{.frag}|{$home}")],
        vec![],
    );
    assert_eq!(out[0].1, "1|2|A=1|index.html");
}

#[test]
fn chain_of_three_templates_flattens_parents_first() {
    let out = build(
        "",
        "",
        vec![sf(
            "content/index.txt",
            "config\n\tpath:index.html\n\tlinkName:home\n\ttitle:T\n\ttemplate:leaf\n",
        )],
        vec![],
        vec![
            sf("templates/root.txt", "blocks\n\n[R {content} R]"),
            sf("templates/mid.txt", "inherit root\nblocks\n\n(M {content} M)"),
            sf("templates/leaf.txt", "inherit mid\nblocks\n\nL"),
        ],
        vec![],
    );
    assert_eq!(out[0].1, "[R (M L M) R]");
}

#[test]
fn missing_parent_is_fatal() {
    let vars = loadVars(&t(""));
    let links: Vec<Binding> = vec![];
    let includes: Vec<Binding> = vec![];
    let templates = loadTemplates(
        &vec![sf("templates/a.txt", "inherit nowhere\nblocks\n\nbody")],
        &vars,
        &links,
        &includes,
    );
    match processInheritance(&templates) {
        Err(RgenError::MissingParent { child, parent }) => {
            assert_eq!(s(&child), "a");
            assert_eq!(s(&parent), "nowhere");
        },
        _ => panic!("expected a missing parent error"),
    }
}

#[test]
fn inheritance_cycle_is_fatal() {
    let vars = loadVars(&t(""));
    let links: Vec<Binding> = vec![];
    let includes: Vec<Binding> = vec![];
    let templates = loadTemplates(
        &vec![
            sf("templates/a.txt", "inherit b\nblocks\n\nA"),
            sf("templates/b.txt", "inherit a\nblocks\n\nB"),
        ],
        &vars,
        &links,
        &includes,
    );
    match processInheritance(&templates) {
        Err(e) => {
            assert!(matches!(e, RgenError::InheritanceCycle { .. }));
            assert_eq!(s(&e.describe()), "inheritance cycle");
        },
        _ => panic!("expected a cycle error"),
    }
}

#[test]
fn content_without_config_header_is_fatal() {
    let vars: Vec<Binding> = vec![];
    let links: Vec<Binding> = vec![];
    let includes: Vec<Binding> = vec![];
    match parse_page(&sf("content/bad.txt", "title:oops\n"), &vars, &links, &includes) {
        Err(RgenError::MissingConfig { path }) => assert_eq!(s(&path), "content/bad.txt"),
        _ => panic!("expected a missing config error"),
    }
}

#[test]
fn source_filter_drops_directories_hidden_files_and_vars() {
    let entries = vec![
        DirEntry { path: t("site/include/nav.html"), is_dir: false },
        DirEntry { path: t("site/include/sub"), is_dir: true },
        DirEntry { path: t("site/include/.hidden"), is_dir: false },
        DirEntry { path: t("site/include/vars.txt"), is_dir: false },
    ];
    let kept = filter_source_entries(&entries, true);
    assert_eq!(kept.len(), 1);
    assert_eq!(s(&kept[0].path), "site/include/nav.html");
    let kept_with_vars = filter_source_entries(&entries, false);
    assert_eq!(kept_with_vars.len(), 2);
    assert_eq!(s(&kept_with_vars[1].path), "site/include/vars.txt");
}

#[test]
fn output_paths_join_root_and_declared_path() {
    let p = output_path(&t("/srv/site"), &t("about/index.html"));
    assert_eq!(s(&p), "/srv/site/output/about/index.html");
}

#[test]
fn page_without_template_renders_head_insert_only() {
    let out = build(
        "",
        "",
        vec![sf(
            "content/index.txt",
            "config\n\tpath:index.html\n\tlinkName:home\n\ttitle:T\n\ttemplate:missing\n",
        )],
        vec![],
        vec![],
        vec![],
    );
    assert_eq!(out[0].1, "");
}

#[test]
fn markdown_pass_leaves_pages_unchanged() {
    let vars: Vec<Binding> = vec![];
    let links: Vec<Binding> = vec![];
    let includes: Vec<Binding> = vec![];
    let files = vec![sf(
        "content/index.txt",
        "config\n\tpath:index.html\n\tlinkName:home\n\ttitle:T\n\ttemplate:t\nblocks\n\nbody text\n",
    )];
    let mut pages = loadContent(&files, &vars, &links, &includes).unwrap();
    let before = s(&pages[0].content);
    mdToHTML(&mut pages);
    assert_eq!(s(&pages[0].content), before);
    assert_eq!(before, "body text");
}

#[test]
fn substitution_primitives_replace_all_occurrences() {
    let vars = vec![Binding { name: t("x"), value: t("1") }];
    let links = vec![Binding { name: t("l"), value: t("a.html") }];
    let replaced = replaceVars(&t("{%x}+{%x}={$l}"), &vars, &links);
    assert_eq!(s(&replaced), "1+1=a.html");
    let includes = vec![Binding { name: t("i"), value: t("<hr>") }];
    let inserted = insertIncludes(&t("{.i}{.i}"), &includes);
    assert_eq!(s(&inserted), "<hr><hr>");
}

#[test]
fn earlier_table_entries_substitute_first() {
    let vars = vec![
        Binding { name: t("x"), value: t("first") },
        Binding { name: t("x"), value: t("second") },
    ];
    let links: Vec<Binding> = vec![];
    let replaced = replaceVars(&t("{%x}"), &vars, &links);
    assert_eq!(s(&replaced), "first");
}

#[test]
fn link_scan_reads_values_after_last_colon() {
    let text = t("config\n\tlinkName: my page \n\tpath: where/it/lives.html\n");
    let entry = link_of_content(&text).expect("link entry");
    assert_eq!(s(&entry.name), "my page");
    assert_eq!(s(&entry.value), "where/it/lives.html");
}

#[test]
fn body_lines_keep_blank_lines_and_indentation() {
    let vars: Vec<Binding> = vec![];
    let links: Vec<Binding> = vec![];
    let includes: Vec<Binding> = vec![];
    let files = vec![sf(
        "content/index.txt",
        "config\n\tpath:p\n\tlinkName:l\n\ttitle:t\n\ttemplate:t\nblocks\n\nfirst\n\n  indented\n",
    )];
    let pages = loadContent(&files, &vars, &links, &includes).unwrap();
    assert_eq!(s(&pages[0].content), "first\n\n  indented");
}

#[test]
fn every_content_slot_of_a_parent_receives_the_child_body() {
    let out = build(
        "",
        "",
        vec![sf(
            "content/index.txt",
            "config\n\tpath:index.html\n\tlinkName:home\n\ttitle:T\n\ttemplate:child\n",
        )],
        vec![],
        vec![
            sf("templates/base.txt", "blocks\n\n[{content}|{content}]"),
            sf("templates/child.txt", "inherit base\nblocks\n\nx"),
        ],
        vec![],
    );
    assert_eq!(out[0].1, "[x|x]");
}

#[test]
fn config_values_receive_load_time_substitution() {
    let out = build(
        "name: Site",
        "",
        vec![sf(
            "content/index.txt",
            "config\n\tpath:index.html\n\tlinkName:home\n\ttitle:{%name} page\n\ttemplate:t\n",
        )],
        vec![],
        vec![sf("templates/t.txt", "blocks\n\n<head></head>")],
        vec![],
    );
    assert!(!out[0].1.contains("<title>{%name} page</title>"));
    assert!(out[0].1.contains("<title>Site page</title>"));
}

#[test]
fn duplicate_link_names_keep_one_entry_last_path_wins() {
    let files = vec![
        sf("content/a.txt", "config\n\tpath:a.html\n\tlinkName:dup\n\ttitle:A\n\ttemplate:t\n"),
        sf("content/b.txt", "config\n\tpath:b.html\n\tlinkName:dup\n\ttitle:B\n\ttemplate:t\n"),
    ];
    let links = loadLinks(&files);
    assert_eq!(links.len(), 1);
    assert_eq!(s(&links[0].name), "dup");
    assert_eq!(s(&links[0].value), "b.html");
}

#[test]
fn link_scan_without_path_yields_nothing() {
    assert!(link_of_content(&t("config\n\tlinkName: solo\n")).is_none());
    assert!(link_of_content(&t("config\n\ttitle:x\n")).is_none());
}
