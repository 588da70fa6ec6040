use rgen::model::{Binding, SourceFile};
use rgen::page::parse_page;
use rgen::tables::{loadGlobalCSSJS, loadResourceNames, loadVars};
use rgen::template::parse_template;
use rgen::text::{find, replace, split_lines, trim};

fn chars_of(s: &str) -> Vec<char> {
    s.chars().collect()
}

fn string_of(v: &[char]) -> String {
    v.iter().collect()
}

fn no_tables() -> (Vec<Binding>, Vec<Binding>, Vec<Binding>) {
    (vec![], vec![], vec![])
}

#[test]
fn trim_removes_surrounding_whitespace_only() {
    assert_eq!(string_of(&trim(&chars_of("  a b\t\r\n"))), "a b");
    assert_eq!(string_of(&trim(&chars_of(""))), "");
    assert_eq!(string_of(&trim(&chars_of(" \t "))), "");
}

#[test]
fn replace_rewrites_every_occurrence_left_to_right() {
    let r = replace(&chars_of("aaa"), &chars_of("aa"), &chars_of("b"));
    assert_eq!(string_of(&r), "ba");
    let r2 = replace(&chars_of("x{c}y{c}"), &chars_of("{c}"), &chars_of("!"));
    assert_eq!(string_of(&r2), "x!y!");
    let r3 = replace(&chars_of("abc"), &chars_of("zz"), &chars_of("!"));
    assert_eq!(string_of(&r3), "abc");
}

#[test]
fn replacement_text_is_never_rescanned() {
    let r = replace(&chars_of("{a}"), &chars_of("{a}"), &chars_of("{a}{a}"));
    assert_eq!(string_of(&r), "{a}{a}");
}

#[test]
fn find_reports_first_occurrence() {
    assert_eq!(find(&chars_of("abcabc"), &chars_of("bc")), Some(1));
    assert_eq!(find(&chars_of("abc"), &chars_of("d")), None);
}

#[test]
fn split_lines_handles_trailing_newline() {
    let ls = split_lines(&chars_of("a\nb\n"));
    assert_eq!(ls.len(), 2);
    assert_eq!(string_of(&ls[0]), "a");
    assert_eq!(string_of(&ls[1]), "b");
    let ls2 = split_lines(&chars_of("a\n\nb"));
    assert_eq!(ls2.len(), 3);
    assert_eq!(string_of(&ls2[1]), "");
    assert_eq!(split_lines(&chars_of("")).len(), 0);
}

#[test]
fn vars_parser_skips_blank_and_malformed_lines() {
    let vars = loadVars(&chars_of("site: My Site\n\nnocolonhere\nname : spaced \n"));
    assert_eq!(vars.len(), 2);
    assert_eq!(string_of(&vars[0].name), "site");
    assert_eq!(string_of(&vars[0].value), "My Site");
    assert_eq!(string_of(&vars[1].name), "name");
    assert_eq!(string_of(&vars[1].value), "spaced");
}

#[test]
fn vars_value_stops_at_second_separator() {
    let vars = loadVars(&chars_of("a: one: two\n"));
    assert_eq!(vars.len(), 1);
    assert_eq!(string_of(&vars[0].value), "one");
}

#[test]
fn globals_parser_reads_css_then_js() {
    let tags = loadGlobalCSSJS(&chars_of("css\nmain.css\njs\napp.js\n"));
    assert_eq!(tags.len(), 2);
    assert_eq!(
        string_of(&tags[0]),
        "<link rel='stylesheet' type='text/css' href='resources/css/main.css'>",
    );
    assert_eq!(
        string_of(&tags[1]),
        "<script type='text/javascript' src='resources/js/app.js'></script>",
    );
}

#[test]
fn globals_parser_accepts_js_only_and_rejects_other_heads() {
    let js_only = loadGlobalCSSJS(&chars_of("js\nonly.js\n"));
    assert_eq!(js_only.len(), 1);
    assert!(string_of(&js_only[0]).contains("only.js"));
    assert_eq!(loadGlobalCSSJS(&chars_of("neither\nx\n")).len(), 0);
    assert_eq!(loadGlobalCSSJS(&chars_of("")).len(), 0);
}

#[test]
fn resource_table_uses_last_matching_marker() {
    let table = loadResourceNames(&vec![
        chars_of("site/resources/css/style.css"),
        chars_of("site/resources/img/pic.png"),
        chars_of("plain.bin"),
    ]);
    assert_eq!(string_of(&table[0].name), "style.css");
    assert_eq!(string_of(&table[0].value), "/css/style.css");
    assert_eq!(string_of(&table[1].value), "/img/pic.png");
    assert_eq!(string_of(&table[2].name), "plain.bin");
    assert_eq!(string_of(&table[2].value), "plain.bin");
}

#[test]
fn template_parser_reads_sections_and_body() {
    let (vars, links, includes) = no_tables();
    let tpl = parse_template(
        &SourceFile {
            path: chars_of("templates/page.txt"),
            text: chars_of("inherit base extra\ncss\np.css\njs\np.js\nblocks\n\tb\n\t\tbody {b}\n\nmain\nsecond"),
        },
        &vars,
        &links,
        &includes,
    );
    assert_eq!(string_of(&tpl.name), "page");
    assert_eq!(string_of(&tpl.inherit), "extra");
    assert_eq!(tpl.head_data.len(), 2);
    assert!(string_of(&tpl.head_data[0]).contains("p.css"));
    assert!(string_of(&tpl.head_data[1]).contains("p.js"));
    assert_eq!(tpl.block_templates.len(), 1);
    assert_eq!(string_of(&tpl.block_templates[0].name), "b");
    assert_eq!(string_of(&tpl.block_templates[0].value), "body {b}");
    assert_eq!(string_of(&tpl.content), "main\nsecond");
}

#[test]
fn template_blocks_close_at_end_of_file() {
    let (vars, links, includes) = no_tables();
    let tpl = parse_template(
        &SourceFile {
            path: chars_of("templates/t.txt"),
            text: chars_of("blocks\n\tone\n\t\tx\n\ttwo\n\t\ty1\n\t\ty2"),
        },
        &vars,
        &links,
        &includes,
    );
    assert_eq!(tpl.block_templates.len(), 2);
    assert_eq!(string_of(&tpl.block_templates[0].value), "x");
    assert_eq!(string_of(&tpl.block_templates[1].value), "y1\ny2");
}

#[test]
fn template_without_directive_first_line_starts_empty() {
    let (vars, links, includes) = no_tables();
    let tpl = parse_template(
        &SourceFile { path: chars_of("templates/t.txt"), text: chars_of("") },
        &vars,
        &links,
        &includes,
    );
    assert_eq!(string_of(&tpl.inherit), "");
    assert_eq!(string_of(&tpl.content), "");
    assert_eq!(tpl.head_data.len(), 0);
}

#[test]
fn page_parser_reads_config_head_blocks_and_body() {
    let (vars, links, includes) = no_tables();
    let text = "config\n\tpath:a/b.html\n\tlinkName:ab\n\ttitle:A and B\n\ttemplate:base\n\tunknown:ignored\ncss\npage.css\nblocks\n\tnav\n\t\tlabel\n\t\t\tHome\n\nbody line one\nbody line two\n";
    let page = parse_page(
        &SourceFile { path: chars_of("content/ab.txt"), text: chars_of(text) },
        &vars,
        &links,
        &includes,
    )
        .expect("page");
    assert_eq!(string_of(&page.path), "a/b.html");
    assert_eq!(string_of(&page.link_name), "ab");
    assert_eq!(string_of(&page.title), "A and B");
    assert_eq!(string_of(&page.template), "base");
    assert_eq!(page.head_data.len(), 1);
    assert_eq!(page.blocks.len(), 1);
    assert_eq!(string_of(&page.blocks[0].name), "nav");
    assert_eq!(page.blocks[0].parts.len(), 1);
    assert_eq!(string_of(&page.blocks[0].parts[0].name), "label");
    assert_eq!(string_of(&page.blocks[0].parts[0].value), "Home");
    assert_eq!(string_of(&page.content), "body line one\nbody line two");
}

#[test]
fn page_part_without_text_defaults_to_its_name() {
    let (vars, links, includes) = no_tables();
    let text = "config\n\tpath:p\n\tlinkName:p\n\ttitle:p\n\ttemplate:t\nblocks\n\tb\n\t\tonly\n\tb2\n\t\tfilled\n\t\t\ttext\n";
    let page = parse_page(
        &SourceFile { path: chars_of("content/p.txt"), text: chars_of(text) },
        &vars,
        &links,
        &includes,
    )
        .expect("page");
    assert_eq!(page.blocks.len(), 2);
    assert_eq!(string_of(&page.blocks[0].parts[0].name), "only");
    assert_eq!(string_of(&page.blocks[0].parts[0].value), "only");
    assert_eq!(string_of(&page.blocks[1].parts[0].value), "text");
}

#[test]
fn page_config_value_is_text_after_last_colon() {
    let (vars, links, includes) = no_tables();
    let text = "config\n\tpath:deep:nested:last\n\tlinkName:l\n\ttitle:t\n\ttemplate:t\n";
    let page = parse_page(
        &SourceFile { path: chars_of("content/p.txt"), text: chars_of(text) },
        &vars,
        &links,
        &includes,
    )
        .expect("page");
    assert_eq!(string_of(&page.path), "last");
}
