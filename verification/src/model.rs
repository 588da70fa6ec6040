//! The site data model: name/value bindings, source files, templates,
//! pages with their blocks, rendered outputs and the fatal errors of
//! the pipeline, together with the head-tag shapes shared by several
//! loaders.

use vstd::prelude::*;
use vstd::string::StrSliceExecFns;

verus! {

/// A named text: a variable, a link, an include, a resource entry, a
/// block template or a block part, depending on where it lives.
pub struct Binding {
    pub name: Vec<char>,
    pub value: Vec<char>,
}

/// The name/value views of a binding list.
pub open spec fn binds_view(bs: Seq<Binding>) -> Seq<(Seq<char>, Seq<char>)> {
    bs.map_values(|b: Binding| (b.name@, b.value@))
}

/// A source file handed in by the embedding program: its path and its
/// full text.
pub struct SourceFile {
    pub path: Vec<char>,
    pub text: Vec<char>,
}

/// A directory entry seen while walking a source directory.
pub struct DirEntry {
    pub path: Vec<char>,
    pub is_dir: bool,
}

/// A parsed template: inheritance parent, head tags, named block
/// templates and the body text.
pub struct Template {
    pub name: Vec<char>,
    pub inherit: Vec<char>,
    pub head_data: Vec<Vec<char>>,
    pub block_templates: Vec<Binding>,
    pub content: Vec<char>,
}

/// One block instance declared by a page: a name and its ordered parts.
pub struct Block {
    pub name: Vec<char>,
    pub parts: Vec<Binding>,
}

/// A parsed content page.
pub struct Page {
    pub path: Vec<char>,
    pub link_name: Vec<char>,
    pub title: Vec<char>,
    pub template: Vec<char>,
    pub blocks: Vec<Block>,
    pub head_data: Vec<Vec<char>>,
    pub content: Vec<char>,
}

/// A rendered page ready to be written: output path and HTML text.
pub struct OutputFile {
    pub path: Vec<char>,
    pub html: Vec<char>,
}

/// The fatal errors of the pipeline.
#[derive(Debug)]
pub enum RgenError {
    /// A template inherits from a name no template carries.
    MissingParent { child: Vec<char>, parent: Vec<char> },
    /// The inheritance chain starting at this template never ends.
    InheritanceCycle { name: Vec<char> },
    /// A content file does not begin with its `config` header line.
    MissingConfig { path: Vec<char> },
}

impl RgenError {
    /// A plain-text description, for the embedding program to print.
    pub fn describe(&self) -> (r: Vec<char>)
        ensures
            match self {
                RgenError::MissingParent { child, parent } => r@ == "missing parent template"@,
                RgenError::InheritanceCycle { name } => r@ == "inheritance cycle"@,
                RgenError::MissingConfig { path } => r@ == "no config header"@,
            },
    {
        match self {
            RgenError::MissingParent { .. } => lit("missing parent template"),
            RgenError::InheritanceCycle { .. } => lit("inheritance cycle"),
            RgenError::MissingConfig { .. } => lit("no config header"),
        }
    }
}

/// Build the character vector of a string literal.
pub fn lit(s: &str) -> (r: Vec<char>)
    ensures
        r@ == s@,
{
    let n = s.unicode_len();
    let mut r: Vec<char> = Vec::new();
    let mut i: usize = 0;
    while i < n
        invariant
            0 <= i <= n,
            n == s@.len(),
            r@ == s@.take(i as int),
        decreases n - i,
    {
        r.push(s.get_char(i));
        assert(r@ =~= s@.take(i + 1));
        i = i + 1;
    }
    assert(s@.take(n as int) =~= s@);
    r
}

/// The `<link>` tag emitted for a CSS file name.
pub open spec fn css_tag(file: Seq<char>) -> Seq<char> {
    "<link rel='stylesheet' type='text/css' href='resources/css/"@ + file + "'>"@
}

/// The `<script>` tag emitted for a JS file name.
pub open spec fn js_tag(file: Seq<char>) -> Seq<char> {
    "<script type='text/javascript' src='resources/js/"@ + file + "'></script>"@
}

/// Build the `<link>` tag for a CSS file name.
pub fn make_css_tag(file: &Vec<char>) -> (r: Vec<char>)
    ensures
        r@ == css_tag(file@),
{
    let pre = lit("<link rel='stylesheet' type='text/css' href='resources/css/");
    let post = lit("'>");
    crate::text::concat3(&pre, file, &post)
}

/// Build the `<script>` tag for a JS file name.
pub fn make_js_tag(file: &Vec<char>) -> (r: Vec<char>)
    ensures
        r@ == js_tag(file@),
{
    let pre = lit("<script type='text/javascript' src='resources/js/");
    let post = lit("'></script>");
    crate::text::concat3(&pre, file, &post)
}

} // verus!
