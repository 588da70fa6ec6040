//! A verified static site generation core.
//!
//! The library models a site as four kinds of sources — content pages,
//! include fragments, templates and static resources — and assembles
//! final HTML through a pipeline of table loaders, a template parser
//! with single-parent inheritance, a content parser, and a renderer
//! driven by textual token substitution (`{%var}`, `{$link}`,
//! `{.include}`, `{content}`, `{block}`).
//!
//! All text is carried as `Vec<char>` so that every transformation has
//! an exact mathematical description over `Seq<char>`. File system
//! access is left to the embedding program, which hands the library
//! plain paths and file contents and writes out what it returns.
//!
//! The modules follow the pipeline: `source` filters directory
//! listings, `tables` builds the variable, link, include, resource and
//! global head tables, `template` and `page` parse the two file
//! grammars, `inherit` flattens template inheritance, and `render`
//! produces the final HTML. `text` holds the verified character-level
//! primitives, `subst` the token substitution they are built on,
//! `tokens` the theory of tokens in well-formed text, and `laws` the
//! library-wide guarantees proved from it.

pub mod inherit;
pub mod laws;
pub mod model;
pub mod page;
pub mod render;
pub mod source;
pub mod subst;
pub mod tables;
pub mod template;
pub mod text;
pub mod tokens;
