//! A small content pipeline for a static site.
//!
//! Files found under a source tree are classified by extension (`fs`),
//! split into frontmatter metadata and body text (`md`, with the YAML
//! boundary in `yaml`), rendered from markdown to HTML (`render`, `html`),
//! and ordered by their effective dates — frontmatter date first, file
//! modification time as the fallback (`time`, `md`). The `pipeline` module
//! drives one full run and assembles the index rows that an external HTML
//! writer consumes; `text` holds the character-level trimming and line
//! machinery that the splitter is specified with.
pub mod fs;
pub mod html;
pub mod md;
pub mod pipeline;
pub mod render;
pub mod text;
pub mod time;
pub mod yaml;
