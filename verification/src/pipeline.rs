//! Orchestration of one site-generation run.
//!
//! The driver keeps the markdown files of a scan, splits and parses each,
//! renders each body to HTML, and assembles the date-ordered index rows
//! that the external HTML writer consumes. The error policy is uniform
//! abort-on-first-error: a malformed frontmatter block in any file ends
//! the run with that file's error, and rendering itself always returns.
use vstd::prelude::*;

verus! {

use vstd::string::StringExecFns;
use crate::fs::{FileMeta, FileMetaView};
use crate::html::{GeneratedFile, generate_html, comrak_html_of};
use crate::md::{
    PageList,
    ParsedFile,
    ParsedFileView,
    PipelineError,
    MarkdownParser,
    Html,
    file_name_spec,
    pages_view,
    page_refs_view,
    all_dates_in_range,
    sort_by_date_spec,
    effective_date_view,
    effective_timestamp,
    parse_one_spec,
    split_result_spec,
};
use crate::time::{Timestamp, TimeView};

/// Global site configuration handed to index assembly, rather than held
/// as ambient state.
pub struct SiteMetadata {
    pub author: String,
}

/// A command for one invocation to run.
#[derive(Debug)]
pub enum Command {
    Sample,
    Generate(GenerateArgs),
}

/// The directories a generation run works with; unset ones fall back to
/// the sample locations.
#[derive(Debug)]
pub struct GenerateArgs {
    pub input: Option<String>,
    pub output: Option<String>,
}

/// The source and output directories of a run: the given ones, or the
/// default sample locations.
pub fn resolve_generate_args(args: &GenerateArgs) -> (r: (String, String))
    ensures
        args.input matches Some(s) ==> r.0@ == s@,
        args.input is None ==> r.0@ == "/tmp/input"@,
        args.output matches Some(s) ==> r.1@ == s@,
        args.output is None ==> r.1@ == "/tmp/output"@,
{
    let input = match &args.input {
        Some(s) => s.clone(),
        None => "/tmp/input".to_owned(),
    };
    let output = match &args.output {
        Some(s) => s.clone(),
        None => "/tmp/output".to_owned(),
    };
    (input, output)
}

/// The views of scanned files with their raw contents.
pub open spec fn pairs_view(v: Seq<(FileMeta, String)>) -> Seq<(FileMetaView, Seq<char>)> {
    v.map_values(|p: (FileMeta, String)| (p.0@, p.1@))
}

/// The markdown files among the scanned ones, in scan order; every other
/// kind is enumerated but excluded from the rendered set.
pub open spec fn markdown_pairs(v: Seq<(FileMetaView, Seq<char>)>) -> Seq<
    (FileMetaView, Seq<char>),
> {
    v.filter(|p: (FileMetaView, Seq<char>)| p.0.file_type is Markdown)
}

fn filter_markdown(files: &Vec<(FileMeta, String)>) -> (r: Vec<(FileMeta, String)>)
    ensures
        pairs_view(r@) == markdown_pairs(pairs_view(files@)),
{
    proof {
        reveal(Seq::filter);
    }
    let mut r: Vec<(FileMeta, String)> = Vec::new();
    let mut i: usize = 0;
    proof {
        assert(pairs_view(r@) =~= markdown_pairs(pairs_view(files@.take(0))));
    }
    while i < files.len()
        invariant
            0 <= i <= files@.len(),
            pairs_view(r@) =~= markdown_pairs(pairs_view(files@.take(i as int))),
        decreases files@.len() - i,
    {
        let ghost pre = pairs_view(files@.take(i as int));
        let pair = &files[i];
        let ghost r_pre = r@;
        let keep = match pair.0.file_type {
            crate::fs::FileType::Markdown => true,
            _ => false,
        };
        if keep {
            r.push((pair.0.clone(), pair.1.clone()));
        }
        proof {
            reveal(Seq::filter);
            let cur = pairs_view(files@.take(i + 1));
            assert(cur.drop_last() =~= pre);
            assert(cur.last() == (files@[i as int].0@, files@[i as int].1@));
            if keep {
                assert(pairs_view(r@) =~= pairs_view(r_pre).push(
                    (files@[i as int].0@, files@[i as int].1@),
                ));
            } else {
                assert(pairs_view(r@) =~= pairs_view(r_pre));
            }
            assert(pairs_view(r@) =~= markdown_pairs(cur));
        }
        i = i + 1;
    }
    proof {
        assert(files@.take(files@.len() as int) =~= files@);
    }
    r
}

/// Collects the pages of one run: keeps the markdown files in scan order
/// and parses each one, aborting on the first malformed file.
pub fn build_pages(files: &Vec<(FileMeta, String)>) -> (r: Result<PageList, PipelineError>)
    ensures
        (r is Ok) == (forall|i: int|
            0 <= i < markdown_pairs(pairs_view(files@)).len() ==> #[trigger] split_result_spec(
                markdown_pairs(pairs_view(files@))[i].1,
            ) is Ok),
        r matches Ok(pl) ==> pages_view(pl.files@).len() == markdown_pairs(
            pairs_view(files@),
        ).len(),
        r matches Ok(pl) ==> forall|i: int|
            0 <= i < markdown_pairs(pairs_view(files@)).len() ==> parse_one_spec(
                markdown_pairs(pairs_view(files@))[i].0,
                markdown_pairs(pairs_view(files@))[i].1,
            ) == Ok::<_, ()>(#[trigger] pages_view(pl.files@)[i]),
        r matches Ok(pl) ==> all_dates_in_range(pages_view(pl.files@)),
        r matches Err(e) ==> e is FrontmatterFormat,
{
    let kept = filter_markdown(files);
    let ghost md = markdown_pairs(pairs_view(files@));
    proof {
        assert(md.len() == kept@.len());
        assert forall|i: int| 0 <= i < md.len() implies (#[trigger] split_result_spec(md[i].1))
            == split_result_spec(kept@[i].1@) && parse_one_spec(md[i].0, md[i].1)
            == parse_one_spec(kept@[i].0@, kept@[i].1@) by {
            assert(pairs_view(kept@)[i] == (kept@[i].0@, kept@[i].1@));
            assert(md[i] == pairs_view(kept@)[i]);
        }
        assert forall|i: int| 0 <= i < md.len() implies (#[trigger] split_result_spec(
            kept@[i].1@,
        )) == split_result_spec(md[i].1) by {
            assert(pairs_view(kept@)[i] == (kept@[i].0@, kept@[i].1@));
            assert(md[i] == pairs_view(kept@)[i]);
        }
    }
    let parser = MarkdownParser::with_arena();
    match parser.parse_many(&kept) {
        Ok(v) => {
            let ghost vs = v@;
            let pl = PageList::from(v);
            proof {
                assert(pl.files@ == vs);
                assert(forall|i: int|
                    0 <= i < md.len() ==> #[trigger] pages_view(pl.files@)[i] == pl.files@[i]@);
            }
            Ok(pl)
        },
        Err(e) => Err(e),
    }
}

/// The mathematical value of an `IndexEntry`.
pub ghost struct IndexEntryView {
    pub name: Seq<char>,
    pub title: Option<Seq<char>>,
    pub date: TimeView,
    pub html: Seq<char>,
}

/// One row of the ordered index handed to the external HTML writer:
/// destination-relative name, optional title, effective date, rendered
/// body.
#[derive(Debug, PartialEq, Eq)]
pub struct IndexEntry {
    pub name: String,
    pub title: Option<String>,
    pub date: Timestamp,
    pub html: Html,
}

impl View for IndexEntry {
    type V = IndexEntryView;

    open spec fn view(&self) -> IndexEntryView {
        IndexEntryView {
            name: self.name@,
            title: match self.title {
                Some(t) => Some(t@),
                None => None,
            },
            date: self.date@,
            html: self.html@,
        }
    }
}

/// The index row a page yields: its file name with `.html` appended, its
/// frontmatter title if any, its effective date, and its rendered body.
pub open spec fn index_entry_view(p: ParsedFileView) -> IndexEntryView {
    IndexEntryView {
        name: file_name_spec(p.meta.path) + ".html"@,
        title: match p.contents.frontmatter {
            Some(fm) => fm.title,
            None => None,
        },
        date: effective_date_view(p),
        html: comrak_html_of(p.contents.body),
    }
}

/// Builds the ordered index rows: the pages in ascending effective-date
/// order, one row each.
#[verifier::loop_isolation(false)]
pub fn index_entries(list: &PageList) -> (r: Vec<IndexEntry>)
    requires
        all_dates_in_range(pages_view(list.files@)),
    ensures
        r@.map_values(|e: IndexEntry| e@) == sort_by_date_spec(pages_view(list.files@)).map_values(
            |p: ParsedFileView| index_entry_view(p),
        ),
{
    let sorted = list.sorted_by_date();
    let ghost sv = sort_by_date_spec(pages_view(list.files@));
    let mut out: Vec<IndexEntry> = Vec::new();
    let mut i: usize = 0;
    while i < sorted.len()
        invariant
            0 <= i <= sorted@.len(),
            out@.len() == i,
            forall|k: int|
                0 <= k < i ==> (#[trigger] out@[k]@) == index_entry_view(sv[k]),
        decreases sorted@.len() - i,
    {
        let p: &ParsedFile = sorted[i];
        proof {
            assert(page_refs_view(sorted@)[i as int] == p@);
            assert(p@ == sv[i as int]);
            assert(crate::md::page_date_in_range(p@));
        }
        let name = p.meta.file_name_no_stem().to_owned().concat(".html");
        let title: Option<String> = match &p.contents.frontmatter {
            Some(fm) => match &fm.title {
                Some(t) => Some(t.clone()),
                None => None,
            },
            None => None,
        };
        let date = effective_timestamp(p);
        let generated = generate_html(p);
        out.push(IndexEntry { name, title, date, html: generated.contents });
        i = i + 1;
    }
    proof {
        assert(out@.map_values(|e: IndexEntry| e@) =~= sv.map_values(
            |p: ParsedFileView| index_entry_view(p),
        ));
    }
    out
}

/// Everything one run produces: the rendered pages in scan order, and the
/// index rows in ascending effective-date order.
#[derive(Debug)]
pub struct GeneratedSite {
    pub pages: Vec<GeneratedFile>,
    pub index: Vec<IndexEntry>,
}

/// One full run over scanned files and their raw contents: keep the
/// markdown files, split and parse each, render each body, and assemble
/// the date-ordered index. A malformed frontmatter block in any kept file
/// aborts the whole run with that file's error; nothing else fails.
pub fn generate_site(files: &Vec<(FileMeta, String)>) -> (r: Result<GeneratedSite, PipelineError>)
    ensures
        (r is Ok) == (forall|i: int|
            0 <= i < markdown_pairs(pairs_view(files@)).len() ==> #[trigger] split_result_spec(
                markdown_pairs(pairs_view(files@))[i].1,
            ) is Ok),
        r matches Ok(g) ==> exists|pages: Seq<ParsedFileView>|
            {
                &&& #[trigger] pages.len() == markdown_pairs(pairs_view(files@)).len()
                &&& (forall|i: int|
                    0 <= i < pages.len() ==> parse_one_spec(
                        markdown_pairs(pairs_view(files@))[i].0,
                        markdown_pairs(pairs_view(files@))[i].1,
                    ) == Ok::<_, ()>(#[trigger] pages[i]))
                &&& g.pages@.len() == pages.len()
                &&& (forall|i: int|
                    0 <= i < pages.len() ==> (#[trigger] g.pages@[i]).contents@ == comrak_html_of(
                        pages[i].contents.body,
                    ) && g.pages@[i].original_md_path@ == pages[i].meta.path)
                &&& g.index@.map_values(|e: IndexEntry| e@) == sort_by_date_spec(
                    pages,
                ).map_values(|p: ParsedFileView| index_entry_view(p))
            },
        r matches Err(e) ==> e is FrontmatterFormat,
{
    let list = match build_pages(files) {
        Ok(l) => l,
        Err(e) => {
            return Err(e);
        },
    };
    let mut pages: Vec<GeneratedFile> = Vec::new();
    let mut i: usize = 0;
    while i < list.files.len()
        invariant
            0 <= i <= list.files@.len(),
            pages@.len() == i,
            forall|k: int|
                0 <= k < i ==> (#[trigger] pages@[k]).contents@ == comrak_html_of(
                    list.files@[k]@.contents.body,
                ) && pages@[k].original_md_path@ == list.files@[k]@.meta.path,
        decreases list.files@.len() - i,
    {
        pages.push(generate_html(&list.files[i]));
        i = i + 1;
    }
    let index = index_entries(&list);
    let ghost pv = pages_view(list.files@);
    proof {
        assert(forall|k: int| 0 <= k < pv.len() ==> (#[trigger] pv[k]) == list.files@[k]@);
    }
    Ok(GeneratedSite { pages, index })
}

} // verus!
