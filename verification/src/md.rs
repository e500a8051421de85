//! Frontmatter splitting, markdown file parsing, and page ordering.
//!
//! A content file may begin with a metadata block bounded by `---` lines.
//! `extract_frontmatter` separates that block from the body and parses it;
//! `MarkdownParser` turns whole files into pages; `PageList` owns the
//! date-ordered view used for index generation.
use vstd::prelude::*;

verus! {

use vstd::string::StrSliceExecFns;
use crate::text::{
    trim_spec,
    trim_bounds,
    lines_spec,
    join_spec,
    line_ranges,
    ranges_text,
    join_ranges,
    plain_line,
    is_ws_char,
    lemma_trim_noop,
    lemma_join_bounds,
    lemma_join_push,
    lemma_lines_of_join,
};
use crate::time::{
    Date,
    DateView,
    TimeView,
    Timestamp,
    date_of_str,
    date_in_range,
    date_timestamp,
    date_to_timestamp,
    ts_le,
    timestamp_le,
};
use crate::fs::{
    FileType,
    FileMeta,
    FileMetaView,
    name_start,
    last_dot,
    lemma_name_start_at,
    lemma_last_dot_at,
    lemma_last_dot_none,
};
use crate::yaml::{
    Yaml,
    yaml_of,
    yaml_model,
    parse_yaml,
    yaml_is_null,
    yaml_is_mapping,
    yaml_get,
    yaml_as_str,
    yaml_as_sequence,
};

/// An error of the content pipeline.
#[derive(Debug, PartialEq, Eq)]
pub enum PipelineError {
    /// A well-delimited metadata block that is not valid frontmatter; holds
    /// a description of the fault.
    FrontmatterFormat(String),
    /// The markdown engine rejected a body; holds the engine's message.
    Render(String),
}

impl Clone for PipelineError {
    fn clone(&self) -> (r: Self)
        ensures
            r == *self,
    {
        match self {
            PipelineError::FrontmatterFormat(m) => PipelineError::FrontmatterFormat(m.clone()),
            PipelineError::Render(m) => PipelineError::Render(m.clone()),
        }
    }
}

/// The mathematical value of a `FrontmatterData`.
pub ghost struct FmView {
    pub title: Option<Seq<char>>,
    pub date: Option<DateView>,
    pub tags: Option<Seq<Seq<char>>>,
}

/// Structured metadata read from a frontmatter block. Every field is
/// optional; a block that sets none of them is valid.
#[derive(Debug, PartialEq, Eq)]
pub struct FrontmatterData {
    pub title: Option<String>,
    pub date: Option<Date>,
    pub tags: Option<Vec<String>>,
}

impl View for FrontmatterData {
    type V = FmView;

    open spec fn view(&self) -> FmView {
        FmView {
            title: match self.title {
                Some(t) => Some(t@),
                None => None,
            },
            date: match self.date {
                Some(d) => Some(d@),
                None => None,
            },
            tags: match self.tags {
                Some(v) => Some(v@.map_values(|s: String| s@)),
                None => None,
            },
        }
    }
}

impl Clone for FrontmatterData {
    fn clone(&self) -> (r: Self)
        ensures
            r@ == self@,
    {
        let title: Option<String> = match &self.title {
            Some(t) => Some(t.clone()),
            None => None,
        };
        let date: Option<Date> = self.date;
        let tags: Option<Vec<String>> = match &self.tags {
            Some(v) => {
                let mut out: Vec<String> = Vec::new();
                let mut i: usize = 0;
                while i < v.len()
                    invariant
                        0 <= i <= v@.len(),
                        out@.len() == i,
                        forall|k: int| 0 <= k < i ==> out@[k]@ == v@[k]@,
                    decreases v@.len() - i,
                {
                    out.push(v[i].clone());
                    i = i + 1;
                }
                Some(out)
            },
            None => None,
        };
        let r = FrontmatterData { title, date, tags };
        proof {
            let ghost st = self.tags;
            match st {
                Some(v) => {
                    assert(r.tags matches Some(o) && o@.map_values(|s: String| s@)
                        =~= v@.map_values(|s: String| s@));
                },
                None => {},
            }
        }
        r
    }
}

/// The value under `key` in the mapping, if the key is present.
pub open spec fn fm_field(m: Map<Seq<char>, Yaml>, key: Seq<char>) -> Option<Yaml> {
    if m.contains_key(key) {
        Some(m[key])
    } else {
        None
    }
}

/// The title field of a frontmatter mapping: absent or null means no title,
/// a string is the title, anything else is a format error (the outer
/// `None`).
pub open spec fn fm_title(m: Map<Seq<char>, Yaml>) -> Option<Option<Seq<char>>> {
    match fm_field(m, "title"@) {
        None => Some(None),
        Some(y) => match y {
            Yaml::Null => Some(None),
            Yaml::Str(s) => Some(Some(s)),
            _ => None,
        },
    }
}

/// The date field: absent or null means no date; a string that chrono's
/// parser accepts is the date; anything else is a format error.
pub open spec fn fm_date(m: Map<Seq<char>, Yaml>) -> Option<Option<DateView>> {
    match fm_field(m, "date"@) {
        None => Some(None),
        Some(y) => match y {
            Yaml::Null => Some(None),
            Yaml::Str(s) => match date_of_str(s) {
                Some(d) => Some(Some(d)),
                None => None,
            },
            _ => None,
        },
    }
}

/// The strings of a YAML list, in order, or `None` when any element is not
/// a string.
pub open spec fn str_items(l: Seq<Yaml>) -> Option<Seq<Seq<char>>>
    decreases l.len(),
{
    if l.len() == 0 {
        Some(Seq::empty())
    } else {
        match str_items(l.drop_last()) {
            None => None,
            Some(pre) => match l.last() {
                Yaml::Str(s) => Some(pre.push(s)),
                _ => None,
            },
        }
    }
}

/// The tags field: absent or null means no tags; a sequence of strings is
/// the tag list; anything else is a format error.
pub open spec fn fm_tags(m: Map<Seq<char>, Yaml>) -> Option<Option<Seq<Seq<char>>>> {
    match fm_field(m, "tags"@) {
        None => Some(None),
        Some(y) => match y {
            Yaml::Null => Some(None),
            Yaml::List(l) => match str_items(l) {
                Some(ss) => Some(Some(ss)),
                None => None,
            },
            _ => None,
        },
    }
}

/// What a parsed metadata block means: a null document (an empty block) is
/// frontmatter with every field absent; a mapping is read field by field;
/// anything else, or any ill-typed field, is a format error.
pub open spec fn fm_of_yaml(y: Yaml) -> Option<FmView> {
    match y {
        Yaml::Null => Some(FmView { title: None, date: None, tags: None }),
        Yaml::Dict(m) => match fm_title(m) {
            None => None,
            Some(t) => match fm_date(m) {
                None => None,
                Some(d) => match fm_tags(m) {
                    None => None,
                    Some(g) => Some(FmView { title: t, date: d, tags: g }),
                },
            },
        },
        _ => None,
    }
}

/// What the text of a metadata block means: a format error when the YAML
/// parser rejects it, else `fm_of_yaml` of its value.
pub open spec fn fm_of_block(block: Seq<char>) -> Option<FmView> {
    match yaml_of(block) {
        None => None,
        Some(y) => fm_of_yaml(y),
    }
}

proof fn lemma_str_items_none(l: Seq<Yaml>, i: int)
    requires
        0 <= i < l.len(),
        !(l[i] is Str),
    ensures
        str_items(l) is None,
    decreases l.len(),
{
    if i == l.len() - 1 {
    } else {
        lemma_str_items_none(l.drop_last(), i);
    }
}

fn format_error(msg: &str) -> (r: PipelineError)
    ensures
        r is FrontmatterFormat,
{
    PipelineError::FrontmatterFormat(msg.to_owned())
}

/// Parses the text between the frontmatter delimiters. Returns the format
/// error exactly when `fm_of_block` reports one, and the parsed metadata
/// otherwise.
#[verifier::loop_isolation(false)]
pub fn parse_frontmatter_block(block: &str) -> (r: Result<FrontmatterData, PipelineError>)
    ensures
        (r is Ok) == (fm_of_block(block@) is Some),
        r matches Ok(fm) ==> fm_of_block(block@) == Some(fm@),
        r matches Ok(fm) ==> (fm@.date matches Some(d) ==> date_in_range(d)),
        r matches Err(e) ==> e is FrontmatterFormat,
{
    let v: serde_yaml::Value = match parse_yaml(block) {
        Ok(v) => v,
        Err(msg) => {
            return Err(PipelineError::FrontmatterFormat(msg));
        },
    };
    if yaml_is_null(&v) {
        return Ok(FrontmatterData { title: None, date: None, tags: None });
    }
    if !yaml_is_mapping(&v) {
        return Err(format_error("frontmatter is not a key/value mapping"));
    }
    let ghost m = yaml_model(v)->Dict_0;
    let title: Option<String> = match yaml_get(&v, "title") {
        None => None,
        Some(w) => {
            if yaml_is_null(w) {
                None
            } else {
                match yaml_as_str(w) {
                    Some(s) => Some(s.to_owned()),
                    None => {
                        return Err(format_error("frontmatter title is not a string"));
                    },
                }
            }
        },
    };
    let date: Option<Date> = match yaml_get(&v, "date") {
        None => None,
        Some(w) => {
            if yaml_is_null(w) {
                None
            } else {
                match yaml_as_str(w) {
                    Some(s) => match crate::time::parse_date(s) {
                        Some(d) => Some(d),
                        None => {
                            return Err(format_error("frontmatter date is not a calendar date"));
                        },
                    },
                    None => {
                        return Err(format_error("frontmatter date is not a string"));
                    },
                }
            }
        },
    };
    let tags: Option<Vec<String>> = match yaml_get(&v, "tags") {
        None => None,
        Some(w) => {
            if yaml_is_null(w) {
                None
            } else {
                match yaml_as_sequence(w) {
                    Some(l) => {
                        let ghost items = l@.map_values(|x: serde_yaml::Value| yaml_model(x));
                        let mut out: Vec<String> = Vec::new();
                        let mut i: usize = 0;
                        while i < l.len()
                            invariant
                                0 <= i <= l@.len(),
                                out@.len() == i,
                                items == l@.map_values(|x: serde_yaml::Value| yaml_model(x)),
                                str_items(items.take(i as int)) == Some(
                                    out@.map_values(|s: String| s@),
                                ),
                            decreases l@.len() - i,
                        {
                            let ghost out_pre = out@;
                            match yaml_as_str(&l[i]) {
                                Some(s) => {
                                    let ghost sv = s@;
                                    out.push(s.to_owned());
                                    proof {
                                        assert(items[i as int] == yaml_model(l@[i as int]));
                                        assert(items[i as int] == Yaml::Str(sv));
                                        let cur = items.take(i + 1);
                                        assert(cur.drop_last() =~= items.take(i as int));
                                        assert(cur.last() == items[i as int]);
                                        assert(out@[i as int]@ == sv);
                                        assert(out@.map_values(|s2: String| s2@)
                                            =~= out_pre.map_values(|s2: String| s2@).push(sv));
                                        assert(str_items(cur) == Some(
                                            out@.map_values(|s2: String| s2@),
                                        ));
                                    }
                                },
                                None => {
                                    proof {
                                        assert(items[i as int] == yaml_model(l@[i as int]));
                                        lemma_str_items_none(items, i as int);
                                        assert(yaml_model(v) == Yaml::Dict(m));
                                        assert(m.contains_key("tags"@));
                                        assert(m["tags"@] == yaml_model(*w));
                                        assert(yaml_model(*w) == Yaml::List(items));
                                        assert(fm_tags(m) is None);
                                        assert(fm_of_yaml(yaml_model(v)) is None);
                                    }
                                    return Err(
                                        format_error("frontmatter tags hold a non-string entry"),
                                    );
                                },
                            }
                            i = i + 1;
                        }
                        proof {
                            assert(items.take(l@.len() as int) =~= items);
                        }
                        Some(out)
                    },
                    None => {
                        return Err(format_error("frontmatter tags are not a sequence"));
                    },
                }
            }
        },
    };
    let fm = FrontmatterData { title, date, tags };
    proof {
        assert(fm_title(m) == Some(fm@.title));
        assert(fm_date(m) == Some(fm@.date));
        assert(fm_tags(m) == Some(fm@.tags));
    }
    Ok(fm)
}

/// How raw text divides, before the metadata block is parsed.
pub ghost enum RawSplit {
    /// No block: the whole trimmed text is body.
    NoBlock { body: Seq<char> },
    /// A block bounded by delimiter lines, and the body after it, each a
    /// `'\n'`-join of the lines between or after the delimiters.
    Block { block: Seq<char>, body: Seq<char> },
}

/// A closing delimiter line: one that trims to exactly `---`.
pub open spec fn is_delim_line(l: Seq<char>) -> bool {
    trim_spec(l) == seq!['-', '-', '-']
}

/// The first delimiter line at or after position `i`, or `ls.len()` when
/// there is none.
pub open spec fn find_close(ls: Seq<Seq<char>>, i: int) -> int
    decreases ls.len() - i,
{
    if i < 0 || i >= ls.len() {
        ls.len() as int
    } else if is_delim_line(ls[i]) {
        i
    } else {
        find_close(ls, i + 1)
    }
}

/// An opening delimiter: the trimmed text begins with `---`.
pub open spec fn opens_with_dashes(t: Seq<char>) -> bool {
    t.len() >= 3 && t[0] == '-' && t[1] == '-' && t[2] == '-'
}

/// How `extract_frontmatter` divides its input. The whole text is trimmed
/// first. Text that does not open with `---` is all body. With an opening
/// `---`, fewer than three lines cannot bound a block, and a missing
/// closing delimiter leaves the whole trimmed text as body, stray opening
/// delimiter included; both fallbacks are policy, not errors. Otherwise the
/// lines strictly between the opening line and the first closing delimiter
/// line are the block, and the lines after the closing delimiter are the
/// body.
pub open spec fn split_raw_spec(s: Seq<char>) -> RawSplit {
    let t = trim_spec(s);
    if !opens_with_dashes(t) {
        RawSplit::NoBlock { body: t }
    } else {
        let ls = lines_spec(t);
        if ls.len() < 3 {
            RawSplit::NoBlock { body: t }
        } else {
            let e = find_close(ls, 1);
            if e >= ls.len() {
                RawSplit::NoBlock { body: t }
            } else {
                RawSplit::Block {
                    block: join_spec(ls.subrange(1, e)),
                    body: join_spec(ls.subrange(e + 1, ls.len() as int)),
                }
            }
        }
    }
}

/// What splitting returns: the body and, when a block is present, its
/// parsed metadata; `Err` marks exactly the well-delimited blocks whose
/// metadata is malformed.
pub open spec fn split_result_spec(s: Seq<char>) -> Result<(Option<FmView>, Seq<char>), ()> {
    match split_raw_spec(s) {
        RawSplit::NoBlock { body } => Ok((None, body)),
        RawSplit::Block { block, body } => match fm_of_block(block) {
            Some(fm) => Ok((Some(fm), body)),
            None => Err(()),
        },
    }
}

proof fn lemma_find_close_at(ls: Seq<Seq<char>>, i: int, e: int)
    requires
        0 <= i <= e <= ls.len(),
        forall|k: int| i <= k < e ==> !is_delim_line(ls[k]),
        e < ls.len() ==> is_delim_line(ls[e]),
    ensures
        find_close(ls, i) == e,
    decreases e - i,
{
    if i < e {
        lemma_find_close_at(ls, i + 1, e);
    }
}

fn is_delim_range(s: &str, a: usize, b: usize) -> (r: bool)
    requires
        a <= b <= s@.len(),
    ensures
        r == is_delim_line(s@.subrange(a as int, b as int)),
{
    let (x, y) = trim_bounds(s, a, b);
    let ghost t = trim_spec(s@.subrange(a as int, b as int));
    if y - x == 3 && s.get_char(x) == '-' && s.get_char(x + 1) == '-' && s.get_char(x + 2) == '-' {
        proof {
            assert(t =~= seq!['-', '-', '-']);
        }
        true
    } else {
        proof {
            assert(!(t =~= seq!['-', '-', '-']));
        }
        false
    }
}

/// The view of an optional frontmatter value.
pub open spec fn opt_fm_view(o: Option<FrontmatterData>) -> Option<FmView> {
    match o {
        Some(fm) => Some(fm@),
        None => None,
    }
}

/// The frontmatter date, when present, lies in chrono's range; parsing
/// guarantees this, and date arithmetic relies on it.
pub open spec fn fm_dates_in_range(fm: Option<FmView>) -> bool {
    fm matches Some(f) ==> (f.date matches Some(d) ==> date_in_range(d))
}

/// Separates an optional leading metadata block from the body of `content`
/// and parses the block, as `split_result_spec` describes: the input is
/// trimmed; absence of an opening `---`, too few lines, or a missing
/// closing delimiter all mean "no frontmatter" with the trimmed text as
/// body; a malformed block inside proper delimiters is a
/// `FrontmatterFormat` error that yields no body at all.
#[verifier::loop_isolation(false)]
pub fn extract_frontmatter(content: &str) -> (r: Result<
    (Option<FrontmatterData>, String),
    PipelineError,
>)
    ensures
        (r is Ok) == (split_result_spec(content@) is Ok),
        r matches Ok(p) ==> split_result_spec(content@) == Ok::<_, ()>(
            (opt_fm_view(p.0), p.1@),
        ),
        r matches Ok(p) ==> fm_dates_in_range(opt_fm_view(p.0)),
        r matches Err(e) ==> e is FrontmatterFormat,
{
    let n = content.unicode_len();
    let (lo, hi) = trim_bounds(content, 0, n);
    proof {
        assert(content@.subrange(0, n as int) =~= content@);
    }
    let ghost t = trim_spec(content@);
    if hi - lo < 3 || content.get_char(lo) != '-' || content.get_char(lo + 1) != '-'
        || content.get_char(lo + 2) != '-' {
        proof {
            assert(!opens_with_dashes(t));
        }
        return Ok((None, content.substring_char(lo, hi).to_owned()));
    }
    proof {
        assert(opens_with_dashes(t));
    }
    let ranges = line_ranges(content, lo, hi);
    let ghost ls = lines_spec(t);
    if ranges.len() < 3 {
        return Ok((None, content.substring_char(lo, hi).to_owned()));
    }
    let mut e: usize = 1;
    while e < ranges.len() && !is_delim_range(content, ranges[e].0, ranges[e].1)
        invariant
            1 <= e <= ranges@.len(),
            forall|k: int| 1 <= k < e ==> !is_delim_line(ls[k]),
        decreases ranges@.len() - e,
    {
        e = e + 1;
    }
    proof {
        if e < ranges@.len() {
            assert(is_delim_line(ls[e as int]));
        }
        lemma_find_close_at(ls, 1, e as int);
    }
    if e == ranges.len() {
        return Ok((None, content.substring_char(lo, hi).to_owned()));
    }
    let block = join_ranges(content, &ranges, 1, e);
    let body = join_ranges(content, &ranges, e + 1, ranges.len());
    proof {
        assert(ranges_text(content@, ranges@.subrange(1, e as int)) =~= ls.subrange(
            1,
            e as int,
        ));
        assert(ranges_text(content@, ranges@.subrange(e + 1, ranges@.len() as int))
            =~= ls.subrange(e + 1, ls.len() as int));
    }
    match parse_frontmatter_block(block.as_str()) {
        Ok(fm) => Ok((Some(fm), body)),
        Err(err) => Err(err),
    }
}

/// Law: text whose trimmed form does not open with `---` splits into no
/// frontmatter and the trimmed text itself as body.
pub proof fn lemma_split_no_open(s: Seq<char>)
    requires
        !opens_with_dashes(trim_spec(s)),
    ensures
        split_result_spec(s) == Ok::<(Option<FmView>, Seq<char>), ()>((None, trim_spec(s))),
{
}

/// Law: text that opens with `---` but has no closing delimiter line after
/// it splits into no frontmatter, with the whole trimmed text — stray
/// opening delimiter included — as body.
pub proof fn lemma_split_unclosed(s: Seq<char>)
    requires
        opens_with_dashes(trim_spec(s)),
        forall|k: int|
            1 <= k < lines_spec(trim_spec(s)).len() ==> !is_delim_line(
                #[trigger] lines_spec(trim_spec(s))[k],
            ),
    ensures
        split_result_spec(s) == Ok::<(Option<FmView>, Seq<char>), ()>((None, trim_spec(s))),
{
    let t = trim_spec(s);
    let ls = lines_spec(t);
    if ls.len() >= 3 {
        lemma_find_close_at(ls, 1, ls.len() as int);
    }
}


/// The document that renders a frontmatter block (given as its lines) and
/// a body (given as its lines): an opening delimiter line, the block's
/// lines, a closing delimiter line, then the body's lines, joined with
/// newlines.
pub open spec fn render_document_spec(
    block_lines: Seq<Seq<char>>,
    body_lines: Seq<Seq<char>>,
) -> Seq<char> {
    join_spec(
        seq![seq!['-', '-', '-']] + block_lines + seq![seq!['-', '-', '-']] + body_lines,
    )
}

/// Law: a document rendered from a frontmatter block and a body splits
/// back into exactly that block and that body; when the block is valid
/// frontmatter, the whole split returns its metadata and the body. The
/// lines must be plain (no embedded newline, no trailing carriage
/// return), no block line may itself read as a delimiter, at least one
/// line must stand between or after the delimiters, and a final body line
/// must not be empty or end in whitespace, so that trimming leaves the
/// document unchanged.
pub proof fn lemma_split_round_trip(block_lines: Seq<Seq<char>>, body_lines: Seq<Seq<char>>)
    requires
        forall|i: int| 0 <= i < block_lines.len() ==> plain_line(#[trigger] block_lines[i]),
        forall|i: int| 0 <= i < body_lines.len() ==> plain_line(#[trigger] body_lines[i]),
        forall|i: int| 0 <= i < block_lines.len() ==> !is_delim_line(#[trigger] block_lines[i]),
        block_lines.len() + body_lines.len() >= 1,
        body_lines.len() > 0 ==> body_lines.last().len() > 0 && !is_ws_char(
            body_lines.last().last(),
        ),
    ensures
        split_raw_spec(render_document_spec(block_lines, body_lines)) == (RawSplit::Block {
            block: join_spec(block_lines),
            body: join_spec(body_lines),
        }),
        fm_of_block(join_spec(block_lines)) matches Some(fm) ==> split_result_spec(
            render_document_spec(block_lines, body_lines),
        ) == Ok::<_, ()>((Some(fm), join_spec(body_lines))),
{
    let dashes = seq!['-', '-', '-'];
    let all = seq![dashes] + block_lines + seq![dashes] + body_lines;
    let doc = join_spec(all);
    let bl = block_lines.len() as int;
    assert(all.len() == 2 + bl + body_lines.len());
    assert(all[0] == dashes);
    assert(plain_line(dashes));
    assert forall|i: int| 0 <= i < all.len() implies plain_line(#[trigger] all[i]) by {
        if i == 0 || i == bl + 1 {
        } else if i <= bl {
            assert(all[i] == block_lines[i - 1]);
        } else {
            assert(all[i] == body_lines[i - bl - 2]);
        }
    }
    if body_lines.len() == 0 {
        assert(all.last() == dashes);
    } else {
        assert(all.last() == body_lines.last());
    }
    assert(all.last().len() > 0);
    lemma_join_bounds(all);
    assert(doc.len() > 0);
    assert(doc[0] == '-');
    assert(!is_ws_char(doc.last()));
    lemma_trim_noop(doc);
    lemma_lines_of_join(all);
    // the document opens with the three dashes of its first line
    assert(doc =~= all[0] + seq!['\n'] + join_spec(all.drop_first()));
    assert(doc[0] == '-' && doc[1] == '-' && doc[2] == '-');
    assert(opens_with_dashes(doc));
    let ls = lines_spec(trim_spec(doc));
    assert(ls =~= all);
    assert(ls.len() >= 3);
    // the closing delimiter is the first delimiter line after the opening
    lemma_trim_noop(dashes);
    assert(is_delim_line(dashes));
    assert forall|k: int| 1 <= k < bl + 1 implies !is_delim_line(#[trigger] ls[k]) by {
        assert(ls[k] == block_lines[k - 1]);
    }
    assert(ls[bl + 1] == dashes);
    lemma_find_close_at(ls, 1, bl + 1);
    let e = bl + 1;
    assert(e < ls.len());
    assert(ls.subrange(1, e) =~= block_lines);
    assert(ls.subrange(e + 1, ls.len() as int) =~= body_lines);
    assert(split_raw_spec(doc) == (RawSplit::Block {
        block: join_spec(block_lines),
        body: join_spec(body_lines),
    }));
}


/// Renders a frontmatter block (given as its lines) and a body (given as
/// its lines) into one document, as `render_document_spec` describes: the
/// inverse of the splitter on plain lines.
#[verifier::loop_isolation(false)]
pub fn render_as_document(block_lines: &Vec<String>, body_lines: &Vec<String>) -> (r: String)
    ensures
        r@ == render_document_spec(
            block_lines@.map_values(|s: String| s@),
            body_lines@.map_values(|s: String| s@),
        ),
{
    let ghost bl = block_lines@.map_values(|s: String| s@);
    let ghost yl = body_lines@.map_values(|s: String| s@);
    let ghost dashes = seq!['-', '-', '-'];
    let ghost all = seq![dashes] + bl + seq![dashes] + yl;
    let mut out = "---".to_owned();
    proof {
        reveal_strlit("---");
        reveal_strlit("\n");
        assert(out@ =~= dashes);
        assert((seq![dashes] + bl.take(0)) =~= seq![dashes]);
        assert(join_spec(seq![dashes]) == dashes);
    }
    let mut i: usize = 0;
    while i < block_lines.len()
        invariant
            0 <= i <= block_lines@.len(),
            out@ =~= join_spec(seq![dashes] + bl.take(i as int)),
        decreases block_lines@.len() - i,
    {
        out.append("\n");
        out.append(block_lines[i].as_str());
        proof {
            let pre = seq![dashes] + bl.take(i as int);
            lemma_join_push(pre, bl[i as int]);
            assert(pre.push(bl[i as int]) =~= seq![dashes] + bl.take(i + 1));
        }
        i = i + 1;
    }
    proof {
        assert(bl.take(bl.len() as int) =~= bl);
    }
    out.append("\n---");
    proof {
        reveal_strlit("\n---");
        let pre = seq![dashes] + bl;
        lemma_join_push(pre, dashes);
        assert(pre.len() > 0);
        assert("\n---"@ =~= seq!['\n'] + dashes);
        assert(out@ =~= join_spec(pre) + seq!['\n'] + dashes);
        assert(out@ =~= join_spec(pre.push(dashes)));
        assert(pre.push(dashes) =~= seq![dashes] + bl + seq![dashes] + yl.take(0));
    }
    let mut j: usize = 0;
    while j < body_lines.len()
        invariant
            0 <= j <= body_lines@.len(),
            out@ =~= join_spec(seq![dashes] + bl + seq![dashes] + yl.take(j as int)),
        decreases body_lines@.len() - j,
    {
        out.append("\n");
        out.append(body_lines[j].as_str());
        proof {
            let pre = seq![dashes] + bl + seq![dashes] + yl.take(j as int);
            lemma_join_push(pre, yl[j as int]);
            assert(pre.push(yl[j as int]) =~= seq![dashes] + bl + seq![dashes] + yl.take(j + 1));
        }
        j = j + 1;
    }
    proof {
        assert(yl.take(yl.len() as int) =~= yl);
        assert(seq![dashes] + bl + seq![dashes] + yl =~= all);
    }
    out
}

/// The metadata of one parsed content file.
#[derive(Debug, PartialEq, Eq)]
pub struct ParsedFileMeta {
    pub path: String,
    pub date: Timestamp,
    pub file_type: FileType,
}

impl View for ParsedFileMeta {
    type V = FileMetaView;

    open spec fn view(&self) -> FileMetaView {
        FileMetaView { path: self.path@, date: self.date@, file_type: self.file_type }
    }
}

impl Clone for ParsedFileMeta {
    fn clone(&self) -> (r: Self)
        ensures
            r@ == self@,
    {
        ParsedFileMeta { path: self.path.clone(), date: self.date, file_type: self.file_type }
    }
}

/// The file name of a path: the characters after its last `'/'`.
pub open spec fn file_name_spec(p: Seq<char>) -> Seq<char> {
    p.subrange(name_start(p), p.len() as int)
}

/// The stem of a path: its file name up to the last `'.'`, unless that dot
/// starts the name, in which case the whole name.
pub open spec fn stem_spec(p: Seq<char>) -> Seq<char> {
    if last_dot(p) > name_start(p) {
        p.subrange(name_start(p), last_dot(p))
    } else {
        file_name_spec(p)
    }
}

fn file_name_start(path: &str) -> (b: usize)
    ensures
        b == name_start(path@),
        b <= path@.len(),
        forall|k: int| b <= k < path@.len() ==> path@[k] != '/',
        b > 0 ==> path@[b - 1] == '/',
{
    let n = path.unicode_len();
    let mut b: usize = n;
    while b > 0 && path.get_char(b - 1) != '/'
        invariant
            0 <= b <= n == path@.len(),
            forall|k: int| b <= k < n ==> path@[k] != '/',
        decreases b,
    {
        b = b - 1;
    }
    proof {
        lemma_name_start_at(path@, b as int);
    }
    b
}

impl ParsedFileMeta {
    /// The file's name with its extension still attached; the destination
    /// naming scheme appends its own suffix to this.
    pub fn file_name_no_stem(&self) -> (r: &str)
        ensures
            r@ == file_name_spec(self.path@),
    {
        self.file_name()
    }

    /// The file's name up to its extension.
    pub fn stem(&self) -> (r: &str)
        ensures
            r@ == stem_spec(self.path@),
    {
        let n = self.path.as_str().unicode_len();
        let b = file_name_start(self.path.as_str());
        let s = self.path.as_str();
        let mut j: usize = n;
        while j > b && s.get_char(j - 1) != '.'
            invariant
                b <= j <= n == s@.len(),
                forall|k: int| j <= k < n ==> s@[k] != '.',
            decreases j,
        {
            j = j - 1;
        }
        proof {
            assert(forall|k: int| b <= k < n ==> s@[k] != '/');
        }
        if j > b {
            proof {
                lemma_last_dot_at(s@, j - 1);
            }
            if j - 1 > b {
                s.substring_char(b, j - 1)
            } else {
                s.substring_char(b, n)
            }
        } else {
            proof {
                if b > 0 {
                    lemma_last_dot_none(s@, b as int);
                } else {
                    lemma_last_dot_none(s@, 0);
                }
            }
            s.substring_char(b, n)
        }
    }

    /// The file's name: the part of its path after the last `'/'`.
    pub fn file_name(&self) -> (r: &str)
        ensures
            r@ == file_name_spec(self.path@),
    {
        let s = self.path.as_str();
        let n = s.unicode_len();
        let b = file_name_start(s);
        s.substring_char(b, n)
    }
}

/// The mathematical value of a `FileContents`.
pub ghost struct FileContentsView {
    pub frontmatter: Option<FmView>,
    pub body: Seq<char>,
}

/// What parsing a file's text yields: its optional frontmatter and its
/// body, the latter raw until the render stage replaces it.
#[derive(Debug, PartialEq, Eq)]
pub struct FileContents {
    pub frontmatter: Option<FrontmatterData>,
    pub body: String,
}

impl View for FileContents {
    type V = FileContentsView;

    open spec fn view(&self) -> FileContentsView {
        FileContentsView { frontmatter: opt_fm_view(self.frontmatter), body: self.body@ }
    }
}

impl Clone for FileContents {
    fn clone(&self) -> (r: Self)
        ensures
            r@ == self@,
    {
        let fm: Option<FrontmatterData> = match &self.frontmatter {
            Some(f) => Some(f.clone()),
            None => None,
        };
        FileContents { frontmatter: fm, body: self.body.clone() }
    }
}

/// The mathematical value of a `ParsedFile`.
pub ghost struct ParsedFileView {
    pub meta: FileMetaView,
    pub contents: FileContentsView,
}

/// One content file after the split stage: its metadata and its contents.
#[derive(Debug, PartialEq, Eq)]
pub struct ParsedFile {
    pub meta: ParsedFileMeta,
    pub contents: FileContents,
}

impl View for ParsedFile {
    type V = ParsedFileView;

    open spec fn view(&self) -> ParsedFileView {
        ParsedFileView { meta: self.meta@, contents: self.contents@ }
    }
}

impl Clone for ParsedFile {
    fn clone(&self) -> (r: Self)
        ensures
            r@ == self@,
    {
        ParsedFile { meta: self.meta.clone(), contents: self.contents.clone() }
    }
}

impl ParsedFile {
    /// Builds the page for one scanned file from its parsed contents.
    pub fn new(meta: &FileMeta, contents: FileContents) -> (r: ParsedFile)
        ensures
            r@.meta == meta@,
            r@.contents == contents@,
    {
        ParsedFile {
            meta: ParsedFileMeta {
                path: meta.path.clone(),
                date: meta.date,
                file_type: meta.file_type,
            },
            contents,
        }
    }
}

/// What one file parses to, at the level of views: a format error, or a
/// page pairing the file's metadata with its split contents.
pub open spec fn parse_one_spec(m: FileMetaView, s: Seq<char>) -> Result<ParsedFileView, ()> {
    match split_result_spec(s) {
        Ok(p) => Ok(
            ParsedFileView {
                meta: m,
                contents: FileContentsView { frontmatter: p.0, body: p.1 },
            },
        ),
        Err(()) => Err(()),
    }
}

/// A page whose frontmatter date, when present, lies in chrono's range.
pub open spec fn page_date_in_range(p: ParsedFileView) -> bool {
    fm_dates_in_range(p.contents.frontmatter)
}

/// The parser for content files. Bodies are carried as flat text, so the
/// parser holds no allocation arena and no state.
pub struct MarkdownParser {}

impl MarkdownParser {
    /// Creates a parser.
    pub fn with_arena() -> (r: MarkdownParser) {
        MarkdownParser {  }
    }

    /// Splits one file's raw text into frontmatter and body, as
    /// `extract_frontmatter` does.
    pub fn parse_markdown(&self, content: &str) -> (r: Result<FileContents, PipelineError>)
        ensures
            (r is Ok) == (split_result_spec(content@) is Ok),
            r matches Ok(c) ==> split_result_spec(content@) == Ok::<_, ()>(
                (c@.frontmatter, c@.body),
            ),
            r matches Ok(c) ==> fm_dates_in_range(c@.frontmatter),
            r matches Err(e) ==> e is FrontmatterFormat,
    {
        match extract_frontmatter(content) {
            Ok(p) => Ok(FileContents { frontmatter: p.0, body: p.1 }),
            Err(e) => Err(e),
        }
    }

    /// Parses a list of scanned files with their raw contents into pages.
    /// The error policy is uniform abort-on-first-error: either every file
    /// parses and all pages are returned in input order, or the first
    /// malformed file's error is returned and no pages are.
    pub fn parse_many(&self, files: &Vec<(FileMeta, String)>) -> (r: Result<
        Vec<ParsedFile>,
        PipelineError,
    >)
        ensures
            (r is Ok) == (forall|i: int|
                0 <= i < files@.len() ==> #[trigger] split_result_spec(files@[i].1@) is Ok),
            r matches Ok(v) ==> v@.len() == files@.len(),
            r matches Ok(v) ==> forall|i: int|
                0 <= i < files@.len() ==> parse_one_spec(files@[i].0@, files@[i].1@) == Ok::<
                    _,
                    (),
                >(#[trigger] v@[i]@),
            r matches Ok(v) ==> forall|i: int|
                0 <= i < files@.len() ==> page_date_in_range(#[trigger] v@[i]@),
            r matches Err(e) ==> e is FrontmatterFormat,
    {
        let mut acc: Vec<ParsedFile> = Vec::new();
        let mut i: usize = 0;
        while i < files.len()
            invariant
                0 <= i <= files@.len(),
                acc@.len() == i,
                forall|k: int|
                    0 <= k < i ==> #[trigger] split_result_spec(files@[k].1@) is Ok,
                forall|k: int|
                    0 <= k < i ==> parse_one_spec(files@[k].0@, files@[k].1@) == Ok::<_, ()>(
                        #[trigger] acc@[k]@,
                    ),
                forall|k: int| 0 <= k < i ==> page_date_in_range(#[trigger] acc@[k]@),
            decreases files@.len() - i,
        {
            let pair = &files[i];
            let contents = match self.parse_markdown(pair.1.as_str()) {
                Ok(c) => c,
                Err(e) => {
                    proof {
                        assert(!(split_result_spec(files@[i as int].1@) is Ok));
                    }
                    return Err(e);
                },
            };
            acc.push(ParsedFile::new(&pair.0, contents));
            i = i + 1;
        }
        Ok(acc)
    }
}


/// Rendered HTML text.
#[derive(Debug, PartialEq, Eq)]
pub struct Html(pub String);

impl View for Html {
    type V = Seq<char>;

    open spec fn view(&self) -> Seq<char> {
        self.0@
    }
}

impl Clone for Html {
    fn clone(&self) -> (r: Self)
        ensures
            r@ == self@,
    {
        Html(self.0.clone())
    }
}

impl Html {
    /// The HTML as text.
    pub fn as_str(&self) -> (r: &str)
        ensures
            r@ == self@,
    {
        self.0.as_str()
    }
}

/// The pages collected by the pipeline, in scan order.
#[derive(Debug)]
pub struct PageList {
    pub files: Vec<ParsedFile>,
}

impl From<Vec<ParsedFile>> for PageList {
    fn from(files: Vec<ParsedFile>) -> (r: PageList) {
        PageList { files }
    }
}

impl vstd::std_specs::convert::FromSpecImpl<Vec<ParsedFile>> for PageList {
    open spec fn obeys_from_spec() -> bool {
        true
    }

    open spec fn from_spec(files: Vec<ParsedFile>) -> PageList {
        (PageList { files })
    }
}

/// The effective date of a page: its frontmatter date at midnight UTC when
/// that date is present, else the file's modification time; resolved for
/// each page independently.
pub open spec fn effective_date_view(p: ParsedFileView) -> TimeView {
    match p.contents.frontmatter {
        Some(fm) => match fm.date {
            Some(d) => date_timestamp(d),
            None => p.meta.date,
        },
        None => p.meta.date,
    }
}

/// Computes a page's effective date: the frontmatter date when present —
/// whatever the file's own modification time says — and the modification
/// time exactly when no frontmatter date exists.
pub fn effective_timestamp(p: &ParsedFile) -> (r: Timestamp)
    requires
        page_date_in_range(p@),
    ensures
        r@ == effective_date_view(p@),
        p@.contents.frontmatter matches Some(fm) ==> (fm.date matches Some(d) ==> r@
            == date_timestamp(d)),
        p@.contents.frontmatter matches Some(fm) ==> (fm.date is None ==> r@ == p@.meta.date),
        p@.contents.frontmatter is None ==> r@ == p@.meta.date,
{
    match &p.contents.frontmatter {
        Some(fm) => match &fm.date {
            Some(d) => date_to_timestamp(d),
            None => p.meta.date,
        },
        None => p.meta.date,
    }
}

/// Page `a` sorts no later than page `b`.
pub open spec fn eff_le(a: ParsedFileView, b: ParsedFileView) -> bool {
    ts_le(effective_date_view(a), effective_date_view(b))
}

/// Inserts `x` after every page of `s` that sorts no later than `x`: the
/// placement that keeps a stable order when `x` arrived after all of `s`.
pub open spec fn insert_by_date(s: Seq<ParsedFileView>, x: ParsedFileView) -> Seq<
    ParsedFileView,
>
    decreases s.len(),
{
    if s.len() == 0 {
        seq![x]
    } else if eff_le(s.last(), x) {
        s.push(x)
    } else {
        insert_by_date(s.drop_last(), x).push(s.last())
    }
}

/// The pages of `s` in ascending effective-date order, stably.
pub open spec fn sort_by_date_spec(s: Seq<ParsedFileView>) -> Seq<ParsedFileView>
    decreases s.len(),
{
    if s.len() == 0 {
        Seq::empty()
    } else {
        insert_by_date(sort_by_date_spec(s.drop_last()), s.last())
    }
}

/// Ascending by effective date.
pub open spec fn sorted_by_eff(s: Seq<ParsedFileView>) -> bool {
    forall|i: int, j: int| 0 <= i < j < s.len() ==> eff_le(s[i], s[j])
}

/// The views of a sequence of pages.
pub open spec fn pages_view(ps: Seq<ParsedFile>) -> Seq<ParsedFileView> {
    ps.map_values(|p: ParsedFile| p@)
}

/// The views of a sequence of page references.
pub open spec fn page_refs_view(ps: Seq<&ParsedFile>) -> Seq<ParsedFileView> {
    ps.map_values(|p: &ParsedFile| p@)
}

/// Every page's frontmatter date, when present, is in chrono's range.
pub open spec fn all_dates_in_range(s: Seq<ParsedFileView>) -> bool {
    forall|i: int| 0 <= i < s.len() ==> page_date_in_range(#[trigger] s[i])
}

proof fn lemma_insert_at(s: Seq<ParsedFileView>, x: ParsedFileView, j: int)
    requires
        0 <= j <= s.len(),
        j > 0 ==> eff_le(s[j - 1], x),
        forall|k: int| j <= k < s.len() ==> !eff_le(#[trigger] s[k], x),
    ensures
        insert_by_date(s, x) =~= s.subrange(0, j) + seq![x] + s.subrange(j, s.len() as int),
    decreases s.len(),
{
    if j == s.len() {
        if s.len() == 0 {
            assert(insert_by_date(s, x) =~= seq![x]);
        } else {
            assert(eff_le(s.last(), x));
            assert(insert_by_date(s, x) =~= s.push(x));
        }
    } else {
        assert(!eff_le(s[s.len() - 1], x));
        let d = s.drop_last();
        assert(forall|k: int| j <= k < d.len() ==> !eff_le(#[trigger] d[k], x));
        lemma_insert_at(d, x, j);
        assert(d.subrange(0, j) =~= s.subrange(0, j));
        assert(d.subrange(j, d.len() as int) =~= s.subrange(j, s.len() - 1));
        assert(insert_by_date(s, x) =~= insert_by_date(d, x).push(s.last()));
    }
}

impl PageList {
    /// A read-only projection of the pages in ascending effective-date
    /// order. Pages with equal effective dates keep their relative input
    /// order, and the stored list itself is left unchanged, so repeated
    /// calls agree.
    #[verifier::loop_isolation(false)]
    pub fn sorted_by_date(&self) -> (r: Vec<&ParsedFile>)
        requires
            all_dates_in_range(pages_view(self.files@)),
        ensures
            page_refs_view(r@) == sort_by_date_spec(pages_view(self.files@)),
            forall|k: int|
                0 <= k < r@.len() ==> page_date_in_range(#[trigger] page_refs_view(r@)[k]),
    {
        let mut out: Vec<&ParsedFile> = Vec::new();
        let mut i: usize = 0;
        proof {
            assert(pages_view(self.files@.take(0)) =~= Seq::<ParsedFileView>::empty());
        }
        while i < self.files.len()
            invariant
                0 <= i <= self.files@.len(),
                page_refs_view(out@) =~= sort_by_date_spec(pages_view(self.files@.take(
                    i as int,
                ))),
                out@.len() == i,
                forall|k: int| 0 <= k < out@.len() ==> page_date_in_range(#[trigger] out@[k]@),
            decreases self.files@.len() - i,
        {
            let x: &ParsedFile = &self.files[i];
            proof {
                assert(pages_view(self.files@)[i as int] == x@);
            }
            let xt = effective_timestamp(x);
            let mut j: usize = out.len();
            while j > 0 && !timestamp_le(&effective_timestamp(out[j - 1]), &xt)
                invariant
                    0 <= j <= out@.len(),
                    forall|k: int|
                        j <= k < out@.len() ==> !eff_le(#[trigger] page_refs_view(out@)[k], x@),
                decreases j,
            {
                proof {
                    assert(page_refs_view(out@)[j - 1] == out@[j - 1]@);
                }
                j = j - 1;
            }
            let ghost old_view = page_refs_view(out@);
            proof {
                if j > 0 {
                    assert(page_refs_view(out@)[j - 1] == out@[j - 1]@);
                    assert(eff_le(old_view[j - 1], x@));
                }
                lemma_insert_at(old_view, x@, j as int);
            }
            let ghost out_old = out@;
            out.insert(j, x);
            proof {
                assert(page_refs_view(out@) =~= old_view.subrange(0, j as int) + seq![x@]
                    + old_view.subrange(j as int, old_view.len() as int));
                assert forall|k: int| 0 <= k < out@.len() implies page_date_in_range(
                    #[trigger] out@[k]@,
                ) by {
                    assert(out@ =~= out_old.insert(j as int, x));
                    if k < j {
                        assert(out@[k] == out_old[k]);
                    } else if k == j {
                        assert(out@[k] == x);
                    } else {
                        assert(out@[k] == out_old[k - 1]);
                    }
                }
                let cur = self.files@.take(i + 1);
                assert(pages_view(cur).drop_last() =~= pages_view(self.files@.take(i as int)));
                assert(pages_view(cur).last() == x@);
                assert(page_refs_view(out@) =~= insert_by_date(
                    sort_by_date_spec(pages_view(self.files@.take(i as int))),
                    x@,
                ));
                assert(page_refs_view(out@) =~= sort_by_date_spec(pages_view(cur)));
            }
            i = i + 1;
        }
        proof {
            assert(self.files@.take(self.files@.len() as int) =~= self.files@);
            assert(forall|k: int|
                0 <= k < out@.len() ==> #[trigger] page_refs_view(out@)[k] == out@[k]@);
        }
        out
    }
}

proof fn lemma_insert_multiset(s: Seq<ParsedFileView>, x: ParsedFileView)
    ensures
        insert_by_date(s, x).to_multiset() =~= s.push(x).to_multiset(),
    decreases s.len(),
{
    broadcast use vstd::multiset::group_multiset_axioms;
    broadcast use vstd::seq_lib::group_to_multiset_ensures;

    if s.len() == 0 {
        assert(insert_by_date(s, x) =~= s.push(x));
    } else if eff_le(s.last(), x) {
    } else {
        let d = s.drop_last();
        lemma_insert_multiset(d, x);
        assert(insert_by_date(s, x) =~= insert_by_date(d, x).push(s.last()));
        assert(insert_by_date(s, x).to_multiset() =~= insert_by_date(d, x).to_multiset().insert(
            s.last(),
        ));
        assert(d.push(x).push(s.last()).to_multiset() =~= d.push(x).to_multiset().insert(
            s.last(),
        ));
        assert(d.push(x).push(s.last()).to_multiset() =~= d.to_multiset().insert(x).insert(
            s.last(),
        ));
        assert(s.push(x).to_multiset() =~= s.to_multiset().insert(x));
        assert(d.push(s.last()) =~= s);
        assert(s.to_multiset() =~= d.push(s.last()).to_multiset());
        assert(d.push(s.last()).to_multiset() =~= d.to_multiset().insert(s.last()));
    }
}

/// Law: sorting by effective date is a permutation — every page appears in
/// the output exactly as often as in the input.
pub proof fn lemma_sort_by_date_permutation(s: Seq<ParsedFileView>)
    ensures
        sort_by_date_spec(s).to_multiset() == s.to_multiset(),
    decreases s.len(),
{
    broadcast use vstd::seq_lib::group_to_multiset_ensures;

    if s.len() > 0 {
        let d = s.drop_last();
        lemma_sort_by_date_permutation(d);
        lemma_insert_multiset(sort_by_date_spec(d), s.last());
        assert(sort_by_date_spec(d).push(s.last()).to_multiset() =~= sort_by_date_spec(
            d,
        ).to_multiset().insert(s.last()));
        assert(d.push(s.last()) =~= s);
        assert(s.to_multiset() =~= d.push(s.last()).to_multiset());
        assert(d.push(s.last()).to_multiset() =~= d.to_multiset().insert(s.last()));
        assert(sort_by_date_spec(s).to_multiset() =~= s.to_multiset());
    }
}

proof fn lemma_insert_sorted(s: Seq<ParsedFileView>, x: ParsedFileView)
    requires
        sorted_by_eff(s),
    ensures
        sorted_by_eff(insert_by_date(s, x)),
    decreases s.len(),
{
    if s.len() == 0 {
    } else if eff_le(s.last(), x) {
        let r = s.push(x);
        assert forall|i: int, j: int| 0 <= i < j < r.len() implies eff_le(r[i], r[j]) by {
            if j == r.len() - 1 {
                if i < s.len() - 1 {
                    assert(eff_le(s[i], s[s.len() - 1]));
                }
            }
        }
    } else {
        let d = s.drop_last();
        assert(forall|i: int, j: int| 0 <= i < j < d.len() ==> eff_le(#[trigger] d[i], #[trigger] d[j]));
        lemma_insert_sorted(d, x);
        let t = insert_by_date(d, x);
        let r = t.push(s.last());
        lemma_insert_multiset(d, x);
        assert forall|i: int, j: int| 0 <= i < j < r.len() implies eff_le(r[i], r[j]) by {
            broadcast use vstd::seq_lib::group_to_multiset_ensures;

            if j == r.len() - 1 {
                // every element of t is either x or an element of d, and
                // both sort no later than s.last()
                assert(t.to_multiset() =~= d.push(x).to_multiset());
                assert(t.to_multiset().contains(t[i]));
                assert(d.push(x).contains(t[i]));
                let w = choose|w: int| 0 <= w < d.push(x).len() && d.push(x)[w] == t[i];
                if w < d.len() {
                    assert(eff_le(d[w], s.last()) || eff_le(s.last(), d[w]));
                    assert(eff_le(s[w], s[s.len() - 1]));
                } else {
                    assert(d.push(x)[w] == x);
                    assert(!eff_le(s.last(), x));
                    assert(eff_le(x, s.last()));
                }
            }
        }
    }
}

/// Law: the sorted projection is ascending by effective date.
pub proof fn lemma_sort_by_date_sorted(s: Seq<ParsedFileView>)
    ensures
        sorted_by_eff(sort_by_date_spec(s)),
    decreases s.len(),
{
    if s.len() > 0 {
        lemma_sort_by_date_sorted(s.drop_last());
        lemma_insert_sorted(sort_by_date_spec(s.drop_last()), s.last());
    }
}

proof fn lemma_insert_filter(s: Seq<ParsedFileView>, x: ParsedFileView, d: TimeView)
    ensures
        effective_date_view(x) == d ==> insert_by_date(s, x).filter(
            |p: ParsedFileView| effective_date_view(p) == d,
        ) =~= s.filter(|p: ParsedFileView| effective_date_view(p) == d).push(x),
        effective_date_view(x) != d ==> insert_by_date(s, x).filter(
            |p: ParsedFileView| effective_date_view(p) == d,
        ) =~= s.filter(|p: ParsedFileView| effective_date_view(p) == d),
    decreases s.len(),
{
    let pred = |p: ParsedFileView| effective_date_view(p) == d;
    reveal_with_fuel(Seq::filter, 3);
    if s.len() == 0 {
        assert(insert_by_date(s, x) =~= seq![x]);
        assert(seq![x].drop_last() =~= Seq::<ParsedFileView>::empty());
        assert(seq![x].filter(pred) =~= if pred(x) {
            Seq::<ParsedFileView>::empty().push(x)
        } else {
            Seq::<ParsedFileView>::empty()
        });
        assert(s.filter(pred) =~= Seq::<ParsedFileView>::empty());
    } else if eff_le(s.last(), x) {
        let r = s.push(x);
        assert(r.drop_last() =~= s);
        assert(r.last() == x);
    } else {
        let dl = s.drop_last();
        let y = s.last();
        lemma_insert_filter(dl, x, d);
        let t = insert_by_date(dl, x);
        let r = t.push(y);
        assert(insert_by_date(s, x) =~= r);
        assert(r.drop_last() =~= t);
        assert(r.last() == y);
        // s.filter unfolds over its last element y
        assert(s.filter(pred) =~= if pred(y) {
            dl.filter(pred).push(y)
        } else {
            dl.filter(pred)
        });
        assert(r.filter(pred) =~= if pred(y) {
            t.filter(pred).push(y)
        } else {
            t.filter(pred)
        });
        if effective_date_view(x) == d && pred(y) {
            // x and y would share the date, yet y does not sort before x
            assert(eff_le(y, x));
            assert(false);
        }
    }
}

/// Law: sorting by effective date is stable — for every date `d`, the
/// subsequence of pages whose effective date is `d` is exactly the same,
/// in the same order, before and after sorting.
pub proof fn lemma_sort_by_date_stable(s: Seq<ParsedFileView>, d: TimeView)
    ensures
        sort_by_date_spec(s).filter(|p: ParsedFileView| effective_date_view(p) == d) == s.filter(
            |p: ParsedFileView| effective_date_view(p) == d,
        ),
    decreases s.len(),
{
    let pred = |p: ParsedFileView| effective_date_view(p) == d;
    reveal(Seq::filter);
    if s.len() == 0 {
        assert(sort_by_date_spec(s) =~= Seq::<ParsedFileView>::empty());
        assert(Seq::<ParsedFileView>::empty().filter(pred) =~= Seq::<
            ParsedFileView,
        >::empty().filter(pred));
    } else {
        let dl = s.drop_last();
        let y = s.last();
        lemma_sort_by_date_stable(dl, d);
        lemma_insert_filter(sort_by_date_spec(dl), y, d);
        assert(s.filter(pred) =~= if pred(y) {
            dl.filter(pred).push(y)
        } else {
            dl.filter(pred)
        });
        if effective_date_view(y) == d {
            assert(sort_by_date_spec(s).filter(pred) =~= sort_by_date_spec(dl).filter(
                pred,
            ).push(y));
            assert(sort_by_date_spec(s).filter(pred) =~= s.filter(pred));
        } else {
            assert(sort_by_date_spec(s).filter(pred) =~= s.filter(pred));
        }
    }
}

} // verus!
