//! Page layout of the exported report: where each line goes, and where a new page begins.
use crate::text::{chars_of, string_of, texts};
use vstd::prelude::*;

verus! {

/// Page width, in millimetres.
pub const PAGE_WIDTH: u32 = 210;

/// Page height, in millimetres.
pub const PAGE_HEIGHT: u32 = 297;

/// The height of the first line of a page, in millimetres from the bottom.
pub const MARGIN_TOP: u32 = 277;

/// No line goes below this height, in millimetres from the bottom.
pub const MARGIN_BOTTOM: u32 = 20;

/// The left edge of titles and headings, in millimetres.
pub const START_X: u32 = 20;

/// The left edge of bullets and body text, in millimetres.
pub const INDENT_X: u32 = 25;

/// The distance between lines, in millimetres.
pub const LINE_HEIGHT: u32 = 14;

/// Font sizes, in points.
pub const TITLE_SIZE: u32 = 18;
pub const SECTION_SIZE: u32 = 14;
pub const BODY_SIZE: u32 = 11;

/// The widest body line, in columns.
pub const WRAP_WIDTH: usize = 80;

pub const TITLE: &'static str = "Lecture Summary";
pub const KEYWORDS_HEADING: &'static str = "Keywords:";
pub const SUMMARY_HEADING: &'static str = "Summary:";
pub const RESOURCES_HEADING: &'static str = "Resources:";
pub const BULLET: &'static str = "• ";

/// One step of the layout: a line of text to draw at the current height (none for a gap), then
/// how far down the next line goes.
pub struct Entry {
    pub text: Option<String>,
    pub x: u32,
    pub size: u32,
    pub bold: bool,
    pub advance: u32,
}

/// A line of text placed on a page.
pub struct Placed {
    pub page: usize,
    pub x: u32,
    pub y: u32,
    pub size: u32,
    pub bold: bool,
    pub text: String,
}

/// What an `Entry` holds.
pub struct EntryView {
    pub text: Option<Seq<char>>,
    pub x: int,
    pub size: int,
    pub bold: bool,
    pub advance: int,
}

/// What a `Placed` holds.
pub struct Mark {
    pub page: int,
    pub x: int,
    pub y: int,
    pub size: int,
    pub bold: bool,
    pub text: Seq<char>,
}

impl View for Entry {
    type V = EntryView;

    open spec fn view(&self) -> EntryView {
        EntryView {
            text: match self.text {
                Some(t) => Some(t@),
                None => None,
            },
            x: self.x as int,
            size: self.size as int,
            bold: self.bold,
            advance: self.advance as int,
        }
    }
}

impl View for Placed {
    type V = Mark;

    open spec fn view(&self) -> Mark {
        Mark {
            page: self.page as int,
            x: self.x as int,
            y: self.y as int,
            size: self.size as int,
            bold: self.bold,
            text: self.text@,
        }
    }
}

/// The views of a list of entries.
pub open spec fn entry_views(v: Seq<Entry>) -> Seq<EntryView> {
    v.map_values(|e: Entry| e@)
}

/// The views of a list of placed lines.
pub open spec fn marks_of(v: Seq<Placed>) -> Seq<Mark> {
    v.map_values(|p: Placed| p@)
}

/// The page and height after the entries: each moves down by its advance, and a line that would
/// fall below the bottom margin starts a new page at the top margin.
pub open spec fn position_after(es: Seq<EntryView>) -> (int, int)
    decreases es.len(),
{
    if es.len() == 0 {
        (0, MARGIN_TOP as int)
    } else {
        let (page, y) = position_after(es.drop_last());
        if y - es.last().advance < MARGIN_BOTTOM {
            (page + 1, MARGIN_TOP as int)
        } else {
            (page, y - es.last().advance)
        }
    }
}

/// The lines of the entries, each on the page and at the height where the entries before it end.
pub open spec fn placed_lines(es: Seq<EntryView>) -> Seq<Mark>
    decreases es.len(),
{
    if es.len() == 0 {
        Seq::empty()
    } else {
        let prev = placed_lines(es.drop_last());
        let (page, y) = position_after(es.drop_last());
        let e = es.last();
        match e.text {
            Some(t) => prev.push(Mark { page, x: e.x, y, size: e.size, bold: e.bold, text: t }),
            None => prev,
        }
    }
}

/// Places the entries on pages.
pub fn place_entries(es: &Vec<Entry>) -> (r: Vec<Placed>)
    ensures
        marks_of(r@) == placed_lines(entry_views(es@)),
{
    let ghost ev = entry_views(es@);
    let mut out: Vec<Placed> = Vec::new();
    let mut page: usize = 0;
    let mut y: u32 = MARGIN_TOP;
    let mut i: usize = 0;
    while i < es.len()
        invariant
            i <= es.len(),
            ev == entry_views(es@),
            page <= i,
            MARGIN_BOTTOM <= y <= MARGIN_TOP,
            (page as int, y as int) == position_after(ev.take(i as int)),
            marks_of(out@) == placed_lines(ev.take(i as int)),
        decreases es.len() - i,
    {
        assert(ev.take(i + 1).drop_last() =~= ev.take(i as int));
        assert(ev[i as int] == es@[i as int]@);
        let e = &es[i];
        match &e.text {
            Some(t) => {
                let ghost before = out@;
                out.push(Placed { page, x: e.x, y, size: e.size, bold: e.bold, text: t.clone() });
                assert(marks_of(out@) =~= marks_of(before).push(out@.last()@));
            },
            None => {},
        }
        if y < MARGIN_BOTTOM || y - MARGIN_BOTTOM < e.advance {
            page = page + 1;
            y = MARGIN_TOP;
        } else {
            y = y - e.advance;
        }
        i = i + 1;
    }
    assert(ev.take(i as int) =~= ev);
    out
}

/// What textwrap's `wrap` returns for a text and a width; it depends on them alone.
pub uninterp spec fn wrapped(text: Seq<char>, width: nat) -> Seq<Seq<char>>;

/// Relies on `textwrap::wrap`: the text broken into lines of at most `width` columns.
#[verifier::external_body]
fn wrap_lines(text: &str, width: usize) -> (r: Vec<String>)
    ensures
        texts(r@) == wrapped(text@, width as nat),
{
    textwrap::wrap(text, width).into_iter().map(|l| l.into_owned()).collect()
}

/// A line of text.
pub open spec fn line(text: Seq<char>, x: int, size: int, bold: bool, advance: int) -> EntryView {
    EntryView { text: Some(text), x, size, bold, advance }
}

/// A gap of `advance` millimetres.
pub open spec fn gap(advance: int) -> EntryView {
    EntryView { text: None, x: START_X as int, size: BODY_SIZE as int, bold: false, advance }
}

/// Body lines, one line height apart.
pub open spec fn body_lines(ls: Seq<Seq<char>>) -> Seq<EntryView> {
    ls.map_values(|l: Seq<char>| line(l, INDENT_X as int, BODY_SIZE as int, false, LINE_HEIGHT as int))
}

/// A section heading, one line height above what follows.
pub open spec fn heading(t: Seq<char>) -> EntryView {
    line(t, START_X as int, SECTION_SIZE as int, true, LINE_HEIGHT as int)
}

/// Each string behind a bullet.
pub open spec fn bullets_of(kws: Seq<Seq<char>>) -> Seq<Seq<char>> {
    kws.map_values(|k: Seq<char>| BULLET@ + k)
}

/// A keyword as a bullet; keywords are not wrapped.
pub open spec fn keyword_lines(kws: Seq<Seq<char>>) -> Seq<EntryView> {
    body_lines(bullets_of(kws))
}

/// Each resource as a bullet, wrapped.
pub open spec fn resource_lines(rs: Seq<Seq<char>>) -> Seq<EntryView>
    decreases rs.len(),
{
    if rs.len() == 0 {
        Seq::empty()
    } else {
        resource_lines(rs.drop_last()) + body_lines(wrapped(BULLET@ + rs.last(), WRAP_WIDTH as nat))
    }
}

/// The report: the title, the keywords as bullets, the summary wrapped, the resources as wrapped
/// bullets, each section under its heading and two line heights after the one before.
pub open spec fn report_entries(
    summary: Seq<char>,
    kws: Seq<Seq<char>>,
    rs: Seq<Seq<char>>,
) -> Seq<EntryView> {
    seq![
        line(TITLE@, START_X as int, TITLE_SIZE as int, true, 2 * LINE_HEIGHT),
        heading(KEYWORDS_HEADING@),
    ] + keyword_lines(kws) + seq![gap(2 * LINE_HEIGHT), heading(SUMMARY_HEADING@)] + body_lines(
        wrapped(summary, WRAP_WIDTH as nat),
    ) + seq![gap(2 * LINE_HEIGHT), heading(RESOURCES_HEADING@)] + resource_lines(rs)
}

/// The lines of the report, placed on pages.
pub open spec fn report_layout(summary: Seq<char>, kws: Seq<Seq<char>>, rs: Seq<Seq<char>>) -> Seq<
    Mark,
> {
    placed_lines(report_entries(summary, kws, rs))
}

fn push_line(es: &mut Vec<Entry>, text: String, x: u32, size: u32, bold: bool, advance: u32)
    ensures
        entry_views(final(es)@) == entry_views(old(es)@).push(
            line(text@, x as int, size as int, bold, advance as int),
        ),
{
    let ghost t = text@;
    es.push(Entry { text: Some(text), x, size, bold, advance });
    assert(entry_views(final(es)@) =~= entry_views(old(es)@).push(
        line(t, x as int, size as int, bold, advance as int),
    ));
}

fn push_gap(es: &mut Vec<Entry>, advance: u32)
    ensures
        entry_views(final(es)@) == entry_views(old(es)@).push(gap(advance as int)),
{
    es.push(Entry { text: None, x: START_X, size: BODY_SIZE, bold: false, advance });
    assert(entry_views(final(es)@) =~= entry_views(old(es)@).push(gap(advance as int)));
}

fn push_body(es: &mut Vec<Entry>, ls: &Vec<String>)
    ensures
        entry_views(final(es)@) == entry_views(old(es)@) + body_lines(texts(ls@)),
{
    let ghost start = entry_views(es@);
    let mut i: usize = 0;
    while i < ls.len()
        invariant
            i <= ls.len(),
            entry_views(es@) == start + body_lines(texts(ls@).take(i as int)),
        decreases ls.len() - i,
    {
        let ghost before = entry_views(es@);
        push_line(es, ls[i].clone(), INDENT_X, BODY_SIZE, false, LINE_HEIGHT);
        assert(body_lines(texts(ls@).take(i + 1)) =~= body_lines(texts(ls@).take(i as int)).push(
            line(ls@[i as int]@, INDENT_X as int, BODY_SIZE as int, false, LINE_HEIGHT as int),
        ));
        assert(entry_views(es@) =~= start + body_lines(texts(ls@).take(i + 1)));
        i = i + 1;
    }
    assert(texts(ls@).take(i as int) =~= texts(ls@));
}

fn bulleted(s: &String) -> (r: String)
    ensures
        r@ == BULLET@ + s@,
{
    let mut cs = chars_of(BULLET);
    let mut rest = chars_of(s.as_str());
    cs.append(&mut rest);
    string_of(&cs)
}

/// Lays out the report of a summary, its keywords and its resources.
pub fn layout_report(summary: &str, keywords: &Vec<String>, resources: &Vec<String>) -> (r: Vec<
    Placed,
>)
    ensures
        marks_of(r@) == report_layout(summary@, texts(keywords@), texts(resources@)),
{
    let mut es: Vec<Entry> = Vec::new();
    assert(entry_views(es@) =~= Seq::<EntryView>::empty());
    push_line(&mut es, string_of(&chars_of(TITLE)), START_X, TITLE_SIZE, true, 2 * LINE_HEIGHT);
    push_line(&mut es, string_of(&chars_of(KEYWORDS_HEADING)), START_X, SECTION_SIZE, true, LINE_HEIGHT);
    let mut bullets: Vec<String> = Vec::new();
    let mut i: usize = 0;
    while i < keywords.len()
        invariant
            i <= keywords.len(),
            bullets.len() == i,
            texts(bullets@) == bullets_of(texts(keywords@).take(i as int)),
        decreases keywords.len() - i,
    {
        let b = bulleted(&keywords[i]);
        let ghost before = bullets@;
        bullets.push(b);
        assert forall|q: int| 0 <= q < i implies #[trigger] texts(bullets@)[q] == bullets_of(
            texts(keywords@).take(i + 1),
        )[q] by {
            assert(texts(bullets@)[q] == texts(before)[q]);
        }
        assert(texts(bullets@)[i as int] == b@);
        assert(texts(bullets@) =~= bullets_of(texts(keywords@).take(i + 1)));
        i = i + 1;
    }
    assert(texts(keywords@).take(i as int) =~= texts(keywords@));
    push_body(&mut es, &bullets);
    push_gap(&mut es, 2 * LINE_HEIGHT);
    push_line(&mut es, string_of(&chars_of(SUMMARY_HEADING)), START_X, SECTION_SIZE, true, LINE_HEIGHT);
    let lines = wrap_lines(summary, WRAP_WIDTH);
    push_body(&mut es, &lines);
    push_gap(&mut es, 2 * LINE_HEIGHT);
    push_line(&mut es, string_of(&chars_of(RESOURCES_HEADING)), START_X, SECTION_SIZE, true, LINE_HEIGHT);
    let ghost before_resources = entry_views(es@);
    let mut j: usize = 0;
    while j < resources.len()
        invariant
            j <= resources.len(),
            entry_views(es@) == before_resources + resource_lines(texts(resources@).take(j as int)),
        decreases resources.len() - j,
    {
        let b = bulleted(&resources[j]);
        let ls = wrap_lines(b.as_str(), WRAP_WIDTH);
        push_body(&mut es, &ls);
        assert(texts(resources@).take(j + 1).drop_last() =~= texts(resources@).take(j as int));
        assert(before_resources + resource_lines(texts(resources@).take(j + 1)) =~= before_resources
            + resource_lines(texts(resources@).take(j as int)) + body_lines(texts(ls@)));
        j = j + 1;
    }
    assert(texts(resources@).take(j as int) =~= texts(resources@));
    assert(entry_views(es@) =~= report_entries(summary@, texts(keywords@), texts(resources@)));
    place_entries(&es)
}

} // verus!
