//! Reference links for keywords: which keywords get a page, and which links of a page to keep.
use crate::rank::first_n;
use crate::sentences::trim;
use crate::text::{chars_of, string_of, texts};
use vstd::prelude::*;

verus! {

/// The address of an encyclopedia article, without the article's name.
pub const ARTICLE_BASE: &'static str = "https://en.wikipedia.org/wiki/";

/// The site that article links are relative to.
pub const SITE: &'static str = "https://en.wikipedia.org";

/// The path that every article link starts with.
pub const ARTICLE_PATH: &'static str = "/wiki/";

/// The selector of the links in an article's body.
pub const CONTENT_LINKS: &'static str = "#mw-content-text a[href]";

/// The longest keyword, in UTF-8 bytes, that is looked up.
pub const MAX_KEYWORD_BYTES: usize = 50;

/// How many of a page's selected links are considered.
pub const LINKS_PER_PAGE: usize = 5;

/// The number of bytes of `c` in UTF-8.
pub open spec fn utf8_width(c: char) -> int {
    let u = c as u32;
    if u < 0x80 {
        1
    } else if u < 0x800 {
        2
    } else if u < 0x10000 {
        3
    } else {
        4
    }
}

/// The number of bytes of `s` in UTF-8.
pub open spec fn utf8_len(s: Seq<char>) -> int
    decreases s.len(),
{
    if s.len() == 0 {
        0
    } else {
        utf8_len(s.drop_last()) + utf8_width(s.last())
    }
}

/// `s` with every space replaced by `_`.
pub open spec fn underscored(s: Seq<char>) -> Seq<char> {
    s.map_values(|c: char| if c == ' ' { '_' } else { c })
}

/// Whether a keyword is looked up: at most `MAX_KEYWORD_BYTES` bytes, without `/` or `?`, and
/// not blank.
pub open spec fn keyword_accepted(kw: Seq<char>) -> bool {
    &&& utf8_len(kw) <= MAX_KEYWORD_BYTES
    &&& !kw.contains('/')
    &&& !kw.contains('?')
    &&& trim(kw).len() > 0
}

/// Whether `href` is a link to another article: under `ARTICLE_PATH` and without a `:`.
pub open spec fn is_article_link(href: Seq<char>) -> bool {
    &&& ARTICLE_PATH@.len() <= href.len()
    &&& href.take(ARTICLE_PATH@.len() as int) == ARTICLE_PATH@
    &&& !href.contains(':')
}

/// Whether scraper's `Selector::parse` accepts a selector; it depends on the selector alone.
pub uninterp spec fn selector_parses(sel: Seq<char>) -> bool;

/// The `href` of each element of an HTML document that a selector matches, in document order, as
/// scraper finds them; it depends on the document and the selector alone.
pub uninterp spec fn selected_hrefs(html: Seq<char>, sel: Seq<char>) -> Seq<Option<Seq<char>>>;

/// The views of a sequence of optional strings.
pub open spec fn opt_texts(v: Seq<Option<String>>) -> Seq<Option<Seq<char>>> {
    v.map_values(|o: Option<String>| match o {
        Some(s) => Some(s@),
        None => None,
    })
}

/// The absolute addresses of the article links among `hrefs`, in order.
pub open spec fn article_links(hrefs: Seq<Option<Seq<char>>>) -> Seq<Seq<char>>
    decreases hrefs.len(),
{
    if hrefs.len() == 0 {
        Seq::empty()
    } else {
        let rest = article_links(hrefs.drop_last());
        match hrefs.last() {
            Some(h) => if is_article_link(h) {
                rest.push(SITE@ + h)
            } else {
                rest
            },
            None => rest,
        }
    }
}

/// The links kept from an article page: the article links among its first `LINKS_PER_PAGE`
/// content links; none when the selector is refused.
pub open spec fn page_links(html: Seq<char>) -> Seq<Seq<char>> {
    if selector_parses(CONTENT_LINKS@) {
        article_links(first_n(selected_hrefs(html, CONTENT_LINKS@), LINKS_PER_PAGE as int))
    } else {
        Seq::empty()
    }
}

/// Relies on scraper's `Selector::parse`, `Html::parse_document`, `Html::select` and
/// `Element::attr`: the `href` of every element that the selector matches, in document order;
/// `None` when the selector does not parse.
#[verifier::external_body]
fn select_hrefs(html: &str, sel: &str) -> (r: Option<Vec<Option<String>>>)
    ensures
        r is Some <==> selector_parses(sel@),
        r matches Some(v) ==> opt_texts(v@) == selected_hrefs(html@, sel@),
{
    match scraper::Selector::parse(sel) {
        Ok(selector) => {
            let doc = scraper::Html::parse_document(html);
            Some(doc.select(&selector).map(|e| e.value().attr("href").map(|h| h.to_string())).collect())
        },
        Err(_) => None,
    }
}

/// The number of bytes of `s` in UTF-8.
pub fn utf8_len_of(s: &Vec<char>) -> (r: usize)
    ensures
        r as int == utf8_len(s@) || (r == usize::MAX && utf8_len(s@) >= usize::MAX),
{
    let mut n: usize = 0;
    let mut i: usize = 0;
    while i < s.len()
        invariant
            i <= s.len(),
            n as int == utf8_len(s@.take(i as int)) || (n == usize::MAX && utf8_len(
                s@.take(i as int),
            ) >= usize::MAX),
        decreases s.len() - i,
    {
        assert(s@.take(i + 1).drop_last() =~= s@.take(i as int));
        let u = s[i] as u32;
        let w: usize = if u < 0x80 {
            1
        } else if u < 0x800 {
            2
        } else if u < 0x10000 {
            3
        } else {
            4
        };
        n = n.saturating_add(w);
        i = i + 1;
    }
    assert(s@.take(i as int) =~= s@);
    n
}

/// Whether `c` occurs in `s`.
fn has_char(s: &Vec<char>, c: char) -> (r: bool)
    ensures
        r == s@.contains(c),
{
    let mut i: usize = 0;
    while i < s.len()
        invariant
            i <= s.len(),
            forall|k: int| 0 <= k < i ==> s@[k] != c,
        decreases s.len() - i,
    {
        if s[i] == c {
            return true;
        }
        i = i + 1;
    }
    false
}

/// The article address for a keyword, with spaces as `_`; `None` when the keyword is not looked up.
pub fn resource_page(kw: &str) -> (r: Option<String>)
    ensures
        r is Some <==> keyword_accepted(kw@),
        r matches Some(u) ==> u@ == ARTICLE_BASE@ + underscored(kw@),
{
    let cs = chars_of(kw);
    if utf8_len_of(&cs) > MAX_KEYWORD_BYTES || has_char(&cs, '/') || has_char(&cs, '?') {
        return None;
    }
    let t = crate::sentences::trim_chars(&cs);
    if t.len() == 0 {
        return None;
    }
    let mut out = chars_of(ARTICLE_BASE);
    let ghost base = out@;
    let mut i: usize = 0;
    while i < cs.len()
        invariant
            i <= cs.len(),
            base == ARTICLE_BASE@,
            out@ == base + underscored(cs@).take(i as int),
        decreases cs.len() - i,
    {
        let c = if cs[i] == ' ' {
            '_'
        } else {
            cs[i]
        };
        out.push(c);
        assert(underscored(cs@).take(i + 1) =~= underscored(cs@).take(i as int).push(c));
        i = i + 1;
    }
    assert(underscored(cs@).take(i as int) =~= underscored(cs@));
    Some(string_of(&out))
}

/// The absolute address of an article link; `None` for any other link.
pub fn article_link(href: &str) -> (r: Option<String>)
    ensures
        r is Some <==> is_article_link(href@),
        r matches Some(u) ==> u@ == SITE@ + href@,
{
    let cs = chars_of(href);
    let path = chars_of(ARTICLE_PATH);
    if cs.len() < path.len() {
        return None;
    }
    let mut k: usize = 0;
    while k < path.len()
        invariant
            k <= path.len() <= cs.len(),
            cs@ == href@,
            path@ == ARTICLE_PATH@,
            forall|q: int| 0 <= q < k ==> cs@[q] == path@[q],
        decreases path.len() - k,
    {
        if cs[k] != path[k] {
            assert(cs@.take(path@.len() as int)[k as int] != path@[k as int]);
            assert(cs@.take(path@.len() as int) != path@);
            return None;
        }
        k = k + 1;
    }
    assert(cs@.take(path@.len() as int) =~= path@);
    if has_char(&cs, ':') {
        return None;
    }
    let mut out = chars_of(SITE);
    let mut rest = cs;
    out.append(&mut rest);
    Some(string_of(&out))
}

/// The links kept from the HTML of an article page.
pub fn content_links(html: &str) -> (r: Vec<String>)
    ensures
        texts(r@) == page_links(html@),
{
    let hrefs = match select_hrefs(html, CONTENT_LINKS) {
        Some(v) => v,
        None => {
            return Vec::new();
        },
    };
    let ghost hv = first_n(opt_texts(hrefs@), LINKS_PER_PAGE as int);
    let n: usize = if hrefs.len() < LINKS_PER_PAGE { hrefs.len() } else { LINKS_PER_PAGE };
    let mut out: Vec<String> = Vec::new();
    let mut i: usize = 0;
    while i < n
        invariant
            i <= n,
            n <= hrefs.len(),
            n == hv.len(),
            hv == first_n(opt_texts(hrefs@), LINKS_PER_PAGE as int),
            texts(out@) == article_links(hv.take(i as int)),
        decreases n - i,
    {
        assert(hv.take(i + 1).drop_last() =~= hv.take(i as int));
        assert(hv[i as int] == opt_texts(hrefs@)[i as int]);
        match &hrefs[i] {
            Some(h) => {
                let link = article_link(h.as_str());
                match link {
                    Some(l) => {
                        let ghost before = out@;
                        out.push(l);
                        assert(texts(out@) =~= texts(before).push(SITE@ + h@));
                    },
                    None => {},
                }
            },
            None => {},
        }
        i = i + 1;
    }
    assert(hv.take(i as int) =~= hv);
    out
}

} // verus!
