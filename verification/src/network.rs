//! What a page asks of the network: the style sheets that it links to, and
//! where they are. The fetching itself is left to the caller.

use vstd::prelude::*;
use crate::text::{
    chars_of, has_prefix, run_end, scan, slice_of, starts_with_at, string_of, CharClass,
};

verus! {

/// The error of the `url` crate, `url::ParseError`. The library hands it on
/// without looking into it.
#[verifier::external_type_specification]
#[verifier::external_body]
pub struct ExParseError(url::ParseError);

/// What `Url::join` gives for `relative` on the URL that `Url::parse` gives
/// for `base`, written out as a string; `None` where either fails.
pub uninterp spec fn url_join(base: Seq<char>, relative: Seq<char>) -> Option<Seq<char>>;

/// `Url::parse` on `base`, then `Url::join` with `relative` on the result,
/// then its serialization. The contract names the result and claims nothing
/// else of it.
#[verifier::external_body]
fn join_url(base: &str, relative: &str) -> (r: Result<String, url::ParseError>)
    ensures
        match r {
            Ok(s) => url_join(base@, relative@) == Some(s@),
            Err(_) => url_join(base@, relative@) is None,
        },
{
    let base_url = url::Url::parse(base)?;
    let resolved = base_url.join(relative)?;
    Ok(resolved.to_string())
}

/// Tells the variants of `url::ParseError` apart. A variant that this
/// library does not know is `Other`.
#[verifier::external_body]
fn error_kind(e: &url::ParseError) -> UrlError {
    match e {
        url::ParseError::EmptyHost => UrlError::EmptyHost,
        url::ParseError::IdnaError => UrlError::IdnaError,
        url::ParseError::InvalidPort => UrlError::InvalidPort,
        url::ParseError::InvalidIpv4Address => UrlError::InvalidIpv4Address,
        url::ParseError::InvalidIpv6Address => UrlError::InvalidIpv6Address,
        url::ParseError::InvalidDomainCharacter => UrlError::InvalidDomainCharacter,
        url::ParseError::RelativeUrlWithoutBase => UrlError::RelativeUrlWithoutBase,
        url::ParseError::RelativeUrlWithCannotBeABaseBase => UrlError::CannotBeABase,
        url::ParseError::SetHostOnCannotBeABaseUrl => UrlError::SetHostOnCannotBeABase,
        url::ParseError::Overflow => UrlError::Overflow,
        _ => UrlError::Other,
    }
}

/// Why a URL could not be resolved.
#[derive(Debug, Clone, Copy, PartialEq, Eq, Structural)]
pub enum UrlError {
    EmptyHost,
    IdnaError,
    InvalidPort,
    InvalidIpv4Address,
    InvalidIpv6Address,
    InvalidDomainCharacter,
    RelativeUrlWithoutBase,
    CannotBeABase,
    SetHostOnCannotBeABase,
    Overflow,
    Other,
}

/// Resolves a URL against a base URL.
pub fn resolve_url(base: &str, relative: &str) -> (r: Result<String, UrlError>)
    ensures
        match r {
            Ok(s) => url_join(base@, relative@) == Some(s@),
            Err(_) => url_join(base@, relative@) is None,
        },
{
    match join_url(base, relative) {
        Ok(s) => Ok(s),
        Err(e) => Err(error_kind(&e)),
    }
}

// ---------------------------------------------------------------------------
// Links

/// The first position from `from` on at which `pat` stands in `s`.
pub open spec fn find(s: Seq<char>, from: int, pat: Seq<char>) -> Option<int>
    decreases s.len() - from + 1,
{
    if from < 0 || from + pat.len() > s.len() {
        None
    } else if has_prefix(s, from, pat) {
        Some(from)
    } else {
        find(s, from + 1, pat)
    }
}

/// Whether `s` ends with `pat`.
pub open spec fn ends_with(s: Seq<char>, pat: Seq<char>) -> bool {
    pat.len() <= s.len() && s.subrange(s.len() - pat.len(), s.len() as int) == pat
}

/// Where the `href` attribute of a line starts, and the quote that it uses:
/// the first `href="`, or without one the first `href='`.
pub open spec fn href_of(line: Seq<char>) -> Option<(int, char)> {
    match find(line, 0, "href=\""@) {
        Some(i) => Some((i + "href=\""@.len(), '"')),
        None => match find(line, 0, "href='"@) {
            Some(i) => Some((i + "href='"@.len(), '\'')),
            None => None,
        },
    }
}

/// The style sheet that a line links to: the value of its `href`, where the
/// line holds `rel="stylesheet"` in either kind of quotes, the value is
/// closed by its quote, and it ends with `.css`.
pub open spec fn line_link(line: Seq<char>) -> Option<Seq<char>> {
    if find(line, 0, "rel=\"stylesheet\""@) is None && find(line, 0, "rel='stylesheet'"@) is None {
        None
    } else {
        match href_of(line) {
            None => None,
            Some((start, quote)) => {
                let end = run_end(line, start, CharClass::Until(quote));
                if end < line.len() && ends_with(line.subrange(start, end), ".css"@) {
                    Some(line.subrange(start, end))
                } else {
                    None
                }
            },
        }
    }
}

/// The style sheets that the lines of `html` from position `pos` on link to,
/// in order. Lines end at line feeds.
pub open spec fn css_links(html: Seq<char>, pos: int) -> Seq<Seq<char>>
    decreases html.len() - pos,
{
    if !(0 <= pos <= html.len()) {
        Seq::empty()
    } else {
        let end = run_end(html, pos, CharClass::Until('\n'));
        let here = match line_link(html.subrange(pos, end)) {
            Some(url) => seq![url],
            None => Seq::empty(),
        };
        if end < html.len() {
            here + css_links(html, end + 1)
        } else {
            here
        }
    }
}

fn find_in(v: &Vec<char>, pat: &Vec<char>) -> (r: Option<usize>)
    ensures
        match r {
            Some(i) => find(v@, 0, pat@) == Some(i as int) && i + pat.len() <= v.len(),
            None => find(v@, 0, pat@) is None,
        },
{
    if pat.len() > v.len() {
        return None;
    }
    let last = v.len() - pat.len();
    let mut i: usize = 0;
    loop
        invariant
            last == v.len() - pat.len(),
            i <= last,
            find(v@, i as int, pat@) == find(v@, 0, pat@),
        decreases last - i,
    {
        if starts_with_at(v, i, pat) {
            return Some(i);
        }
        if i == last {
            assert(find(v@, i + 1, pat@) is None);
            return None;
        }
        i = i + 1;
    }
}

fn line_link_of(line: &Vec<char>) -> (r: Option<String>)
    ensures
        match r {
            Some(url) => line_link(line@) == Some(url@),
            None => line_link(line@) is None,
        },
{
    let rel_double = chars_of("rel=\"stylesheet\"");
    let rel_single = chars_of("rel='stylesheet'");
    if find_in(line, &rel_double).is_none() && find_in(line, &rel_single).is_none() {
        return None;
    }
    let href_double = chars_of("href=\"");
    let href_single = chars_of("href='");
    let (start, quote) = match find_in(line, &href_double) {
        Some(i) => (i + href_double.len(), '"'),
        None => match find_in(line, &href_single) {
            Some(i) => (i + href_single.len(), '\''),
            None => {
                return None;
            },
        },
    };
    let end = scan(line, start, CharClass::Until(quote));
    if end >= line.len() {
        return None;
    }
    let suffix = chars_of(".css");
    let url_len = end - start;
    if suffix.len() <= url_len && starts_with_at(line, end - suffix.len(), &suffix) {
        assert(line@.subrange(start as int, end as int).subrange(
            url_len - suffix.len(),
            url_len as int,
        ) =~= line@.subrange(end - suffix.len(), end as int));
        Some(string_of(line, start, end))
    } else {
        if suffix.len() <= url_len {
            assert(line@.subrange(start as int, end as int).subrange(
                url_len - suffix.len(),
                url_len as int,
            ) =~= line@.subrange(end - suffix.len(), end as int));
        }
        None
    }
}

/// The style sheets that a page links to, in the order of its lines: of
/// each line that holds `rel="stylesheet"`, the value of `href` if it ends
/// with `.css`.
pub fn extract_css_links(html: &str) -> (links: Vec<String>)
    ensures
        links.deep_view() == css_links(html@, 0),
{
    let chars = chars_of(html);
    let mut links: Vec<String> = Vec::new();
    let mut pos: usize = 0;
    assert(links.deep_view() =~= Seq::<Seq<char>>::empty());
    assert(Seq::<Seq<char>>::empty() + css_links(chars@, 0) =~= css_links(chars@, 0));
    loop
        invariant
            pos <= chars.len(),
            chars@ == html@,
            links.deep_view() + css_links(chars@, pos as int) == css_links(chars@, 0),
        decreases chars.len() - pos,
    {
        let end = scan(&chars, pos, CharClass::Until('\n'));
        let line = slice_of(&chars, pos, end);
        let ghost before = links.deep_view();
        let ghost here = match line_link(line@) {
            Some(url) => seq![url],
            None => Seq::<Seq<char>>::empty(),
        };
        match line_link_of(&line) {
            Some(url) => {
                links.push(url);
            },
            None => {},
        }
        assert(links.deep_view() =~= before + here);
        if end >= chars.len() {
            return links;
        }
        assert(before + (here + css_links(chars@, end + 1)) =~= (before + here) + css_links(
            chars@,
            end + 1,
        ));
        pos = end + 1;
    }
}

// ---------------------------------------------------------------------------
// Style sheets of a page

/// Whether a link names its scheme: it starts with `http://` or `https://`.
pub open spec fn is_absolute(link: Seq<char>) -> bool {
    has_prefix(link, 0, "http://"@) || has_prefix(link, 0, "https://"@)
}

/// Where a link of a page points: the link itself if it is absolute, else
/// the link resolved against the URL of the page, if that can be done.
pub open spec fn link_target(page: Seq<char>, link: Seq<char>) -> Option<Seq<char>> {
    if is_absolute(link) {
        Some(link)
    } else {
        url_join(page, link)
    }
}

/// The targets of the first `n` links, without those that cannot be
/// resolved.
pub open spec fn link_targets(page: Seq<char>, links: Seq<Seq<char>>, n: int) -> Seq<Seq<char>>
    decreases n,
{
    if n <= 0 || n > links.len() {
        Seq::empty()
    } else {
        match link_target(page, links[n - 1]) {
            Some(url) => link_targets(page, links, n - 1).push(url),
            None => link_targets(page, links, n - 1),
        }
    }
}

/// Where a link of a page points.
pub fn stylesheet_url(page_url: &str, link: &str) -> (r: Option<String>)
    ensures
        match r {
            Some(url) => link_target(page_url@, link@) == Some(url@),
            None => link_target(page_url@, link@) is None,
        },
{
    let chars = chars_of(link);
    let http = chars_of("http://");
    let https = chars_of("https://");
    if starts_with_at(&chars, 0, &http) || starts_with_at(&chars, 0, &https) {
        Some(link.to_owned())
    } else {
        match resolve_url(page_url, link) {
            Ok(url) => Some(url),
            Err(_) => None,
        }
    }
}

/// The URLs of the style sheets that a page links to, in order. A link that
/// cannot be resolved against the URL of the page is left out.
pub fn stylesheet_urls(page_url: &str, html: &str) -> (urls: Vec<String>)
    ensures
        urls.deep_view() == link_targets(
            page_url@,
            css_links(html@, 0),
            css_links(html@, 0).len() as int,
        ),
{
    let links = extract_css_links(html);
    let ghost all = css_links(html@, 0);
    let mut urls: Vec<String> = Vec::new();
    let mut i: usize = 0;
    assert(urls.deep_view() =~= Seq::<Seq<char>>::empty());
    while i < links.len()
        invariant
            i <= links.len(),
            links.deep_view() == all,
            urls.deep_view() == link_targets(page_url@, all, i as int),
        decreases links.len() - i,
    {
        let ghost before = urls.deep_view();
        assert(all[i as int] == links@[i as int]@);
        match stylesheet_url(page_url, links[i].as_str()) {
            Some(url) => {
                urls.push(url);
                assert(urls.deep_view() =~= before.push(url@));
            },
            None => {},
        }
        i = i + 1;
    }
    urls
}

/// The style sheet that a page without style sheets gets.
pub open spec fn default_stylesheet() -> Seq<char> {
    "body { background: #ffffff; margin: 20px; }"@
}

/// The first `n` of the texts, each followed by a line feed.
pub open spec fn joined_lines(texts: Seq<Seq<char>>, n: int) -> Seq<char>
    decreases n,
{
    if n <= 0 || n > texts.len() {
        Seq::empty()
    } else {
        joined_lines(texts, n - 1) + texts[n - 1].push('\n')
    }
}

/// The one style sheet of a page: the style sheets that were fetched, each
/// followed by a line feed; where that is empty, the default style sheet.
pub fn combine_stylesheets(sheets: &Vec<String>) -> (css: String)
    ensures
        css@ == (if joined_lines(sheets.deep_view(), sheets.len() as int).len() == 0 {
            default_stylesheet()
        } else {
            joined_lines(sheets.deep_view(), sheets.len() as int)
        }),
{
    let mut css = String::new();
    let mut empty = true;
    let mut i: usize = 0;
    while i < sheets.len()
        invariant
            i <= sheets.len(),
            css@ == joined_lines(sheets.deep_view(), i as int),
            empty == (css@.len() == 0),
        decreases sheets.len() - i,
    {
        let ghost before = css@;
        assert(sheets.deep_view()[i as int] == sheets@[i as int]@);
        css.push_str(sheets[i].as_str());
        css.push('\n');
        assert(css@ =~= before + sheets@[i as int]@.push('\n'));
        empty = false;
        i = i + 1;
    }
    if empty {
        "body { background: #ffffff; margin: 20px; }".to_owned()
    } else {
        css
    }
}

} // verus!
