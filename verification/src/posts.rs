//! Post pages: resolving a requested path segment to a markdown source name,
//! converting the source text, and composing the response.
use vstd::prelude::*;

verus! {

use vstd::string::StrSliceExecFns;
use vstd::string::StringExecFns;
use crate::html::header;
use crate::html::header_spec;

/// A requested segment names a post page when it is a plain file name --
/// no path separator, so no parent-directory reference and no absolute
/// path -- whose extension is exactly `html`.
pub open spec fn is_page_segment(seg: Seq<char>) -> bool {
    &&& seg.len() >= 6
    &&& seg[seg.len() - 5] == '.'
    &&& seg[seg.len() - 4] == 'h'
    &&& seg[seg.len() - 3] == 't'
    &&& seg[seg.len() - 2] == 'm'
    &&& seg[seg.len() - 1] == 'l'
    &&& forall|k: int| 0 <= k < seg.len() ==> seg[k] != '/' && seg[k] != '\\'
}

/// The markdown source name for a valid page segment: the `.html`
/// extension replaced by `.md`.
pub open spec fn md_source_of(seg: Seq<char>) -> Seq<char> {
    seg.subrange(0, seg.len() - 5) + ".md"@
}

/// Maps a requested segment to the name of the markdown source it asks
/// for, or nothing when the segment does not name a post page.
pub fn resolve_segment(segment: &str) -> (r: Option<String>)
    ensures
        r is Some <==> is_page_segment(segment@),
        r matches Some(m) ==> m@ == md_source_of(segment@),
{
    let len = segment.unicode_len();
    if len < 6 {
        return None;
    }
    if !(segment.get_char(len - 5) == '.' && segment.get_char(len - 4) == 'h' && segment.get_char(
        len - 3,
    ) == 't' && segment.get_char(len - 2) == 'm' && segment.get_char(len - 1) == 'l') {
        return None;
    }
    let mut k: usize = 0;
    while k < len
        invariant
            k <= len,
            len == segment@.len(),
            forall|j: int| 0 <= j < k ==> segment@[j] != '/' && segment@[j] != '\\',
        decreases len - k,
    {
        let c = segment.get_char(k);
        if c == '/' || c == '\\' {
            return None;
        }
        k = k + 1;
    }
    let stem = segment.substring_char(0, len - 5);
    let mut out = String::from_str(stem);
    out.append(".md");
    proof {
        assert(out@ =~= md_source_of(segment@));
    }
    Some(out)
}

/// What the markdown conversion returns for given source text.
pub uninterp spec fn html_of(md: Seq<char>) -> Seq<char>;

/// Relies on markdown::to_html: a standard markdown-to-HTML conversion,
/// a deterministic function of the source text alone.
#[verifier::external_body]
fn markdown_to_html(md: &str) -> (r: String)
    ensures
        r@ == html_of(md@),
{
    markdown::to_html(md)
}

/// The fixed literal title of every post page's header.
pub open spec fn post_header_title() -> Seq<char> {
    "dog wit a blog"@
}

/// A post page: the fixed site header followed by a converted fragment,
/// inserted without further escaping.
pub open spec fn post_page_of(fragment: Seq<char>) -> Seq<char> {
    header_spec(post_header_title()) + fragment
}

/// Wraps an already-converted HTML fragment into the post page.
pub fn compose_post_page(fragment: &str) -> (r: String)
    ensures
        r@ == post_page_of(fragment@),
{
    let mut out = header("dog wit a blog");
    out.append(fragment);
    out
}

/// Renders the page for one post from the text of its markdown source.
pub fn render_post(content: &str) -> (r: String)
    ensures
        r@ == post_page_of(html_of(content@)),
{
    let fragment = markdown_to_html(content);
    compose_post_page(fragment.as_str())
}

/// The placeholder body served with every not-found outcome.
pub fn not_found_body() -> (r: String)
    ensures
        r@ == "Guh!"@,
{
    let r = String::from_str("Guh!");
    r
}

/// Handles a request for one post page. `source` carries the text of the
/// resolved markdown source, or nothing when the segment is invalid, the
/// source does not exist, or it cannot be read. The outcome is a status
/// code and a body: the rendered page on success, the placeholder on a
/// not-found outcome.
pub fn get_post(segment: &str, source: Option<&str>) -> (r: (u16, String))
    ensures
        !is_page_segment(segment@) ==> r.0 == 404 && r.1@ == "Guh!"@,
        is_page_segment(segment@) && source is None ==> r.0 == 404 && r.1@ == "Guh!"@,
        is_page_segment(segment@) ==> (source matches Some(c) ==> r.0 == 200 && r.1@
            == post_page_of(html_of(c@))),
{
    let resolved = resolve_segment(segment);
    if resolved.is_none() {
        return (404, not_found_body());
    }
    match source {
        None => (404, not_found_body()),
        Some(content) => (200, render_post(content)),
    }
}

} // verus!
