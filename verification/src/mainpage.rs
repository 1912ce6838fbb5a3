//! The index page: filtering markdown sources out of a directory listing,
//! ordering them by modification recency, and rendering one link per titled
//! entry.
use vstd::prelude::*;

verus! {

use vstd::string::StrSliceExecFns;
use vstd::string::StringExecFns;
use crate::html::escape;
use crate::html::escape_html;
use crate::html::header;
use crate::html::header_spec;
use crate::titles::extract_title;
use crate::titles::title_of;

broadcast use {vstd::multiset::group_multiset_axioms, vstd::seq_lib::group_to_multiset_ensures};

/// One candidate file of the content directory, as plain values: its name
/// within the directory, its modification time, and its text when it could
/// be read.
pub struct PostFile {
    /// File name within the content directory (no path separators).
    pub name: String,
    /// Modification time: whole seconds of the Unix epoch.
    pub modified_secs: i64,
    /// Modification time: the nanosecond part.
    pub modified_nanos: u32,
    /// Full text of the file, when it could be read.
    pub content: Option<String>,
}

impl PostFile {
    /// An equal copy of this entry.
    pub fn duplicate(&self) -> (r: PostFile)
        ensures
            r == *self,
    {
        let content = match &self.content {
            Some(c) => Some(c.clone()),
            None => None,
        };
        let r = PostFile {
            name: self.name.clone(),
            modified_secs: self.modified_secs,
            modified_nanos: self.modified_nanos,
            content,
        };
        proof {
            assert(r.content == self.content);
        }
        r
    }
}

/// A markdown source name: at least one character of stem, then the
/// extension `.md`.
pub open spec fn is_md_name(name: Seq<char>) -> bool {
    &&& name.len() >= 4
    &&& name[name.len() - 3] == '.'
    &&& name[name.len() - 2] == 'm'
    &&& name[name.len() - 1] == 'd'
}

/// The public route segment of a markdown source: its name with the `.md`
/// extension replaced by `.html`.
pub open spec fn slug_of(name: Seq<char>) -> Seq<char> {
    name.subrange(0, name.len() - 3) + ".html"@
}

/// Whether `name` is a markdown source name.
pub fn is_markdown_name(name: &str) -> (r: bool)
    ensures
        r == is_md_name(name@),
{
    let len = name.unicode_len();
    len >= 4 && name.get_char(len - 3) == '.' && name.get_char(len - 2) == 'm' && name.get_char(
        len - 1,
    ) == 'd'
}

/// The route segment for a markdown source name.
pub fn slug_for(name: &str) -> (r: String)
    requires
        is_md_name(name@),
    ensures
        r@ == slug_of(name@),
{
    let len = name.unicode_len();
    let stem = name.substring_char(0, len - 3);
    let mut out = String::from_str(stem);
    out.append(".html");
    proof {
        assert(out@ =~= slug_of(name@));
    }
    out
}

/// Lexicographic order on texts, by Unicode code point.
pub open spec fn lex_le(a: Seq<char>, b: Seq<char>) -> bool
    decreases a.len(),
{
    if a.len() == 0 {
        true
    } else if b.len() == 0 {
        false
    } else if a[0] != b[0] {
        (a[0] as int) < (b[0] as int)
    } else {
        lex_le(a.drop_first(), b.drop_first())
    }
}

/// The lexicographic order is total.
pub proof fn lemma_lex_le_total(a: Seq<char>, b: Seq<char>)
    ensures
        lex_le(a, b) || lex_le(b, a),
    decreases a.len(),
{
    if a.len() == 0 || b.len() == 0 {
    } else if a[0] != b[0] {
        assert((a[0] as int) != (b[0] as int));
    } else {
        lemma_lex_le_total(a.drop_first(), b.drop_first());
    }
}

/// The lexicographic order is transitive.
pub proof fn lemma_lex_le_trans(a: Seq<char>, b: Seq<char>, c: Seq<char>)
    requires
        lex_le(a, b),
        lex_le(b, c),
    ensures
        lex_le(a, c),
    decreases a.len(),
{
    if a.len() == 0 {
    } else {
        assert(b.len() > 0);
        assert(c.len() > 0);
        if a[0] == b[0] && b[0] == c[0] {
            lemma_lex_le_trans(a.drop_first(), b.drop_first(), c.drop_first());
        } else if a[0] == b[0] {
            assert((b[0] as int) < (c[0] as int));
        } else if b[0] == c[0] {
            assert((a[0] as int) < (b[0] as int));
        } else {
            assert((a[0] as int) < (c[0] as int));
            assert(a[0] != c[0]);
        }
    }
}

/// If two texts agree on their first `i` characters, their order is decided
/// by the rest.
pub proof fn lemma_lex_le_skip(a: Seq<char>, b: Seq<char>, i: int)
    requires
        0 <= i <= a.len(),
        i <= b.len(),
        forall|k: int| 0 <= k < i ==> a[k] == b[k],
    ensures
        lex_le(a, b) == lex_le(a.skip(i), b.skip(i)),
    decreases i,
{
    if i == 0 {
        assert(a.skip(0) =~= a);
        assert(b.skip(0) =~= b);
    } else {
        assert(a.len() > 0);
        assert(b.len() > 0);
        assert(a[0] == b[0]);
        let ad = a.drop_first();
        let bd = b.drop_first();
        assert forall|k: int| 0 <= k < i - 1 implies ad[k] == bd[k] by {
            assert(ad[k] == a[k + 1]);
            assert(bd[k] == b[k + 1]);
        }
        lemma_lex_le_skip(ad, bd, i - 1);
        assert(ad.skip(i - 1) =~= a.skip(i));
        assert(bd.skip(i - 1) =~= b.skip(i));
    }
}

/// Lexicographic comparison of two texts.
pub fn lex_le_exec(a: &str, b: &str) -> (r: bool)
    ensures
        r == lex_le(a@, b@),
{
    let alen = a.unicode_len();
    let blen = b.unicode_len();
    let mut i: usize = 0;
    while i < alen && i < blen && a.get_char(i) == b.get_char(i)
        invariant
            i <= alen,
            i <= blen,
            alen == a@.len(),
            blen == b@.len(),
            forall|k: int| 0 <= k < i ==> a@[k] == b@[k],
        decreases alen - i,
    {
        i = i + 1;
    }
    proof {
        lemma_lex_le_skip(a@, b@, i as int);
    }
    if i == alen {
        proof {
            assert(a@.skip(i as int) =~= Seq::<char>::empty());
        }
        true
    } else if i == blen {
        proof {
            assert(b@.skip(i as int) =~= Seq::<char>::empty());
            assert(a@.skip(i as int).len() > 0);
        }
        false
    } else {
        let ca = a.get_char(i) as u32;
        let cb = b.get_char(i) as u32;
        proof {
            let askip = a@.skip(i as int);
            let bskip = b@.skip(i as int);
            assert(askip[0] == a@[i as int]);
            assert(bskip[0] == b@[i as int]);
            assert(askip[0] != bskip[0]);
        }
        ca < cb
    }
}

/// Freshness order on post files: the more recently modified entry comes
/// first; entries of equal modification time are ordered by file name
/// ascending, the documented deterministic tie-break.
pub open spec fn entry_le(a: PostFile, b: PostFile) -> bool {
    if a.modified_secs != b.modified_secs {
        a.modified_secs > b.modified_secs
    } else if a.modified_nanos != b.modified_nanos {
        a.modified_nanos > b.modified_nanos
    } else {
        lex_le(a.name@, b.name@)
    }
}

/// The freshness order is total.
pub proof fn lemma_entry_le_total(a: PostFile, b: PostFile)
    ensures
        entry_le(a, b) || entry_le(b, a),
{
    lemma_lex_le_total(a.name@, b.name@);
}

/// The freshness order is transitive.
pub proof fn lemma_entry_le_trans(a: PostFile, b: PostFile, c: PostFile)
    requires
        entry_le(a, b),
        entry_le(b, c),
    ensures
        entry_le(a, c),
{
    if a.modified_secs == b.modified_secs && b.modified_secs == c.modified_secs
        && a.modified_nanos == b.modified_nanos && b.modified_nanos == c.modified_nanos {
        lemma_lex_le_trans(a.name@, b.name@, c.name@);
    }
}

/// Freshness comparison of two entries.
pub fn entry_le_exec(a: &PostFile, b: &PostFile) -> (r: bool)
    ensures
        r == entry_le(*a, *b),
{
    if a.modified_secs != b.modified_secs {
        a.modified_secs > b.modified_secs
    } else if a.modified_nanos != b.modified_nanos {
        a.modified_nanos > b.modified_nanos
    } else {
        lex_le_exec(entry_name(a), entry_name(b))
    }
}

/// The name of an entry as a borrowed string.
fn entry_name(f: &PostFile) -> (r: &str)
    ensures
        r@ == f.name@,
{
    f.name.as_str()
}

/// The markdown sources among a directory listing, in listing order: the
/// entries whose name carries the source extension, every other entry
/// (the optional stylesheet among them) excluded.
pub open spec fn md_filter(s: Seq<PostFile>) -> Seq<PostFile>
    decreases s.len(),
{
    if s.len() == 0 {
        Seq::empty()
    } else if is_md_name(s[0].name@) {
        seq![s[0]] + md_filter(s.drop_first())
    } else {
        md_filter(s.drop_first())
    }
}

/// Filtering distributes over concatenation.
pub proof fn lemma_md_filter_concat(a: Seq<PostFile>, b: Seq<PostFile>)
    ensures
        md_filter(a + b) == md_filter(a) + md_filter(b),
    decreases a.len(),
{
    if a.len() == 0 {
        assert(a + b =~= b);
        assert(md_filter(a) + md_filter(b) =~= md_filter(b));
    } else {
        assert((a + b).drop_first() =~= a.drop_first() + b);
        lemma_md_filter_concat(a.drop_first(), b);
        assert((a + b)[0] == a[0]);
        if is_md_name(a[0].name@) {
            assert(seq![a[0]] + (md_filter(a.drop_first()) + md_filter(b)) =~= (seq![a[0]]
                + md_filter(a.drop_first())) + md_filter(b));
        }
    }
}

/// Keeps the markdown sources of a directory listing, in listing order.
pub fn filter_markdown(files: &Vec<PostFile>) -> (r: Vec<PostFile>)
    ensures
        r@ == md_filter(files@),
{
    let mut out: Vec<PostFile> = Vec::new();
    let mut i: usize = 0;
    while i < files.len()
        invariant
            i <= files@.len(),
            out@ == md_filter(files@.subrange(0, i as int)),
        decreases files@.len() - i,
    {
        let f = &files[i];
        if is_markdown_name(f.name.as_str()) {
            out.push(f.duplicate());
        }
        proof {
            let x = files@[i as int];
            let pre = files@.subrange(0, i as int);
            let single = seq![x];
            assert(files@.subrange(0, i as int + 1) =~= pre + single);
            lemma_md_filter_concat(pre, single);
            assert(single.drop_first() =~= Seq::<PostFile>::empty());
            assert(md_filter(Seq::<PostFile>::empty()) == Seq::<PostFile>::empty());
            if is_md_name(x.name@) {
                assert(md_filter(single) == seq![single[0]] + md_filter(single.drop_first()));
                assert(md_filter(single) =~= single);
            } else {
                assert(md_filter(single) == md_filter(single.drop_first()));
                assert(md_filter(pre) + md_filter(single) =~= md_filter(pre));
            }
        }
        i = i + 1;
    }
    proof {
        assert(files@.subrange(0, files@.len() as int) =~= files@);
    }
    out
}

/// A sequence of entries stands in freshness order.
pub open spec fn sorted_by_freshness(s: Seq<PostFile>) -> bool {
    forall|i: int, j: int| 0 <= i < j < s.len() ==> entry_le(s[i], s[j])
}

/// Index of a freshest entry of the vector: a minimum of the freshness
/// order.
fn min_index(v: &Vec<PostFile>) -> (m: usize)
    requires
        v@.len() > 0,
    ensures
        m < v@.len(),
        forall|j: int| 0 <= j < v@.len() ==> entry_le(v@[m as int], v@[j]),
{
    let mut m: usize = 0;
    let mut k: usize = 1;
    proof {
        lemma_entry_le_total(v@[0], v@[0]);
    }
    while k < v.len()
        invariant
            m < k,
            k <= v@.len(),
            forall|j: int| 0 <= j < k ==> entry_le(v@[m as int], v@[j]),
        decreases v@.len() - k,
    {
        if !entry_le_exec(&v[m], &v[k]) {
            proof {
                lemma_entry_le_total(v@[m as int], v@[k as int]);
                lemma_entry_le_total(v@[k as int], v@[k as int]);
                assert forall|j: int| 0 <= j < k + 1 implies entry_le(v@[k as int], v@[j]) by {
                    if j < k {
                        lemma_entry_le_trans(v@[k as int], v@[m as int], v@[j]);
                    }
                }
            }
            m = k;
        }
        k = k + 1;
    }
    m
}

/// Sorts a directory listing into freshness order, keeping exactly the
/// same entries.
pub fn sort_by_freshness(v: &mut Vec<PostFile>)
    ensures
        sorted_by_freshness(final(v)@),
        final(v)@.to_multiset() == old(v)@.to_multiset(),
{
    let ghost orig = v@;
    let mut out: Vec<PostFile> = Vec::new();
    proof {
        let e = Seq::<PostFile>::empty();
        e.to_multiset_ensures();
        assert(forall|x: PostFile| e.to_multiset().count(x) == 0);
        assert(e.to_multiset().add(orig.to_multiset()) =~= orig.to_multiset());
    }
    while v.len() > 0
        invariant
            out@.to_multiset().add(v@.to_multiset()) == orig.to_multiset(),
            sorted_by_freshness(out@),
            forall|i: int, j: int|
                0 <= i < out@.len() && 0 <= j < v@.len() ==> entry_le(out@[i], v@[j]),
        decreases v@.len(),
    {
        let ghost vv = v@;
        let ghost oo = out@;
        let m = min_index(v);
        let f = v.remove(m);
        out.push(f);
        proof {
            vv.to_multiset_ensures();
            oo.to_multiset_ensures();
            assert(v@ == vv.remove(m as int));
            assert(out@ == oo.push(f));
            assert(f == vv[m as int]);
            assert(0 <= m < vv.len() && vv[m as int] == f);
            assert(vv.contains(f));
            assert(v@.to_multiset() =~= vv.to_multiset().remove(f));
            assert(out@.to_multiset() =~= oo.to_multiset().insert(f));
            assert(out@.to_multiset().add(v@.to_multiset()) =~= oo.to_multiset().add(
                vv.to_multiset(),
            ));
            assert forall|i: int, j: int|
                0 <= i < out@.len() && 0 <= j < v@.len() implies entry_le(out@[i], v@[j]) by {
                let jj = if j < m as int {
                    j
                } else {
                    j + 1
                };
                assert(v@[j] == vv[jj]);
                if i < oo.len() {
                    assert(entry_le(oo[i], vv[jj]));
                } else {
                    assert(out@[i] == f);
                    assert(entry_le(vv[m as int], vv[jj]));
                }
            }
            assert forall|i: int, j: int|
                0 <= i < j < out@.len() implies entry_le(out@[i], out@[j]) by {
                if j < oo.len() {
                    assert(entry_le(oo[i], oo[j]));
                } else {
                    assert(out@[j] == f);
                    assert(entry_le(oo[i], vv[m as int]));
                }
            }
        }
    }
    proof {
        v@.to_multiset_ensures();
        assert(forall|x: PostFile| !v@.contains(x));
        assert(forall|x: PostFile| v@.to_multiset().count(x) == 0);
        assert(out@.to_multiset().add(v@.to_multiset()) =~= out@.to_multiset());
    }
    *v = out;
}

/// Whether an entry will appear on the index: its text could be read and
/// yielded a title.
pub open spec fn titled(f: PostFile) -> bool {
    match f.content {
        Some(c) => title_of(c@) is Some,
        None => false,
    }
}

/// One list item of the index: a link to the entry's page whose visible
/// text is its title.
pub open spec fn li_spec(slug: Seq<char>, title: Seq<char>) -> Seq<char> {
    "<li><a href=\""@ + escape(slug) + "\">"@ + escape(title) + "</a></li>"@
}

/// What one entry contributes to the index list: its list item when it is
/// titled, nothing otherwise (the silent-drop policy for unreadable or
/// empty files).
pub open spec fn entry_markup(f: PostFile) -> Seq<char> {
    match f.content {
        Some(c) => match title_of(c@) {
            Some(t) => li_spec(slug_of(f.name@), t),
            None => Seq::empty(),
        },
        None => Seq::empty(),
    }
}

/// The concatenated list items of an ordered sequence of entries.
pub open spec fn index_items(s: Seq<PostFile>) -> Seq<char>
    decreases s.len(),
{
    if s.len() == 0 {
        Seq::empty()
    } else {
        entry_markup(s[0]) + index_items(s.drop_first())
    }
}

/// The index list distributes over concatenation.
pub proof fn lemma_index_items_concat(a: Seq<PostFile>, b: Seq<PostFile>)
    ensures
        index_items(a + b) == index_items(a) + index_items(b),
    decreases a.len(),
{
    if a.len() == 0 {
        assert(a + b =~= b);
        assert(index_items(a) + index_items(b) =~= index_items(b));
    } else {
        assert((a + b).drop_first() =~= a.drop_first() + b);
        lemma_index_items_concat(a.drop_first(), b);
        assert((a + b)[0] == a[0]);
        assert(entry_markup(a[0]) + (index_items(a.drop_first()) + index_items(b)) =~= (
        entry_markup(a[0]) + index_items(a.drop_first())) + index_items(b));
    }
}

/// The whole index page for an ordered sequence of entries.
pub open spec fn index_page_spec(s: Seq<PostFile>) -> Seq<char> {
    header_spec("blog"@) + "<ul>"@ + index_items(s) + "</ul>"@
}

/// One list item, rendered.
fn li_markup(slug: &str, title: &str) -> (r: String)
    ensures
        r@ == li_spec(slug@, title@),
{
    let mut out = String::from_str("<li><a href=\"");
    let s = escape_html(slug);
    out.append(s.as_str());
    out.append("\">");
    let t = escape_html(title);
    out.append(t.as_str());
    out.append("</a></li>");
    proof {
        assert(out@ =~= li_spec(slug@, title@));
    }
    out
}

/// Formats one entry of the index: its list item when a title can be
/// extracted, nothing otherwise. Entries come from the directory scan, so
/// their names carry the source extension.
pub fn mainpage_entry(f: &PostFile) -> (r: Option<String>)
    requires
        is_md_name(f.name@),
    ensures
        r is Some <==> titled(*f),
        r matches Some(m) ==> m@ == entry_markup(*f),
{
    match &f.content {
        None => None,
        Some(c) => {
            match extract_title(c.as_str()) {
                None => None,
                Some(t) => {
                    let slug = slug_for(entry_name(f));
                    Some(li_markup(slug.as_str(), t.as_str()))
                },
            }
        },
    }
}

/// Renders the index page from an ordered listing of markdown sources.
pub fn render_index(files: &Vec<PostFile>) -> (r: String)
    requires
        forall|k: int| 0 <= k < files@.len() ==> is_md_name(files@[k].name@),
    ensures
        r@ == index_page_spec(files@),
{
    let mut out = header("blog");
    out.append("<ul>");
    proof {
        assert(files@.subrange(0, 0) =~= Seq::<PostFile>::empty());
        assert(index_items(Seq::<PostFile>::empty()) == Seq::<char>::empty());
        assert(out@ =~= header_spec("blog"@) + "<ul>"@ + index_items(files@.subrange(0, 0)));
    }
    let mut i: usize = 0;
    while i < files.len()
        invariant
            i <= files@.len(),
            forall|k: int| 0 <= k < files@.len() ==> is_md_name(files@[k].name@),
            out@ == header_spec("blog"@) + "<ul>"@ + index_items(files@.subrange(0, i as int)),
        decreases files@.len() - i,
    {
        let f = &files[i];
        match mainpage_entry(f) {
            Some(m) => out.append(m.as_str()),
            None => (),
        }
        proof {
            let x = files@[i as int];
            let pre = files@.subrange(0, i as int);
            let single = seq![x];
            assert(files@.subrange(0, i as int + 1) =~= pre + single);
            lemma_index_items_concat(pre, single);
            assert(single.drop_first() =~= Seq::<PostFile>::empty());
            assert(index_items(Seq::<PostFile>::empty()) == Seq::<char>::empty());
            assert(index_items(single) == entry_markup(x) + index_items(single.drop_first()));
            assert(index_items(single) =~= entry_markup(x));
            if !titled(x) {
                assert(entry_markup(x) =~= Seq::<char>::empty());
            }
            assert(out@ =~= header_spec("blog"@) + "<ul>"@ + index_items(
                files@.subrange(0, i as int + 1),
            ));
        }
        i = i + 1;
    }
    out.append("</ul>");
    proof {
        assert(files@.subrange(0, files@.len() as int) =~= files@);
        assert(out@ =~= index_page_spec(files@));
    }
    out
}

/// Every entry that the filter keeps carries the source extension.
pub proof fn lemma_md_filter_all(s: Seq<PostFile>)
    ensures
        forall|k: int| 0 <= k < md_filter(s).len() ==> is_md_name(#[trigger] md_filter(s)[k].name@),
    decreases s.len(),
{
    if s.len() == 0 {
    } else {
        lemma_md_filter_all(s.drop_first());
        if is_md_name(s[0].name@) {
            assert forall|k: int|
                0 <= k < md_filter(s).len() implies is_md_name(
                #[trigger] md_filter(s)[k].name@,
            ) by {
                if k == 0 {
                    assert(md_filter(s)[0] == s[0]);
                } else {
                    assert(md_filter(s)[k] == md_filter(s.drop_first())[k - 1]);
                }
            }
        }
    }
}

/// Serves the index: keeps the markdown sources of the directory listing,
/// orders them by freshness, and renders one link per titled entry. The
/// body is the index page of a freshness-sorted arrangement of exactly the
/// filtered entries.
pub fn main_page(files: &Vec<PostFile>) -> (r: (u16, String))
    ensures
        r.0 == 200,
        exists|s: Seq<PostFile>|
            sorted_by_freshness(s) && s.to_multiset() == md_filter(files@).to_multiset() && r.1@
                == index_page_spec(s),
{
    let mut mds = filter_markdown(files);
    let ghost mds0 = mds@;
    sort_by_freshness(&mut mds);
    proof {
        lemma_md_filter_all(files@);
        mds@.to_multiset_ensures();
        mds0.to_multiset_ensures();
        assert forall|k: int| 0 <= k < mds@.len() implies is_md_name(mds@[k].name@) by {
            assert(mds@[k] == mds@[k] && 0 <= k < mds@.len());
            assert(mds@.contains(mds@[k]));
            assert(mds@.to_multiset().count(mds@[k]) > 0);
            assert(mds0.to_multiset().count(mds@[k]) > 0);
            assert(mds0.contains(mds@[k]));
            let j = choose|j: int| 0 <= j < mds0.len() && mds0[j] == mds@[k];
            assert(is_md_name(mds0[j].name@));
        }
    }
    let body = render_index(&mds);
    proof {
        assert(sorted_by_freshness(mds@) && mds@.to_multiset() == md_filter(files@).to_multiset()
            && body@ == index_page_spec(mds@));
    }
    (200, body)
}

/// Two entries carry the same modification time.
pub open spec fn same_mtime(a: PostFile, b: PostFile) -> bool {
    a.modified_secs == b.modified_secs && a.modified_nanos == b.modified_nanos
}

/// `a` was modified strictly later than `b`.
pub open spec fn fresher(a: PostFile, b: PostFile) -> bool {
    ||| a.modified_secs > b.modified_secs
    ||| (a.modified_secs == b.modified_secs && a.modified_nanos > b.modified_nanos)
}

/// When all modification times are pairwise distinct, a freshness-sorted
/// listing stands in strictly decreasing modification-time order: every
/// entry was modified strictly later than each entry after it.
pub proof fn lemma_sorted_strictly_decreasing(s: Seq<PostFile>)
    requires
        sorted_by_freshness(s),
        forall|i: int, j: int| 0 <= i < j < s.len() ==> !same_mtime(s[i], s[j]),
    ensures
        forall|i: int, j: int| 0 <= i < j < s.len() ==> fresher(s[i], s[j]),
{
    assert forall|i: int, j: int| 0 <= i < j < s.len() implies fresher(s[i], s[j]) by {
        assert(entry_le(s[i], s[j]));
        assert(!same_mtime(s[i], s[j]));
    }
}

/// Each entry of an ordered listing contributes its markup exactly at its
/// own position: the index list splits around it. A titled entry's markup
/// is its list item; an untitled one contributes nothing.
pub proof fn lemma_index_items_at(s: Seq<PostFile>, i: int)
    requires
        0 <= i < s.len(),
    ensures
        index_items(s) == index_items(s.subrange(0, i)) + entry_markup(s[i]) + index_items(
            s.subrange(i + 1, s.len() as int),
        ),
{
    let a = s.subrange(0, i);
    let mid = seq![s[i]];
    let b = s.subrange(i + 1, s.len() as int);
    assert(s =~= (a + mid) + b);
    lemma_index_items_concat(a + mid, b);
    lemma_index_items_concat(a, mid);
    assert(mid.drop_first() =~= Seq::<PostFile>::empty());
    assert(index_items(Seq::<PostFile>::empty()) == Seq::<char>::empty());
    assert(index_items(mid) == entry_markup(s[i]) + index_items(mid.drop_first()));
    assert(index_items(mid) =~= entry_markup(s[i]));
    assert((index_items(a) + index_items(mid)) + index_items(b) =~= index_items(a) + entry_markup(
        s[i],
    ) + index_items(b));
}

/// An entry without a title is absent from the index output: the index
/// list reads as if the entry were not there.
pub proof fn lemma_untitled_entry_absent(s: Seq<PostFile>, i: int)
    requires
        0 <= i < s.len(),
        !titled(s[i]),
    ensures
        index_items(s) == index_items(s.subrange(0, i)) + index_items(
            s.subrange(i + 1, s.len() as int),
        ),
{
    lemma_index_items_at(s, i);
    assert(entry_markup(s[i]) =~= Seq::<char>::empty());
    assert(index_items(s.subrange(0, i)) + entry_markup(s[i]) + index_items(
        s.subrange(i + 1, s.len() as int),
    ) =~= index_items(s.subrange(0, i)) + index_items(s.subrange(i + 1, s.len() as int)));
}

/// When modification times are pairwise distinct, the freshness-sorted
/// arrangement of a listing is unique: together with the contract of
/// `main_page`, the index page for such a listing is fully determined, all
/// entries in strictly decreasing modification-time order.
pub proof fn lemma_sorted_arrangement_unique(s1: Seq<PostFile>, s2: Seq<PostFile>)
    requires
        sorted_by_freshness(s1),
        sorted_by_freshness(s2),
        s1.to_multiset() == s2.to_multiset(),
        forall|i: int, j: int| 0 <= i < j < s1.len() ==> !same_mtime(s1[i], s1[j]),
    ensures
        s1 == s2,
    decreases s1.len(),
{
    s1.to_multiset_ensures();
    s2.to_multiset_ensures();
    assert(s1.len() == s2.len());
    if s1.len() == 0 {
        assert(s1 =~= s2);
    } else {
        assert(s2.contains(s2[0]));
        assert(s1.to_multiset().count(s2[0]) > 0);
        assert(s1.contains(s2[0]));
        let i = choose|i: int| 0 <= i < s1.len() && s1[i] == s2[0];
        assert(s1.contains(s1[0]));
        assert(s2.to_multiset().count(s1[0]) > 0);
        assert(s2.contains(s1[0]));
        let j = choose|j: int| 0 <= j < s2.len() && s2[j] == s1[0];
        if i > 0 && j > 0 {
            assert(entry_le(s1[0], s1[i]));
            assert(entry_le(s2[0], s2[j]));
            assert(entry_le(s1[0], s2[0]) && entry_le(s2[0], s1[0]));
            assert(same_mtime(s1[0], s1[i]));
            assert(false);
        }
        assert(s1[0] == s2[0]);
        let d1 = s1.drop_first();
        let d2 = s2.drop_first();
        assert(d1 =~= s1.remove(0));
        assert(d2 =~= s2.remove(0));
        assert(d1.to_multiset() =~= s1.to_multiset().remove(s1[0]));
        assert(d2.to_multiset() =~= s2.to_multiset().remove(s2[0]));
        assert forall|p: int, q: int| 0 <= p < q < d1.len() implies entry_le(d1[p], d1[q])
            && !same_mtime(d1[p], d1[q]) by {
            assert(d1[p] == s1[p + 1]);
            assert(d1[q] == s1[q + 1]);
        }
        assert forall|p: int, q: int| 0 <= p < q < d2.len() implies entry_le(d2[p], d2[q]) by {
            assert(d2[p] == s2[p + 1]);
            assert(d2[q] == s2[q + 1]);
        }
        lemma_sorted_arrangement_unique(d1, d2);
        assert forall|k: int| 0 <= k < s1.len() implies s1[k] == s2[k] by {
            if k > 0 {
                assert(s1[k] == d1[k - 1]);
                assert(s2[k] == d2[k - 1]);
            }
        }
        assert(s1 =~= s2);
    }
}

/// The corrected outcome for a failed directory scan: a server-error
/// response for the one request, not a process abort.
pub fn scan_failure() -> (r: (u16, String))
    ensures
        r.0 == 500,
        r.1@ == "internal server error"@,
{
    let body = String::from_str("internal server error");
    (500, body)
}

} // verus!
