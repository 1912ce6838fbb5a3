//! Title extraction: the title of a post is the first line of its source
//! file, with the markdown heading marker stripped; an empty file has no
//! title.
use vstd::prelude::*;

verus! {

use vstd::string::StrSliceExecFns;
use vstd::string::StringExecFns;

/// Index of the first line feed in `s`, or `s.len()` when there is none.
pub open spec fn newline_index(s: Seq<char>) -> int
    decreases s.len(),
{
    if s.len() == 0 {
        0
    } else if s[0] == '\n' {
        0
    } else {
        1 + newline_index(s.drop_first())
    }
}

/// `newline_index` is the position of the first line feed.
pub proof fn lemma_newline_index_at(s: Seq<char>, n: int)
    requires
        0 <= n <= s.len(),
        forall|k: int| 0 <= k < n ==> s[k] != '\n',
        n < s.len() ==> s[n] == '\n',
    ensures
        newline_index(s) == n,
    decreases n,
{
    if n == 0 {
    } else {
        assert(s[0] != '\n');
        let d = s.drop_first();
        assert forall|k: int| 0 <= k < n - 1 implies d[k] != '\n' by {
            assert(d[k] == s[k + 1]);
        }
        assert(n - 1 < d.len() ==> d[n - 1] == s[n]);
        lemma_newline_index_at(d, n - 1);
    }
}

/// The first line of a text: everything before the first line feed, with a
/// carriage return dropped when it immediately precedes that line feed.
/// A text without a line feed is one line.
pub open spec fn first_line(s: Seq<char>) -> Seq<char> {
    let n = newline_index(s);
    let raw = s.subrange(0, n);
    if n < s.len() && raw.len() > 0 && raw[raw.len() - 1] == '\r' {
        raw.drop_last()
    } else {
        raw
    }
}

/// The title of a post given the full text of its source file: absent for
/// an empty file; otherwise the first line, with the heading marker `"# "`
/// stripped when the line begins with it, and unchanged otherwise.
pub open spec fn title_of(s: Seq<char>) -> Option<Seq<char>> {
    if s.len() == 0 {
        None
    } else {
        let line = first_line(s);
        if line.len() >= 2 && line[0] == '#' && line[1] == ' ' {
            Some(line.subrange(2, line.len() as int))
        } else {
            Some(line)
        }
    }
}

/// Extracts the title of a post from the text of its source file.
pub fn extract_title(content: &str) -> (r: Option<String>)
    ensures
        r is Some <==> title_of(content@) is Some,
        r matches Some(t) ==> title_of(content@) == Some(t@),
{
    let len = content.unicode_len();
    if len == 0 {
        return None;
    }
    let mut i: usize = 0;
    while i < len && content.get_char(i) != '\n'
        invariant
            i <= len,
            len == content@.len(),
            forall|k: int| 0 <= k < i ==> content@[k] != '\n',
        decreases len - i,
    {
        i = i + 1;
    }
    proof {
        lemma_newline_index_at(content@, i as int);
    }
    let mut end: usize = i;
    if i < len && end > 0 && content.get_char(end - 1) == '\r' {
        end = end - 1;
    }
    let line = content.substring_char(0, end);
    proof {
        let raw = content@.subrange(0, i as int);
        if i < len && i > 0 && content@[i as int - 1] == '\r' {
            assert(raw[raw.len() - 1] == '\r');
            assert(raw.drop_last() =~= content@.subrange(0, end as int));
        }
        assert(line@ == first_line(content@));
    }
    let line_len = line.unicode_len();
    if line_len >= 2 && line.get_char(0) == '#' && line.get_char(1) == ' ' {
        let stripped = line.substring_char(2, line_len);
        return Some(String::from_str(stripped));
    }
    Some(String::from_str(line))
}

/// Title extraction depends on the file text alone: extracting again from
/// an unchanged file yields the same title.
pub proof fn lemma_title_extraction_deterministic(a: Seq<char>, b: Seq<char>)
    requires
        a == b,
    ensures
        title_of(a) == title_of(b),
{
}

} // verus!
