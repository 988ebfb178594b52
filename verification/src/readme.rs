//! Parser for the awesome-tuis README.
//!
//! The list is regular enough that a line scanner does: `<h2>` inside a
//! `<summary>` opens a category, `<h3>` opens a subcategory (only used under
//! *Libraries*), and `- [name](url) description` is an entry.

use vstd::prelude::*;
use vstd::string::StringSliceAdditionalSpecFns;
use vstd::utf8::encode_utf8;

use crate::release::{ascii_lower, lower_chars};
use crate::text::{chars_of, chars_prefix, find_char, find_chars, find_from, find_sub, is_emoji, lemma_find_from, lemma_find_sub, line_ranges, range_has_prefix, range_text, range_texts, ranges_in, replace_all, replace_chars, spec_is_emoji, spec_valid_url, string_from, sub_chars, text_lines, trim, trim_range, valid_url};

verus! {

#[derive(Clone, Debug, PartialEq, Eq)]
pub struct Listing {
    pub name: String,
    pub url: String,
    pub desc: String,
    pub category: String,
    pub subcategory: Option<String>,
}

/// A listing as plain values.
pub struct ListingModel {
    pub name: Seq<char>,
    pub url: Seq<char>,
    pub desc: Seq<char>,
    pub category: Seq<char>,
    pub subcategory: Option<Seq<char>>,
}

pub open spec fn listing_model(l: Listing) -> ListingModel {
    ListingModel {
        name: l.name@,
        url: l.url@,
        desc: l.desc@,
        category: l.category@,
        subcategory: match l.subcategory {
            Some(s) => Some(s@),
            None => None,
        },
    }
}

/// The text between the first `open` and the next `close` after it, trimmed.
pub open spec fn between(line: Seq<char>, open: Seq<char>, close: Seq<char>) -> Option<Seq<char>> {
    let a = find_sub(line, open, 0);
    if a < 0 {
        None
    } else {
        let start = a + open.len();
        let b = find_sub(line, close, start);
        if b < 0 {
            None
        } else {
            Some(trim(line.subrange(start, b)))
        }
    }
}

/// `&amp;`, `&lt;` and `&gt;` decoded, in that order.
pub open spec fn unescape(s: Seq<char>) -> Seq<char> {
    replace_all(
        replace_all(replace_all(s, "&amp;"@, "&"@), "&lt;"@, "<"@),
        "&gt;"@,
        ">"@,
    )
}

/// `s` without trailing `/`.
pub open spec fn trim_slashes(s: Seq<char>) -> Seq<char>
    decreases s.len(),
{
    if s.len() > 0 && s.last() == '/' {
        trim_slashes(s.drop_last())
    } else {
        s
    }
}

/// Dashes and colons that separate an entry's link from its description.
pub open spec fn is_lead(c: char) -> bool {
    c == '-' || c == ':' || c == '\u{2013}' || c == '\u{2014}'
}

/// `s` without leading separators.
pub open spec fn trim_leads(s: Seq<char>) -> Seq<char>
    decreases s.len(),
{
    if s.len() > 0 && is_lead(s[0]) {
        trim_leads(s.drop_first())
    } else {
        s
    }
}

/// `- [name](url) description` (or `* [...`): name, URL and raw description
/// of an entry line, when its URL is one the catalog takes.
pub open spec fn entry(line: Seq<char>) -> Option<(Seq<char>, Seq<char>, Seq<char>)> {
    if !(chars_prefix(line, seq!['-', ' ', '[']) || chars_prefix(line, seq!['*', ' ', '['])) {
        None
    } else {
        let rest = line.skip(3);
        let k = find_sub(rest, seq![']', '('], 0);
        if k < 0 {
            None
        } else {
            let name = rest.take(k);
            let tail = rest.skip(k + 2);
            let j = find_from(tail, ')', 0);
            if j >= tail.len() {
                None
            } else {
                let url = trim_slashes(trim(tail.take(j)));
                let desc = trim(trim_leads(trim(tail.skip(j + 1))));
                if name.len() == 0 || !spec_valid_url(encode_utf8(url)) {
                    None
                } else {
                    Some((trim(name), url, desc))
                }
            }
        }
    }
}

/// Inline links replaced by their label, scanning from the front.
pub open spec fn unlink(s: Seq<char>) -> Seq<char>
    decreases s.len(),
{
    let o = find_from(s, '[', 0);
    if o >= s.len() || o < 0 {
        s
    } else {
        let after = s.skip(o + 1);
        let k = find_sub(after, seq![']', '('], 0);
        if k >= 0 && k + 2 <= after.len() {
            let label = after.take(k);
            let tail = after.skip(k + 2);
            let j = find_from(tail, ')', 0);
            if 0 <= j < tail.len() && !label.contains('[') {
                s.take(o) + label + unlink(tail.skip(j + 1))
            } else {
                s.take(o + 1) + unlink(after)
            }
        } else {
            s.take(o + 1) + unlink(after)
        }
    }
}

/// `s` without backticks, asterisks and emoji.
pub open spec fn drop_marks(s: Seq<char>) -> Seq<char>
    decreases s.len(),
{
    if s.len() == 0 {
        seq![]
    } else {
        let prev = drop_marks(s.drop_last());
        let c = s.last();
        if c == '`' || c == '*' || spec_is_emoji(c) {
            prev
        } else {
            prev.push(c)
        }
    }
}

/// Descriptions are drawn as plain text in a terminal: inline links become
/// their label and emphasis markers and emoji are dropped.
pub open spec fn spec_plain_text(md: Seq<char>) -> Seq<char> {
    unescape(trim(drop_marks(unlink(md))))
}

/// No character of `s` is a backtick, an asterisk or an emoji.
pub open spec fn unmarked(s: Seq<char>) -> bool {
    forall|i: int| 0 <= i < s.len() ==> #[trigger] s[i] != '`' && s[i] != '*' && !spec_is_emoji(s[i])
}

proof fn lemma_drop_marks_unmarked(s: Seq<char>)
    ensures
        unmarked(drop_marks(s)),
    decreases s.len(),
{
    if s.len() > 0 {
        lemma_drop_marks_unmarked(s.drop_last());
    }
}

proof fn lemma_trim_unmarked(s: Seq<char>)
    requires
        unmarked(s),
    ensures
        unmarked(crate::text::trim_start(s)),
        unmarked(crate::text::trim_end(s)),
    decreases s.len(),
{
    if s.len() > 0 {
        assert(unmarked(s.drop_first())) by {
            assert forall|i: int| 0 <= i < s.len() - 1 implies #[trigger] s.drop_first()[i] != '`'
                && s.drop_first()[i] != '*' && !spec_is_emoji(s.drop_first()[i]) by {
                assert(s.drop_first()[i] == s[i + 1]);
            }
        }
        assert(unmarked(s.drop_last())) by {
            assert forall|i: int| 0 <= i < s.len() - 1 implies #[trigger] s.drop_last()[i] != '`'
                && s.drop_last()[i] != '*' && !spec_is_emoji(s.drop_last()[i]) by {
                assert(s.drop_last()[i] == s[i]);
            }
        }
        lemma_trim_unmarked(s.drop_first());
        lemma_trim_unmarked(s.drop_last());
    }
}

proof fn lemma_replace_unmarked(s: Seq<char>, p: Seq<char>, rep: Seq<char>)
    requires
        unmarked(s),
        unmarked(rep),
    ensures
        unmarked(crate::text::replace_all(s, p, rep)),
    decreases s.len(),
{
    if s.len() > 0 {
        if p.len() > 0 && crate::text::chars_prefix(s, p) {
            let t = s.skip(p.len() as int);
            assert(unmarked(t)) by {
                assert forall|i: int| 0 <= i < t.len() implies #[trigger] t[i] != '`' && t[i] != '*'
                    && !spec_is_emoji(t[i]) by {
                    assert(t[i] == s[i + p.len()]);
                }
            }
            lemma_replace_unmarked(t, p, rep);
            let r = crate::text::replace_all(t, p, rep);
            assert forall|i: int| 0 <= i < (rep + r).len() implies #[trigger] (rep + r)[i] != '`' && (rep
                + r)[i] != '*' && !spec_is_emoji((rep + r)[i]) by {
                if i < rep.len() {
                    assert((rep + r)[i] == rep[i]);
                } else {
                    assert((rep + r)[i] == r[i - rep.len()]);
                }
            }
        } else {
            let t = s.drop_first();
            assert(unmarked(t)) by {
                assert forall|i: int| 0 <= i < t.len() implies #[trigger] t[i] != '`' && t[i] != '*'
                    && !spec_is_emoji(t[i]) by {
                    assert(t[i] == s[i + 1]);
                }
            }
            lemma_replace_unmarked(t, p, rep);
            let r = crate::text::replace_all(t, p, rep);
            assert forall|i: int| 0 <= i < (seq![s[0]] + r).len() implies #[trigger] (seq![s[0]] + r)[i] != '`'
                && (seq![s[0]] + r)[i] != '*' && !spec_is_emoji((seq![s[0]] + r)[i]) by {
                if i > 0 {
                    assert((seq![s[0]] + r)[i] == r[i - 1]);
                }
            }
        }
    }
}

/// A description is plain text: whatever the markdown, no backtick, no
/// asterisk and no emoji is left in it.
pub proof fn law_plain_text_drops_marks(md: Seq<char>)
    ensures
        forall|i: int|
            0 <= i < spec_plain_text(md).len() ==> #[trigger] spec_plain_text(md)[i] != '*'
                && spec_plain_text(md)[i] != '`' && !spec_is_emoji(spec_plain_text(md)[i]),
{
    let d = drop_marks(unlink(md));
    lemma_drop_marks_unmarked(unlink(md));
    lemma_trim_unmarked(d);
    lemma_trim_unmarked(crate::text::trim_start(d));
    let t = crate::text::trim(d);
    reveal_strlit("&");
    reveal_strlit("<");
    reveal_strlit(">");
    assert(unmarked("&"@) && unmarked("<"@) && unmarked(">"@));
    lemma_replace_unmarked(t, "&amp;"@, "&"@);
    let t1 = crate::text::replace_all(t, "&amp;"@, "&"@);
    lemma_replace_unmarked(t1, "&lt;"@, "<"@);
    let t2 = crate::text::replace_all(t1, "&lt;"@, "<"@);
    lemma_replace_unmarked(t2, "&gt;"@, ">"@);
    assert(unmarked(spec_plain_text(md)));
}

proof fn lemma_drop_marks_keeps(s: Seq<char>)
    requires
        unmarked(s),
    ensures
        drop_marks(s) == s,
    decreases s.len(),
{
    if s.len() > 0 {
        assert(unmarked(s.drop_last())) by {
            assert forall|i: int| 0 <= i < s.len() - 1 implies #[trigger] s.drop_last()[i] != '`'
                && s.drop_last()[i] != '*' && !spec_is_emoji(s.drop_last()[i]) by {
                assert(s.drop_last()[i] == s[i]);
            }
        }
        lemma_drop_marks_keeps(s.drop_last());
        assert(s.last() == s[s.len() - 1]);
        assert(s.drop_last().push(s.last()) =~= s);
    }
}

proof fn lemma_replace_absent(s: Seq<char>, p: Seq<char>, rep: Seq<char>)
    requires
        p.len() > 0,
        forall|i: int| 0 <= i < s.len() ==> s[i] != p[0],
    ensures
        crate::text::replace_all(s, p, rep) == s,
    decreases s.len(),
{
    if s.len() > 0 {
        if crate::text::chars_prefix(s, p) {
            assert(s.take(p.len() as int)[0] == s[0]);
        }
        lemma_replace_absent(s.drop_first(), p, rep);
        assert(seq![s[0]] + s.drop_first() =~= s);
    }
}

/// Text that holds no markdown is its own plain text: without links,
/// backticks, asterisks, emoji or entities, and with nothing to trim, a
/// description reads exactly as written.
pub proof fn law_plain_text_keeps_plain_words(s: Seq<char>)
    requires
        forall|i: int| 0 <= i < s.len() ==> #[trigger] s[i] != '[' && s[i] != '`' && s[i] != '*' && s[i] != '&'
            && !spec_is_emoji(s[i]),
        s.len() > 0 ==> !crate::text::spec_is_whitespace(s[0]) && !crate::text::spec_is_whitespace(s.last()),
    ensures
        spec_plain_text(s) == s,
{
    lemma_find_from(s, '[', 0);
    assert(unlink(s) == s);
    lemma_drop_marks_keeps(s);
    assert(crate::text::trim_start(s) == s);
    assert(crate::text::trim_end(s) == s);
    reveal_strlit("&amp;");
    reveal_strlit("&lt;");
    reveal_strlit("&gt;");
    lemma_replace_absent(s, "&amp;"@, "&"@);
    lemma_replace_absent(s, "&lt;"@, "<"@);
    lemma_replace_absent(s, "&gt;"@, ">"@);
}

/// The first `p` at or after `from` is at `k` when `p` stands at `k` and
/// its first character does not occur before.
proof fn lemma_find_sub_at(s: Seq<char>, p: Seq<char>, from: int, k: int)
    requires
        0 <= from <= k,
        p.len() > 0,
        k + p.len() <= s.len(),
        s.subrange(k, k + p.len()) == p,
        forall|m: int| from <= m < k ==> s[m] != p[0],
    ensures
        find_sub(s, p, from) == k,
    decreases k - from,
{
    if from < k {
        assert(s.subrange(from, from + p.len())[0] == s[from]);
        lemma_find_sub_at(s, p, from + 1, k);
    }
}

/// An inline link reads as its label: `[label](url)` around plain words
/// gives the words alone.
pub proof fn law_links_read_as_their_label(label: Seq<char>, url: Seq<char>)
    requires
        forall|i: int|
            0 <= i < label.len() ==> #[trigger] label[i] != '[' && label[i] != ']' && label[i] != '`' && label[i]
                != '*' && label[i] != '&' && !spec_is_emoji(label[i]),
        label.len() > 0 ==> !crate::text::spec_is_whitespace(label[0]) && !crate::text::spec_is_whitespace(
            label.last(),
        ),
        forall|i: int| 0 <= i < url.len() ==> #[trigger] url[i] != ')',
    ensures
        spec_plain_text(seq!['['] + label + seq![']', '('] + url + seq![')']) == label,
{
    let s = seq!['['] + label + seq![']', '('] + url + seq![')'];
    assert(s[0] == '[');
    lemma_find_from(s, '[', 0);
    let after = s.skip(1);
    assert(after =~= label + seq![']', '('] + url + seq![')']);
    let n = label.len() as int;
    assert(after.subrange(n, n + 2) =~= seq![']', '(']);
    assert forall|m: int| 0 <= m < n implies after[m] != seq![']', '('][0] by {
        assert(after[m] == label[m]);
    }
    lemma_find_sub_at(after, seq![']', '('], 0, n);
    assert(after.take(n) =~= label);
    let tail = after.skip(n + 2);
    assert(tail =~= url + seq![')']);
    lemma_find_from(tail, ')', 0);
    let j = find_from(tail, ')', 0);
    assert(tail[url.len() as int] == ')');
    if j < url.len() {
        assert(tail[j] == url[j]);
    }
    assert(j == url.len());
    assert(tail.skip(j + 1) =~= Seq::<char>::empty());
    assert(!label.contains('[')) by {
        if label.contains('[') {
            let w = choose|w: int| 0 <= w < label.len() && label[w] == '[';
            assert(label[w] != '[');
        }
    }
    assert(s.take(0) + label + Seq::<char>::empty() =~= label);
    assert(unlink(Seq::<char>::empty()) == Seq::<char>::empty());
    assert(unlink(s) == label);
    lemma_find_from(label, '[', 0);
    assert(unlink(label) == label);
    law_plain_text_keeps_plain_words(label);
}

/// The state of the scan: listings so far, lowercased URLs seen, and the
/// current category and subcategory.
pub struct ScanState {
    pub out: Seq<ListingModel>,
    pub seen: Seq<Seq<char>>,
    pub category: Option<Seq<char>>,
    pub subcategory: Option<Seq<char>>,
}

/// One line of the README applied to the scan.
pub open spec fn scan_step(st: ScanState, raw: Seq<char>) -> ScanState {
    let line = trim(raw);
    match between(line, "<h2>"@, "</h2>"@) {
        Some(t) => ScanState { category: Some(unescape(t)), subcategory: None, ..st },
        None => match between(line, "<h3>"@, "</h3>"@) {
            Some(t) => ScanState { subcategory: Some(unescape(t)), ..st },
            None => match (st.category, entry(line)) {
                (Some(c), Some((name, url, desc))) => {
                    let key = lower_chars(url);
                    if st.seen.contains(key) {
                        st
                    } else {
                        ScanState {
                            out: st.out.push(
                                ListingModel {
                                    name,
                                    url,
                                    desc: spec_plain_text(desc),
                                    category: c,
                                    subcategory: st.subcategory,
                                },
                            ),
                            seen: st.seen.push(key),
                            ..st
                        }
                    }
                },
                _ => st,
            },
        },
    }
}

pub open spec fn scan(ls: Seq<Seq<char>>) -> ScanState
    decreases ls.len(),
{
    if ls.len() == 0 {
        ScanState { out: seq![], seen: seq![], category: None, subcategory: None }
    } else {
        scan_step(scan(ls.drop_last()), ls.last())
    }
}

/// Where `s` trimmed lies.
fn trimmed(s: &Vec<char>) -> (r: Vec<char>)
    ensures
        r@ == trim(s@),
{
    let (a, b) = trim_range(s, 0, s.len());
    assert(s@.subrange(0, s@.len() as int) =~= s@);
    sub_chars(s, a, b)
}

fn between_chars(line: &Vec<char>, open: &Vec<char>, close: &Vec<char>) -> (r: Option<Vec<char>>)
    ensures
        match r {
            Some(t) => between(line@, open@, close@) == Some(t@),
            None => between(line@, open@, close@) is None,
        },
{
    proof {
        lemma_find_sub(line@, open@, 0);
    }
    let a = match find_chars(line, open, 0) {
        Some(a) => a,
        None => {
            return None;
        },
    };
    let n = line.len();
    assert(a + open@.len() <= n);
    let start = a + open.len();
    proof {
        lemma_find_sub(line@, close@, start as int);
    }
    let b = match find_chars(line, close, start) {
        Some(b) => b,
        None => {
            return None;
        },
    };
    let inner = sub_chars(line, start, b);
    Some(trimmed(&inner))
}

fn unescape_chars(s: &Vec<char>) -> (r: Vec<char>)
    ensures
        r@ == unescape(s@),
{
    let amp = chars_of("&amp;");
    let lt = chars_of("&lt;");
    let gt = chars_of("&gt;");
    proof {
        reveal_strlit("&amp;");
        reveal_strlit("&lt;");
        reveal_strlit("&gt;");
    }
    let a = replace_chars(s, &amp, &chars_of("&"));
    let b = replace_chars(&a, &lt, &chars_of("<"));
    replace_chars(&b, &gt, &chars_of(">"))
}

/// `s` without trailing `/`.
fn trim_slashes_chars(s: &Vec<char>) -> (r: Vec<char>)
    ensures
        r@ == trim_slashes(s@),
{
    let mut end = s.len();
    assert(s@.take(end as int) =~= s@);
    while end > 0 && s[end - 1] == '/'
        invariant
            end <= s@.len(),
            trim_slashes(s@) == trim_slashes(s@.take(end as int)),
        decreases end,
    {
        assert(s@.take(end as int).drop_last() =~= s@.take(end - 1));
        end -= 1;
    }
    sub_chars(s, 0, end)
}

fn trim_leads_chars(s: &Vec<char>) -> (r: Vec<char>)
    ensures
        r@ == trim_leads(s@),
{
    let mut start: usize = 0;
    assert(s@.skip(0) =~= s@);
    while start < s.len() && (s[start] == '-' || s[start] == ':' || s[start] == '\u{2013}' || s[start]
        == '\u{2014}')
        invariant
            start <= s@.len(),
            trim_leads(s@) == trim_leads(s@.skip(start as int)),
        decreases s@.len() - start,
    {
        assert(s@.skip(start as int).drop_first() =~= s@.skip(start + 1));
        start += 1;
    }
    assert(s@.subrange(start as int, s@.len() as int) =~= s@.skip(start as int));
    sub_chars(s, start, s.len())
}

fn entry_chars(line: &Vec<char>) -> (r: Option<(Vec<char>, Vec<char>, Vec<char>)>)
    ensures
        match r {
            Some((n, u, d)) => entry(line@) == Some((n@, u@, d@)),
            None => entry(line@) is None,
        },
{
    let n = line.len();
    let dash: Vec<char> = vec!['-', ' ', '['];
    let star: Vec<char> = vec!['*', ' ', '['];
    assert(dash@ =~= seq!['-', ' ', '[']);
    assert(star@ =~= seq!['*', ' ', '[']);
    assert(line@.subrange(0, n as int) =~= line@);
    if !(range_has_prefix(line, 0, n, &dash) || range_has_prefix(line, 0, n, &star)) {
        return None;
    }
    let rest = sub_chars(line, 3, n);
    assert(rest@ =~= line@.skip(3));
    let close: Vec<char> = vec![']', '('];
    assert(close@ =~= seq![']', '(']);
    proof {
        lemma_find_sub(rest@, close@, 0);
    }
    let k = match find_chars(&rest, &close, 0) {
        Some(k) => k,
        None => {
            return None;
        },
    };
    let name = sub_chars(&rest, 0, k);
    let tail = sub_chars(&rest, k + 2, rest.len());
    assert(name@ =~= rest@.take(k as int));
    assert(tail@ =~= rest@.skip(k + 2));
    let j = find_char(&tail, ')', 0);
    proof {
        lemma_find_from(tail@, ')', 0);
    }
    if j >= tail.len() {
        return None;
    }
    let raw_url = sub_chars(&tail, 0, j);
    let raw_desc = sub_chars(&tail, j + 1, tail.len());
    assert(raw_url@ =~= tail@.take(j as int));
    assert(raw_desc@ =~= tail@.skip(j + 1));
    let url = trim_slashes_chars(&trimmed(&raw_url));
    let desc = trimmed(&trim_leads_chars(&trimmed(&raw_desc)));
    let url_text = string_from(&url);
    if name.len() == 0 || !valid_url(url_text.as_str()) {
        return None;
    }
    Some((trimmed(&name), url, desc))
}

/// Inline links replaced by their label.
fn unlink_chars(s: &Vec<char>) -> (r: Vec<char>)
    ensures
        r@ == unlink(s@),
{
    let mut out: Vec<char> = Vec::new();
    let mut rest: Vec<char> = sub_chars(s, 0, s.len());
    assert(s@.subrange(0, s@.len() as int) =~= s@);
    let close: Vec<char> = vec![']', '('];
    assert(close@ =~= seq![']', '(']);
    loop
        invariant
            close@ == seq![']', '('],
            unlink(s@) == out@ + unlink(rest@),
        decreases rest@.len(),
    {
        let o = find_char(&rest, '[', 0);
        proof {
            lemma_find_from(rest@, '[', 0);
        }
        if o >= rest.len() {
            let ghost before = out@;
            let mut i: usize = 0;
            while i < rest.len()
                invariant
                    i <= rest@.len(),
                    out@ == before + rest@.take(i as int),
                decreases rest@.len() - i,
            {
                out.push(rest[i]);
                i += 1;
                assert(out@ =~= before + rest@.take(i as int));
            }
            assert(rest@.take(rest@.len() as int) =~= rest@);
            return out;
        }
        let after = sub_chars(&rest, o + 1, rest.len());
        assert(after@ =~= rest@.skip(o + 1));
        proof {
            lemma_find_sub(after@, close@, 0);
        }
        let ghost before = out@;
        let mut linked = false;
        if let Some(k) = find_chars(&after, &close, 0) {
            let label = sub_chars(&after, 0, k);
            let tail = sub_chars(&after, k + 2, after.len());
            assert(label@ =~= after@.take(k as int));
            assert(tail@ =~= after@.skip(k + 2));
            let j = find_char(&tail, ')', 0);
            proof {
                lemma_find_from(tail@, ')', 0);
            }
            let no_bracket = find_char(&label, '[', 0) >= label.len();
            proof {
                lemma_find_from(label@, '[', 0);
                if !no_bracket {
                    assert(label@[find_from(label@, '[', 0)] == '[');
                } else if label@.contains('[') {
                    let q = choose|q: int| 0 <= q < label@.len() && label@[q] == '[';
                    assert(false);
                }
            }
            if j < tail.len() && no_bracket {
                let mut i: usize = 0;
                while i < o
                    invariant
                        i <= o < rest@.len(),
                        out@ == before + rest@.take(i as int),
                    decreases o - i,
                {
                    out.push(rest[i]);
                    i += 1;
                    assert(out@ =~= before + rest@.take(i as int));
                }
                let ghost mid = out@;
                let mut q: usize = 0;
                while q < label.len()
                    invariant
                        q <= label@.len(),
                        out@ == mid + label@.take(q as int),
                    decreases label@.len() - q,
                {
                    out.push(label[q]);
                    q += 1;
                    assert(out@ =~= mid + label@.take(q as int));
                }
                assert(label@.take(label@.len() as int) =~= label@);
                let next = sub_chars(&tail, j + 1, tail.len());
                assert(next@ =~= tail@.skip(j + 1));
                assert(out@ + unlink(next@) =~= before + (rest@.take(o as int) + label@ + unlink(next@)));
                rest = next;
                linked = true;
            }
        }
        if !linked {
            let rn = rest.len();
            let mut i: usize = 0;
            while i <= o
                invariant
                    i <= o + 1,
                    o < rest@.len(),
                    rn == rest@.len(),
                    out@ == before + rest@.take(i as int),
                decreases o + 1 - i,
            {
                out.push(rest[i]);
                i += 1;
                assert(out@ =~= before + rest@.take(i as int));
            }
            assert(out@ + unlink(after@) =~= before + (rest@.take(o + 1) + unlink(after@)));
            rest = after;
        }
    }
}

fn drop_marks_chars(s: &Vec<char>) -> (r: Vec<char>)
    ensures
        r@ == drop_marks(s@),
{
    let mut out: Vec<char> = Vec::new();
    let mut i: usize = 0;
    while i < s.len()
        invariant
            i <= s@.len(),
            out@ == drop_marks(s@.take(i as int)),
        decreases s@.len() - i,
    {
        let c = s[i];
        assert(s@.take(i + 1).drop_last() =~= s@.take(i as int));
        if !(c == '`' || c == '*' || is_emoji(c)) {
            out.push(c);
        }
        i += 1;
    }
    assert(s@.take(s@.len() as int) =~= s@);
    out
}

/// Descriptions are drawn as plain text in a terminal: inline links become
/// their label and emphasis markers are dropped.
pub fn plain_text(md: &str) -> (r: String)
    ensures
        r@ == spec_plain_text(md@),
{
    let cs = chars_of(md);
    let t = unescape_chars(&trimmed(&drop_marks_chars(&unlink_chars(&cs))));
    string_from(&t)
}

/// Whether `seen` holds `key`.
fn seen_has(seen: &Vec<Vec<char>>, key: &Vec<char>) -> (r: bool)
    ensures
        r == seen@.map_values(|v: Vec<char>| v@).contains(key@),
{
    let ghost sv = seen@.map_values(|v: Vec<char>| v@);
    let mut i: usize = 0;
    while i < seen.len()
        invariant
            i <= seen@.len(),
            sv == seen@.map_values(|v: Vec<char>| v@),
            forall|j: int| 0 <= j < i ==> sv[j] != key@,
        decreases seen@.len() - i,
    {
        let n = seen[i].len();
        if n == key.len() && crate::text::range_is(&seen[i], 0, n, key) {
            assert(seen[i as int]@.subrange(0, n as int) =~= seen[i as int]@);
            assert(sv[i as int] == key@);
            return true;
        }
        proof {
            if sv[i as int] == key@ {
                assert(seen[i as int]@.subrange(0, n as int) =~= seen[i as int]@);
            }
        }
        i += 1;
    }
    false
}

fn lowercase_chars(s: &Vec<char>) -> (r: Vec<char>)
    ensures
        r@ == lower_chars(s@),
{
    let mut out: Vec<char> = Vec::new();
    let mut i: usize = 0;
    while i < s.len()
        invariant
            i <= s@.len(),
            out@ == lower_chars(s@.take(i as int)),
        decreases s@.len() - i,
    {
        let c = s[i];
        let l = if 'A' <= c && c <= 'Z' {
            ((c as u32) + 32) as u8 as char
        } else {
            c
        };
        assert(l == ascii_lower(c)) by {
            if 'A' <= c && c <= 'Z' {
                assert(((c as u32) + 32) as u8 as char == ((c as u32) + 32) as char);
            }
        }
        out.push(l);
        i += 1;
        assert(out@ =~= lower_chars(s@.take(i as int)));
    }
    assert(s@.take(s@.len() as int) =~= s@);
    out
}

pub open spec fn listing_models(v: Seq<Listing>) -> Seq<ListingModel> {
    v.map_values(|l: Listing| listing_model(l))
}

/// The entries of the README, in order, each URL (ignoring case) once.
pub fn parse(readme: &str) -> (r: Vec<Listing>)
    ensures
        listing_models(r@) == scan(text_lines(readme@)).out,
{
    let cs = chars_of(readme);
    let rs = line_ranges(&cs);
    let ghost ls = text_lines(cs@);
    let h2o = chars_of("<h2>");
    let h2c = chars_of("</h2>");
    let h3o = chars_of("<h3>");
    let h3c = chars_of("</h3>");
    let mut out: Vec<Listing> = Vec::new();
    let mut seen: Vec<Vec<char>> = Vec::new();
    let mut category: Option<Vec<char>> = None;
    let mut subcategory: Option<Vec<char>> = None;
    let mut i: usize = 0;
    while i < rs.len()
        invariant
            i <= rs@.len(),
            ranges_in(cs@, rs@),
            range_texts(cs@, rs@) == ls,
            h2o@ == "<h2>"@,
            h2c@ == "</h2>"@,
            h3o@ == "<h3>"@,
            h3c@ == "</h3>"@,
            listing_models(out@) == scan(ls.take(i as int)).out,
            seen@.map_values(|v: Vec<char>| v@) == scan(ls.take(i as int)).seen,
            match category {
                Some(c) => scan(ls.take(i as int)).category == Some(c@),
                None => scan(ls.take(i as int)).category is None,
            },
            match subcategory {
                Some(c) => scan(ls.take(i as int)).subcategory == Some(c@),
                None => scan(ls.take(i as int)).subcategory is None,
            },
        decreases rs@.len() - i,
    {
        let (lo, hi) = rs[i];
        assert(ls[i as int] == range_text(cs@, rs@[i as int]));
        assert(ls.take(i + 1).drop_last() =~= ls.take(i as int));
        let (a, b) = trim_range(&cs, lo, hi);
        let line = sub_chars(&cs, a, b);
        let ghost st = scan(ls.take(i as int));
        if let Some(t) = between_chars(&line, &h2o, &h2c) {
            category = Some(unescape_chars(&t));
            subcategory = None;
        } else if let Some(t) = between_chars(&line, &h3o, &h3c) {
            subcategory = Some(unescape_chars(&t));
        } else if let Some(c) = &category {
            if let Some((name, url, desc)) = entry_chars(&line) {
                let key = lowercase_chars(&url);
                if !seen_has(&seen, &key) {
                    let ghost before = listing_models(out@);
                    let sub = match &subcategory {
                        Some(s) => Some(string_from(s)),
                        None => None,
                    };
                    let d = string_from(&desc);
                    let listing = Listing {
                        name: string_from(&name),
                        url: string_from(&url),
                        desc: plain_text(d.as_str()),
                        category: string_from(c),
                        subcategory: sub,
                    };
                    out.push(listing);
                    assert(listing_models(out@) =~= before.push(listing_model(listing)));
                    let ghost seen_before = seen@.map_values(|v: Vec<char>| v@);
                    seen.push(key);
                    assert(seen@.map_values(|v: Vec<char>| v@) =~= seen_before.push(key@));
                }
            }
        }
        i += 1;
    }
    assert(ls.take(rs@.len() as int) =~= ls);
    out
}

/// The URLs seen are those of the listings kept, lowercased.
proof fn lemma_seen_are_kept(ls: Seq<Seq<char>>)
    ensures
        scan(ls).seen.len() == scan(ls).out.len(),
        forall|i: int| 0 <= i < scan(ls).out.len() ==> #[trigger] scan(ls).seen[i] == lower_chars(scan(ls).out[i].url),
    decreases ls.len(),
{
    if ls.len() > 0 {
        lemma_seen_are_kept(ls.drop_last());
    }
}

/// A project listed twice, under any spelling of its URL's case, is kept
/// once: no two listings share a URL, ignoring case.
pub proof fn law_urls_listed_once(ls: Seq<Seq<char>>)
    ensures
        forall|i: int, j: int|
            0 <= i < j < scan(ls).out.len() ==> lower_chars(#[trigger] scan(ls).out[i].url)
                != lower_chars(#[trigger] scan(ls).out[j].url),
    decreases ls.len(),
{
    if ls.len() > 0 {
        law_urls_listed_once(ls.drop_last());
        lemma_seen_are_kept(ls.drop_last());
        let prev = scan(ls.drop_last());
        let now = scan(ls);
        assert forall|i: int, j: int|
            0 <= i < j < now.out.len() implies lower_chars(#[trigger] now.out[i].url) != lower_chars(
            #[trigger] now.out[j].url,
        ) by {
            if j >= prev.out.len() {
                assert(now.out.len() == prev.out.len() + 1);
                assert(now.out[i] == prev.out[i]);
                assert(prev.seen[i] == lower_chars(prev.out[i].url));
                assert(!prev.seen.contains(lower_chars(now.out[j].url)));
            } else {
                assert(now.out[i] == prev.out[i] && now.out[j] == prev.out[j]);
            }
        }
    }
}

} // verus!
