//! Character and byte classes shared by the catalog, its parsers and the job log.

use vstd::prelude::*;
use vstd::string::StringSliceAdditionalSpecFns;

verus! {

/// ASCII letters and digits.
pub open spec fn is_alnum(b: u8) -> bool {
    (0x30 <= b && b <= 0x39) || (0x41 <= b && b <= 0x5a) || (0x61 <= b && b <= 0x7a)
}

pub open spec fn is_digit(b: u8) -> bool {
    0x30 <= b && b <= 0x39
}
pub open spec fn is_upper(b: u8) -> bool {
    0x41 <= b && b <= 0x5a
}

/// Space, tab, line feed, form feed and carriage return.
pub open spec fn is_ascii_space(b: u8) -> bool {
    b == 0x20 || b == 0x09 || b == 0x0a || b == 0x0c || b == 0x0d
}

/// The lower-case form of an ASCII letter; every other byte is unchanged.
pub open spec fn lower(b: u8) -> u8 {
    if is_upper(b) { (b + 32) as u8 } else { b }
}

pub open spec fn lower_all(s: Seq<u8>) -> Seq<u8> {
    Seq::new(s.len(), |i: int| lower(s[i]))
}

pub fn byte_is_alnum(b: u8) -> (r: bool)
    ensures
        r == is_alnum(b),
{
    (0x30 <= b && b <= 0x39) || (0x41 <= b && b <= 0x5a) || (0x61 <= b && b <= 0x7a)
}

pub fn byte_is_digit(b: u8) -> (r: bool)
    ensures
        r == is_digit(b),
{
    0x30 <= b && b <= 0x39
}

pub fn byte_lower(b: u8) -> (r: u8)
    ensures
        r == lower(b),
{
    if 0x41 <= b && b <= 0x5a { b + 32 } else { b }
}

/// Whether `s` begins with `prefix`.
pub open spec fn has_prefix(s: Seq<u8>, prefix: Seq<u8>) -> bool {
    prefix.len() <= s.len() && s.subrange(0, prefix.len() as int) == prefix
}

pub fn starts_with(s: &[u8], prefix: &[u8]) -> (r: bool)
    ensures
        r == has_prefix(s@, prefix@),
{
    if prefix.len() > s.len() {
        return false;
    }
    let mut i: usize = 0;
    while i < prefix.len()
        invariant
            prefix@.len() <= s@.len(),
            0 <= i <= prefix@.len(),
            forall|j: int| 0 <= j < i ==> s@[j] == prefix@[j],
        decreases prefix@.len() - i,
    {
        if s[i] != prefix[i] {
            assert(s@.subrange(0, prefix@.len() as int)[i as int] != prefix@[i as int]);
            return false;
        }
        i += 1;
    }
    assert(s@.subrange(0, prefix@.len() as int) =~= prefix@);
    true
}
/// Byte-wise equality of two slices.
pub fn bytes_eq(a: &[u8], b: &[u8]) -> (r: bool)
    ensures
        r == (a@ == b@),
{
    if a.len() != b.len() {
        return false;
    }
    let mut i: usize = 0;
    while i < a.len()
        invariant
            a@.len() == b@.len(),
            0 <= i <= a@.len(),
            forall|j: int| 0 <= j < i ==> a@[j] == b@[j],
        decreases a@.len() - i,
    {
        if a[i] != b[i] {
            return false;
        }
        i += 1;
    }
    assert(a@ =~= b@);
    true
}

/// Whether two strings hold the same text.
pub fn str_eq(a: &str, b: &str) -> (r: bool)
    ensures
        r == (a.spec_bytes() == b.spec_bytes()),
{
    bytes_eq(a.as_bytes(), b.as_bytes())
}

/// Equality up to ASCII case, as `eq_ignore_ascii_case` compares.
pub fn eq_ignore_case(a: &[u8], b: &[u8]) -> (r: bool)
    ensures
        r == (lower_all(a@) == lower_all(b@)),
{
    if a.len() != b.len() {
        assert(lower_all(a@).len() != lower_all(b@).len());
        return false;
    }
    let mut i: usize = 0;
    while i < a.len()
        invariant
            a@.len() == b@.len(),
            0 <= i <= a@.len(),
            forall|j: int| 0 <= j < i ==> lower(a@[j]) == lower(b@[j]),
        decreases a@.len() - i,
    {
        if byte_lower(a[i]) != byte_lower(b[i]) {
            assert(lower_all(a@)[i as int] != lower_all(b@)[i as int]);
            return false;
        }
        i += 1;
    }
    assert(lower_all(a@) =~= lower_all(b@));
    true
}

/// The bytes a package name may hold besides letters and digits: `@._+/-`.
pub open spec fn is_package_byte(b: u8) -> bool {
    is_alnum(b) || b == 0x40 || b == 0x2e || b == 0x5f || b == 0x2b || b == 0x2f || b == 0x2d
}

/// Package names end up as arguments to package managers: a tiny alphabet,
/// at most 200 bytes, and no leading `-` (option injection).
pub open spec fn spec_valid_package_name(s: Seq<u8>) -> bool {
    &&& s.len() > 0
    &&& s.len() <= 200
    &&& s[0] != 0x2d
    &&& forall|i: int| 0 <= i < s.len() ==> is_package_byte(#[trigger] s[i])
}

pub fn valid_package_name(name: &str) -> (r: bool)
    ensures
        r == spec_valid_package_name(name.spec_bytes()),
{
    let b = name.as_bytes();
    if b.len() == 0 || b.len() > 200 || b[0] == 0x2d {
        return false;
    }
    let mut i: usize = 0;
    while i < b.len()
        invariant
            0 <= i <= b@.len(),
            b@ == name.spec_bytes(),
            forall|j: int| 0 <= j < i ==> is_package_byte(#[trigger] b@[j]),
        decreases b@.len() - i,
    {
        let c = b[i];
        if !(byte_is_alnum(c) || c == 0x40 || c == 0x2e || c == 0x5f || c == 0x2b || c == 0x2f
            || c == 0x2d) {
            return false;
        }
        i += 1;
    }
    true
}

/// `https://`
pub open spec fn https_prefix() -> Seq<u8> {
    seq![0x68u8, 0x74, 0x74, 0x70, 0x73, 0x3a, 0x2f, 0x2f]
}

/// `http://`
pub open spec fn http_prefix() -> Seq<u8> {
    seq![0x68u8, 0x74, 0x74, 0x70, 0x3a, 0x2f, 0x2f]
}

/// URLs are handed to the system browser opener, so only plain web URLs of
/// at most 500 bytes without whitespace pass.
pub open spec fn spec_valid_url(s: Seq<u8>) -> bool {
    &&& (has_prefix(s, https_prefix()) || has_prefix(s, http_prefix()))
    &&& s.len() <= 500
    &&& forall|i: int| 0 <= i < s.len() ==> !is_ascii_space(#[trigger] s[i])
}

/// A URL is accepted exactly when it is a web URL: it starts with
/// `https://` or `http://`, holds at most 500 bytes and no ASCII whitespace.
pub proof fn law_web_urls_are_valid(s: Seq<u8>)
    ensures
        spec_valid_url(s) <==> {
            &&& (s.len() >= 8 && s[0] == 0x68 && s[1] == 0x74 && s[2] == 0x74 && s[3] == 0x70 && s[4] == 0x73
                && s[5] == 0x3a && s[6] == 0x2f && s[7] == 0x2f) || (s.len() >= 7 && s[0] == 0x68 && s[1]
                == 0x74 && s[2] == 0x74 && s[3] == 0x70 && s[4] == 0x3a && s[5] == 0x2f && s[6] == 0x2f)
            &&& s.len() <= 500
            &&& forall|i: int| 0 <= i < s.len() ==> s[i] != 0x20 && s[i] != 0x09 && s[i] != 0x0a && s[i] != 0x0c
                && s[i] != 0x0d
        },
{
    if s.len() >= 8 && s[0] == 0x68 && s[1] == 0x74 && s[2] == 0x74 && s[3] == 0x70 && s[4] == 0x73 && s[5]
        == 0x3a && s[6] == 0x2f && s[7] == 0x2f {
        assert(s.subrange(0, 8) =~= https_prefix());
    }
    if s.len() >= 7 && s[0] == 0x68 && s[1] == 0x74 && s[2] == 0x74 && s[3] == 0x70 && s[4] == 0x3a && s[5]
        == 0x2f && s[6] == 0x2f {
        assert(s.subrange(0, 7) =~= http_prefix());
    }
    if has_prefix(s, https_prefix()) {
        assert(s[0] == s.subrange(0, 8)[0] && s[7] == s.subrange(0, 8)[7]);
        assert(forall|k: int| 0 <= k < 8 ==> s[k] == #[trigger] s.subrange(0, 8)[k]);
    }
    if has_prefix(s, http_prefix()) {
        assert(forall|k: int| 0 <= k < 7 ==> s[k] == #[trigger] s.subrange(0, 7)[k]);
    }
}

pub fn valid_url(url: &str) -> (r: bool)
    ensures
        r == spec_valid_url(url.spec_bytes()),
{
    let b = url.as_bytes();
    let https: [u8; 8] = [0x68, 0x74, 0x74, 0x70, 0x73, 0x3a, 0x2f, 0x2f];
    let http: [u8; 7] = [0x68, 0x74, 0x74, 0x70, 0x3a, 0x2f, 0x2f];
    assert(https@ =~= https_prefix());
    assert(http@ =~= http_prefix());
    if !(starts_with(b, https.as_slice()) || starts_with(b, http.as_slice())) || b.len() > 500 {
        return false;
    }
    let mut i: usize = 0;
    while i < b.len()
        invariant
            0 <= i <= b@.len(),
            b@ == url.spec_bytes(),
            forall|j: int| 0 <= j < i ==> !is_ascii_space(#[trigger] b@[j]),
        decreases b@.len() - i,
    {
        let c = b[i];
        if c == 0x20 || c == 0x09 || c == 0x0a || c == 0x0c || c == 0x0d {
            return false;
        }
        i += 1;
    }
    true
}

/// Unicode general category Cc: U+0000..=U+001F and U+007F..=U+009F.
pub open spec fn spec_is_control(c: char) -> bool {
    (c as u32) <= 0x1f || (0x7f <= (c as u32) && (c as u32) <= 0x9f)
}

pub fn is_control(c: char) -> (r: bool)
    ensures
        r == spec_is_control(c),
{
    let u = c as u32;
    u <= 0x1f || (0x7f <= u && u <= 0x9f)
}

/// Emoji, dingbats, variation selectors and joiners. Terminals disagree about
/// how wide these are, which corrupts any cell-based renderer, so they are
/// kept out of everything tuiman draws.
pub open spec fn spec_is_emoji(c: char) -> bool {
    let u = c as u32;
    ||| u == 0x200d
    ||| u == 0x20e3
    ||| 0xfe00 <= u && u <= 0xfe0f
    ||| 0x2190 <= u && u <= 0x21ff
    ||| 0x2300 <= u && u <= 0x23ff
    ||| 0x2600 <= u && u <= 0x27bf
    ||| 0x2b00 <= u && u <= 0x2bff
    ||| 0x1f000 <= u && u <= 0x1faff
    ||| 0xe0020 <= u && u <= 0xe007f
}

pub fn is_emoji(c: char) -> (r: bool)
    ensures
        r == spec_is_emoji(c),
{
    let u = c as u32;
    u == 0x200d || u == 0x20e3 || (0xfe00 <= u && u <= 0xfe0f) || (0x2190 <= u && u <= 0x21ff)
        || (0x2300 <= u && u <= 0x23ff) || (0x2600 <= u && u <= 0x27bf) || (0x2b00 <= u && u
        <= 0x2bff) || (0x1f000 <= u && u <= 0x1faff) || (0xe0020 <= u && u <= 0xe007f)
}

/// `String::push`: appends one character.
#[verifier::external_body]
pub(crate) fn push_char(s: &mut String, c: char)
    ensures
        final(s)@ == old(s)@.push(c),
{
    s.push(c);
}

/// What `str::to_lowercase` gives for a text: its full Unicode lowercase
/// mapping, in which a capital sigma also depends on its neighbours.
pub uninterp spec fn unicode_lower(s: Seq<char>) -> Seq<char>;

/// `str::to_lowercase`. Nothing is stated of the mapping beyond that it is
/// a function of the text; its tables are the standard library's.
#[verifier::external_body]
pub(crate) fn to_lowercase(s: &str) -> (r: String)
    ensures
        r@ == unicode_lower(s@),
{
    s.to_lowercase()
}

/// The characters of `s`, in order.
pub fn chars_of(s: &str) -> (v: Vec<char>)
    ensures
        v@ == s@,
{
    let mut v: Vec<char> = Vec::new();
    for c in it: s.chars()
        invariant
            it.seq() == s@,
            v@ == s@.take(it.index() as int),
    {
        v.push(c);
        assert(v@ =~= s@.take(it.index() + 1));
    }
    assert(s@.take(s@.len() as int) =~= s@);
    v
}

/// The characters `lo..hi` of `cs`, as a string.
pub fn string_of(cs: &Vec<char>, lo: usize, hi: usize) -> (s: String)
    requires
        lo <= hi <= cs@.len(),
    ensures
        s@ == cs@.subrange(lo as int, hi as int),
{
    let mut s = String::new();
    let mut i = lo;
    while i < hi
        invariant
            lo <= i <= hi <= cs@.len(),
            s@ == cs@.subrange(lo as int, i as int),
        decreases hi - i,
    {
        push_char(&mut s, cs[i]);
        i += 1;
        assert(s@ =~= cs@.subrange(lo as int, i as int));
    }
    s
}

/// Index of the last `c` before `end` in `s`, or -1.
pub open spec fn rfind(s: Seq<char>, c: char, end: int) -> int
    decreases end,
{
    if end <= 0 {
        -1
    } else if s[end - 1] == c {
        end - 1
    } else {
        rfind(s, c, end - 1)
    }
}

pub proof fn lemma_rfind(s: Seq<char>, c: char, end: int)
    requires
        0 <= end <= s.len(),
    ensures
        -1 <= rfind(s, c, end) < end,
        rfind(s, c, end) >= 0 ==> s[rfind(s, c, end)] == c,
        forall|k: int| rfind(s, c, end) < k < end ==> s[k] != c,
    decreases end,
{
    if end > 0 && s[end - 1] != c {
        lemma_rfind(s, c, end - 1);
    }
}

/// The last `c` in `cs` before `end`.
pub fn rfind_char(cs: &Vec<char>, c: char, end: usize) -> (r: Option<usize>)
    requires
        end <= cs@.len(),
    ensures
        match r {
            Some(i) => i == rfind(cs@, c, end as int),
            None => rfind(cs@, c, end as int) == -1,
        },
{
    let mut k = end;
    while k > 0
        invariant
            k <= end <= cs@.len(),
            rfind(cs@, c, end as int) == rfind(cs@, c, k as int),
        decreases k,
    {
        if cs[k - 1] == c {
            return Some(k - 1);
        }
        k -= 1;
    }
    None
}

/// Index of the first `c` at or after `start` in `s`, or `s.len()`.
pub open spec fn find_from(s: Seq<char>, c: char, start: int) -> int
    decreases s.len() - start,
{
    if start >= s.len() {
        s.len() as int
    } else if s[start] == c {
        start
    } else {
        find_from(s, c, start + 1)
    }
}

pub proof fn lemma_find_from(s: Seq<char>, c: char, start: int)
    requires
        0 <= start <= s.len(),
    ensures
        start <= find_from(s, c, start) <= s.len(),
        find_from(s, c, start) < s.len() ==> s[find_from(s, c, start)] == c,
        forall|k: int| start <= k < find_from(s, c, start) ==> s[k] != c,
    decreases s.len() - start,
{
    if start < s.len() && s[start] != c {
        lemma_find_from(s, c, start + 1);
    }
}

/// The first `c` in `cs` at or after `start`, or `cs.len()`.
pub fn find_char(cs: &Vec<char>, c: char, start: usize) -> (r: usize)
    requires
        start <= cs@.len(),
    ensures
        r == find_from(cs@, c, start as int),
{
    let mut k = start;
    while k < cs.len()
        invariant
            start <= k <= cs@.len(),
            find_from(cs@, c, start as int) == find_from(cs@, c, k as int),
        decreases cs@.len() - k,
    {
        if cs[k] == c {
            return k;
        }
        k += 1;
    }
    k
}

/// Whether `s` holds only ASCII digits.
pub open spec fn all_ascii_digits(s: Seq<char>) -> bool {
    forall|k: int| 0 <= k < s.len() ==> '0' <= #[trigger] s[k] && s[k] <= '9'
}

/// Whether `cs[lo..hi]` holds only ASCII digits.
pub fn digits_between(cs: &Vec<char>, lo: usize, hi: usize) -> (r: bool)
    requires
        lo <= hi <= cs@.len(),
    ensures
        r == all_ascii_digits(cs@.subrange(lo as int, hi as int)),
{
    let mut k = lo;
    while k < hi
        invariant
            lo <= k <= hi <= cs@.len(),
            forall|j: int| lo <= j < k ==> '0' <= #[trigger] cs@[j] && cs@[j] <= '9',
        decreases hi - k,
    {
        if !('0' <= cs[k] && cs[k] <= '9') {
            assert(!('0' <= cs@.subrange(lo as int, hi as int)[k - lo] && cs@.subrange(lo as int, hi as int)[k - lo] <= '9'));
            return false;
        }
        k += 1;
    }
    assert forall|j: int| 0 <= j < hi - lo implies '0' <= #[trigger] cs@.subrange(lo as int, hi as int)[j]
        && cs@.subrange(lo as int, hi as int)[j] <= '9' by {
        assert(cs@.subrange(lo as int, hi as int)[j] == cs@[lo + j]);
    }
    true
}

/// Whether two strings hold the same characters.
pub fn same_text(a: &str, b: &str) -> (r: bool)
    ensures
        r == (a@ == b@),
{
    proof {
        crate::catalog::lemma_same_bytes_same_text(a, b);
    }
    str_eq(a, b)
}

/// Unicode `White_Space`, as `char::is_whitespace` tests it.
pub open spec fn spec_is_whitespace(c: char) -> bool {
    let u = c as u32;
    ||| 0x09 <= u && u <= 0x0d
    ||| u == 0x20
    ||| u == 0x85
    ||| u == 0xa0
    ||| u == 0x1680
    ||| 0x2000 <= u && u <= 0x200a
    ||| u == 0x2028
    ||| u == 0x2029
    ||| u == 0x202f
    ||| u == 0x205f
    ||| u == 0x3000
}

pub fn is_whitespace(c: char) -> (r: bool)
    ensures
        r == spec_is_whitespace(c),
{
    let u = c as u32;
    (0x09 <= u && u <= 0x0d) || u == 0x20 || u == 0x85 || u == 0xa0 || u == 0x1680 || (0x2000 <= u
        && u <= 0x200a) || u == 0x2028 || u == 0x2029 || u == 0x202f || u == 0x205f || u == 0x3000
}

/// `s` without leading whitespace.
pub open spec fn trim_start(s: Seq<char>) -> Seq<char>
    decreases s.len(),
{
    if s.len() > 0 && spec_is_whitespace(s[0]) {
        trim_start(s.drop_first())
    } else {
        s
    }
}

/// `s` without trailing whitespace.
pub open spec fn trim_end(s: Seq<char>) -> Seq<char>
    decreases s.len(),
{
    if s.len() > 0 && spec_is_whitespace(s.last()) {
        trim_end(s.drop_last())
    } else {
        s
    }
}

/// `s` without leading or trailing whitespace, as `str::trim` gives it.
pub open spec fn trim(s: Seq<char>) -> Seq<char> {
    trim_end(trim_start(s))
}

/// Where `cs[lo..hi]` trimmed lies in `cs`.
pub fn trim_range(cs: &Vec<char>, lo: usize, hi: usize) -> (r: (usize, usize))
    requires
        lo <= hi <= cs@.len(),
    ensures
        lo <= r.0 <= r.1 <= hi,
        cs@.subrange(r.0 as int, r.1 as int) == trim(cs@.subrange(lo as int, hi as int)),
{
    let mut a = lo;
    while a < hi && is_whitespace(cs[a])
        invariant
            lo <= a <= hi <= cs@.len(),
            trim_start(cs@.subrange(lo as int, hi as int)) == trim_start(cs@.subrange(a as int, hi as int)),
        decreases hi - a,
    {
        assert(cs@.subrange(a as int, hi as int).drop_first() =~= cs@.subrange(a + 1, hi as int));
        a += 1;
    }
    let mut b = hi;
    while b > a && is_whitespace(cs[b - 1])
        invariant
            lo <= a <= b <= hi <= cs@.len(),
            trim_start(cs@.subrange(a as int, hi as int)) == cs@.subrange(a as int, hi as int),
            trim_end(cs@.subrange(a as int, hi as int)) == trim_end(cs@.subrange(a as int, b as int)),
        decreases b - a,
    {
        assert(cs@.subrange(a as int, b as int).drop_last() =~= cs@.subrange(a as int, b - 1));
        b -= 1;
    }
    (a, b)
}

/// A line without the `\r` of a `\r\n` ending.
pub open spec fn strip_cr(l: Seq<char>) -> Seq<char> {
    if l.len() > 0 && l.last() == '\r' {
        l.drop_last()
    } else {
        l
    }
}

/// The lines of `s`, as `str::lines` gives them: split at `\n`, a `\r`
/// before it dropped, and no empty line after a final `\n`.
pub open spec fn text_lines(s: Seq<char>) -> Seq<Seq<char>>
    decreases s.len(),
{
    if s.len() == 0 {
        seq![]
    } else {
        let k = find_from(s, '\n', 0);
        if k >= s.len() {
            seq![s]
        } else {
            proof {
                lemma_find_from(s, '\n', 0);
            }
            seq![strip_cr(s.take(k))] + text_lines(s.skip(k + 1))
        }
    }
}

proof fn lemma_find_from_skip(s: Seq<char>, c: char, a: int, b: int)
    requires
        0 <= a <= b <= s.len(),
    ensures
        find_from(s.skip(a), c, b - a) == find_from(s, c, b) - a,
    decreases s.len() - b,
{
    if b < s.len() && s[b] != c {
        lemma_find_from_skip(s, c, a, b + 1);
    }
}

/// The characters of `cs` in the range `p`.
pub open spec fn range_text(cs: Seq<char>, p: (usize, usize)) -> Seq<char> {
    cs.subrange(p.0 as int, p.1 as int)
}

/// Ranges that lie inside `cs`, in order of the texts they name.
pub open spec fn ranges_in(cs: Seq<char>, r: Seq<(usize, usize)>) -> bool {
    forall|i: int| 0 <= i < r.len() ==> (#[trigger] r[i]).0 <= r[i].1 <= cs.len()
}

/// The texts `r` names in `cs`.
pub open spec fn range_texts(cs: Seq<char>, r: Seq<(usize, usize)>) -> Seq<Seq<char>> {
    r.map_values(|p: (usize, usize)| range_text(cs, p))
}

/// Where each line of `cs` lies, as `text_lines` cuts them.
pub fn line_ranges(cs: &Vec<char>) -> (r: Vec<(usize, usize)>)
    ensures
        ranges_in(cs@, r@),
        range_texts(cs@, r@) == text_lines(cs@),
{
    let mut r: Vec<(usize, usize)> = Vec::new();
    let mut start: usize = 0;
    assert(cs@.skip(0) =~= cs@);
    assert(range_texts(cs@, r@) + text_lines(cs@) =~= text_lines(cs@));
    while start < cs.len()
        invariant
            start <= cs@.len(),
            ranges_in(cs@, r@),
            text_lines(cs@) == range_texts(cs@, r@) + text_lines(cs@.skip(start as int)),
        decreases cs@.len() - start,
    {
        let ghost rest = cs@.skip(start as int);
        let ghost old_r = r@;
        let k = find_char(cs, '\n', start);
        proof {
            lemma_find_from(cs@, '\n', start as int);
            lemma_find_from_skip(cs@, '\n', start as int, start as int);
        }
        if k == cs.len() {
            proof {
                assert(rest =~= cs@.subrange(start as int, k as int));
                assert(cs@.skip(k as int) =~= seq![]);
            }
            r.push((start, k));
            assert(range_texts(cs@, r@) =~= range_texts(cs@, old_r).push(rest));
            assert(range_texts(cs@, r@) + seq![] =~= range_texts(cs@, old_r) + text_lines(rest));
            start = k;
        } else {
            let hi = if k > start && cs[k - 1] == '\r' {
                k - 1
            } else {
                k
            };
            proof {
                assert(rest.take(k - start) =~= cs@.subrange(start as int, k as int));
                assert(strip_cr(rest.take(k - start)) =~= cs@.subrange(start as int, hi as int));
                assert(rest.skip(k - start + 1) =~= cs@.skip(k + 1));
            }
            r.push((start, hi));
            assert(range_texts(cs@, r@) =~= range_texts(cs@, old_r).push(
                cs@.subrange(start as int, hi as int),
            ));
            assert(range_texts(cs@, r@) + text_lines(cs@.skip(k + 1)) =~= range_texts(cs@, old_r)
                + text_lines(rest));
            start = k + 1;
        }
    }
    proof {
        assert(cs@.skip(start as int) =~= seq![]);
        assert(range_texts(cs@, r@) + seq![] =~= range_texts(cs@, r@));
    }
    r
}

/// The views of a vector of strings.
pub open spec fn views(v: Seq<String>) -> Seq<Seq<char>> {
    v.map_values(|s: String| s@)
}

/// Whether `s` begins with `p`.
pub open spec fn chars_prefix(s: Seq<char>, p: Seq<char>) -> bool {
    p.len() <= s.len() && s.take(p.len() as int) == p
}

/// Whether `cs[lo..hi]` begins with `p`.
pub fn range_has_prefix(cs: &Vec<char>, lo: usize, hi: usize, p: &Vec<char>) -> (r: bool)
    requires
        lo <= hi <= cs@.len(),
    ensures
        r == chars_prefix(cs@.subrange(lo as int, hi as int), p@),
{
    if p.len() > hi - lo {
        return false;
    }
    let mut k: usize = 0;
    while k < p.len()
        invariant
            k <= p@.len() <= hi - lo,
            lo <= hi <= cs@.len(),
            forall|j: int| 0 <= j < k ==> cs@[lo + j] == p@[j],
        decreases p@.len() - k,
    {
        if cs[lo + k] != p[k] {
            assert(cs@.subrange(lo as int, hi as int).take(p@.len() as int)[k as int] != p@[k as int]);
            return false;
        }
        k += 1;
    }
    assert(cs@.subrange(lo as int, hi as int).take(p@.len() as int) =~= p@);
    true
}

/// Whether `cs[lo..hi]` is exactly `p`.
pub fn range_is(cs: &Vec<char>, lo: usize, hi: usize, p: &Vec<char>) -> (r: bool)
    requires
        lo <= hi <= cs@.len(),
    ensures
        r == (cs@.subrange(lo as int, hi as int) == p@),
{
    if p.len() != hi - lo {
        return false;
    }
    let r = range_has_prefix(cs, lo, hi, p);
    assert(cs@.subrange(lo as int, hi as int).take(p@.len() as int) =~= cs@.subrange(lo as int, hi as int));
    r
}

/// Where `p` first occurs in `s` at or after `from`, or -1.
pub open spec fn find_sub(s: Seq<char>, p: Seq<char>, from: int) -> int
    decreases s.len() - from,
{
    if from < 0 || from + p.len() > s.len() {
        -1
    } else if s.subrange(from, from + p.len()) == p {
        from
    } else {
        proof {
            if p.len() == 0 {
                assert(s.subrange(from, from) =~= p);
            }
        }
        find_sub(s, p, from + 1)
    }
}

pub proof fn lemma_find_sub(s: Seq<char>, p: Seq<char>, from: int)
    requires
        0 <= from,
    ensures
        find_sub(s, p, from) == -1 || (from <= find_sub(s, p, from) && find_sub(s, p, from) + p.len()
            <= s.len() && s.subrange(find_sub(s, p, from), find_sub(s, p, from) + p.len()) == p),
    decreases s.len() - from,
{
    if from + p.len() <= s.len() && s.subrange(from, from + p.len()) != p {
        if p.len() == 0 {
            assert(s.subrange(from, from) =~= p);
        }
        lemma_find_sub(s, p, from + 1);
    }
}

/// The characters `lo..hi` of `s`, copied.
pub fn sub_chars(s: &Vec<char>, lo: usize, hi: usize) -> (r: Vec<char>)
    requires
        lo <= hi <= s@.len(),
    ensures
        r@ == s@.subrange(lo as int, hi as int),
{
    let mut r: Vec<char> = Vec::new();
    let mut i = lo;
    while i < hi
        invariant
            lo <= i <= hi <= s@.len(),
            r@ == s@.subrange(lo as int, i as int),
        decreases hi - i,
    {
        r.push(s[i]);
        i += 1;
        assert(r@ =~= s@.subrange(lo as int, i as int));
    }
    r
}

/// Where `p` first occurs in `s` at or after `from`.
pub fn find_chars(s: &Vec<char>, p: &Vec<char>, from: usize) -> (r: Option<usize>)
    ensures
        match r {
            Some(i) => i == find_sub(s@, p@, from as int),
            None => find_sub(s@, p@, from as int) == -1,
        },
{
    let n = s.len();
    let m = p.len();
    if m > n || from > n - m {
        return None;
    }
    let mut i = from;
    while i <= n - m
        invariant
            m <= n == s@.len(),
            m == p@.len(),
            from <= i,
            i <= n - m + 1,
            find_sub(s@, p@, from as int) == find_sub(s@, p@, i as int),
        decreases n - m + 1 - i,
    {
        if range_has_prefix(s, i, n, p) {
            assert(s@.subrange(i as int, n as int).take(m as int) =~= s@.subrange(i as int, i + m));
            return Some(i);
        }
        assert(s@.subrange(i as int, n as int).take(m as int) =~= s@.subrange(i as int, i + m));
        if i == n - m {
            assert(find_sub(s@, p@, i + 1) == -1);
            return None;
        }
        i += 1;
    }
    None
}

/// `s` with every non-overlapping `p` replaced by `rep`, left to right, as
/// `str::replace` does.
pub open spec fn replace_all(s: Seq<char>, p: Seq<char>, rep: Seq<char>) -> Seq<char>
    decreases s.len(),
{
    if s.len() == 0 {
        seq![]
    } else if p.len() > 0 && chars_prefix(s, p) {
        rep + replace_all(s.skip(p.len() as int), p, rep)
    } else {
        seq![s[0]] + replace_all(s.drop_first(), p, rep)
    }
}

/// `s` with every non-overlapping `p` replaced by `rep`.
pub fn replace_chars(s: &Vec<char>, p: &Vec<char>, rep: &Vec<char>) -> (r: Vec<char>)
    requires
        p@.len() > 0,
    ensures
        r@ == replace_all(s@, p@, rep@),
{
    let n = s.len();
    let mut out: Vec<char> = Vec::new();
    let mut i: usize = 0;
    assert(s@.skip(0) =~= s@);
    while i < n
        invariant
            i <= n == s@.len(),
            p@.len() > 0,
            replace_all(s@, p@, rep@) == out@ + replace_all(s@.skip(i as int), p@, rep@),
        decreases n - i,
    {
        let ghost rest = s@.skip(i as int);
        let ghost before = out@;
        if range_has_prefix(s, i, n, p) {
            assert(s@.subrange(i as int, n as int) =~= rest);
            let mut k: usize = 0;
            while k < rep.len()
                invariant
                    k <= rep@.len(),
                    out@ == before + rep@.take(k as int),
                decreases rep@.len() - k,
            {
                out.push(rep[k]);
                k += 1;
                assert(out@ =~= before + rep@.take(k as int));
            }
            assert(rep@.take(rep@.len() as int) =~= rep@);
            assert(rest.skip(p@.len() as int) =~= s@.skip(i + p@.len()));
            assert(before + (rep@ + replace_all(rest.skip(p@.len() as int), p@, rep@)) =~= out@
                + replace_all(s@.skip(i + p@.len()), p@, rep@));
            i += p.len();
        } else {
            assert(s@.subrange(i as int, n as int) =~= rest);
            out.push(s[i]);
            assert(rest.drop_first() =~= s@.skip(i + 1));
            assert(before + (seq![rest[0]] + replace_all(rest.drop_first(), p@, rep@)) =~= out@
                + replace_all(s@.skip(i + 1), p@, rep@));
            i += 1;
        }
    }
    assert(s@.skip(n as int) =~= seq![]);
    assert(out@ + seq![] =~= out@);
    out
}

/// `cs` as a string.
pub fn string_from(cs: &Vec<char>) -> (s: String)
    ensures
        s@ == cs@,
{
    let s = string_of(cs, 0, cs.len());
    assert(cs@.subrange(0, cs@.len() as int) =~= cs@);
    s
}

proof fn lemma_trim_start_ends(s: Seq<char>)
    ensures
        trim_start(s).len() > 0 ==> !spec_is_whitespace(trim_start(s)[0]),
        trim_start(s).len() > 0 ==> trim_start(s).last() == s.last(),
        trim_start(s).len() <= s.len(),
    decreases s.len(),
{
    if s.len() > 0 && spec_is_whitespace(s[0]) {
        lemma_trim_start_ends(s.drop_first());
    }
}

proof fn lemma_trim_end_ends(s: Seq<char>)
    ensures
        trim_end(s).len() > 0 ==> !spec_is_whitespace(trim_end(s).last()),
        trim_end(s).len() > 0 ==> trim_end(s)[0] == s[0],
    decreases s.len(),
{
    if s.len() > 0 && spec_is_whitespace(s.last()) {
        lemma_trim_end_ends(s.drop_last());
    }
}

/// A trimmed text that is not empty starts and ends with a character that is
/// not whitespace.
pub proof fn lemma_trim_ends(s: Seq<char>)
    ensures
        trim(s).len() > 0 ==> !spec_is_whitespace(trim(s)[0]) && !spec_is_whitespace(trim(s).last()),
{
    lemma_trim_start_ends(s);
    lemma_trim_end_ends(trim_start(s));
}

} // verus!
