//! Prebuilt binaries from GitHub releases, for TUIs no package manager here
//! carries. The index names one asset per platform as `owner/repo/tag/asset`;
//! this module takes such a name apart and decides what a bare binary is
//! called. Downloading and unpacking are the application's business.

use vstd::prelude::*;

use crate::text::{chars_of, find_char, find_from, lemma_find_from, lemma_rfind, rfind, rfind_char};

verus! {

/// Where `owner/repo` of a release package ends: at its second `/`, or at
/// the end.
pub open spec fn repo_end(p: Seq<char>) -> int {
    let first = find_from(p, '/', 0);
    if first >= p.len() {
        p.len() as int
    } else {
        find_from(p, '/', first + 1)
    }
}

/// `owner/repo` of a release package; the key its manifest is filed under.
pub fn repo(package: &str) -> (r: &str)
    ensures
        r@ == package@.take(repo_end(package@)),
{
    let cs = chars_of(package);
    let first = find_char(&cs, '/', 0);
    proof {
        lemma_find_from(cs@, '/', 0);
    }
    let end = if first >= cs.len() {
        cs.len()
    } else {
        proof {
            lemma_find_from(cs@, '/', first + 1);
        }
        find_char(&cs, '/', first + 1)
    };
    package.substring_char(0, end)
}

/// Whether a path element is a real name: not empty, `.` or `..`.
pub open spec fn plain_element(s: Seq<char>) -> bool {
    s.len() > 0 && s != seq!['.'] && s != seq!['.', '.']
}

/// `(owner/repo, tag, asset)` of a release package. Tags may contain `/`;
/// assets cannot.
pub open spec fn spec_parts(p: Seq<char>) -> Option<(Seq<char>, Seq<char>, Seq<char>)> {
    let end = repo_end(p);
    let repo = p.take(end);
    let rest = p.skip(end);
    if rest.len() == 0 || rest[0] != '/' {
        None
    } else {
        let tail = rest.drop_first();
        let cut = rfind(tail, '/', tail.len() as int);
        let slash = find_from(repo, '/', 0);
        if cut < 0 {
            None
        } else {
            let tag = tail.take(cut);
            let asset = tail.skip(cut + 1);
            if slash < repo.len() && plain_element(repo.take(slash)) && plain_element(
                repo.skip(slash + 1),
            ) && plain_element(tag) && plain_element(asset) {
                Some((repo, tag, asset))
            } else {
                None
            }
        }
    }
}

/// Whether `cs[lo..hi]` is a real name: not empty, `.` or `..`.
fn plain_range(cs: &Vec<char>, lo: usize, hi: usize) -> (r: bool)
    requires
        lo <= hi <= cs@.len(),
    ensures
        r == plain_element(cs@.subrange(lo as int, hi as int)),
{
    let ghost s = cs@.subrange(lo as int, hi as int);
    if hi == lo {
        return false;
    }
    if hi - lo == 1 && cs[lo] == '.' {
        assert(s =~= seq!['.']);
        return false;
    }
    if hi - lo == 2 && cs[lo] == '.' && cs[lo + 1] == '.' {
        assert(s =~= seq!['.', '.']);
        return false;
    }
    proof {
        if s.len() == 1 {
            assert(s[0] != seq!['.'][0]);
        }
        if s.len() == 2 {
            assert(s[0] != seq!['.', '.'][0] || s[1] != seq!['.', '.'][1]);
        }
    }
    true
}

/// `(owner/repo, tag, asset)`: where each part of a release package lies,
/// as character positions.
fn part_ranges(cs: &Vec<char>) -> (r: Option<(usize, usize, usize)>)
    ensures
        match r {
            Some((end, cut, len)) => len == cs@.len() && end < cut < len && spec_parts(cs@) == Some(
                (
                    cs@.take(end as int),
                    cs@.subrange(end + 1, cut as int),
                    cs@.subrange(cut + 1, len as int),
                ),
            ),
            None => spec_parts(cs@) is None,
        },
{
    let n = cs.len();
    let first = find_char(cs, '/', 0);
    proof {
        lemma_find_from(cs@, '/', 0);
    }
    let end = if first >= n {
        n
    } else {
        proof {
            lemma_find_from(cs@, '/', first + 1);
        }
        find_char(cs, '/', first + 1)
    };
    let ghost repo = cs@.take(end as int);
    let ghost rest = cs@.skip(end as int);
    if end >= n || cs[end] != '/' {
        return None;
    }
    let ghost tail = rest.drop_first();
    assert(tail =~= cs@.skip(end + 1));
    let last = rfind_char(cs, '/', n);
    proof {
        lemma_rfind(cs@, '/', n as int);
        lemma_rfind_tail(cs@, end as int + 1, n as int);
    }
    let cut = match last {
        Some(c) if c > end => c,
        _ => {
            return None;
        },
    };
    assert(tail.take(cut - end - 1) =~= cs@.subrange(end + 1, cut as int));
    assert(tail.skip(cut - end) =~= cs@.subrange(cut + 1, n as int));
    // The first `/` of the repository part is the package's first `/`.
    proof {
        lemma_find_from_take(cs@, end as int, 0);
    }
    if first >= end {
        return None;
    }
    assert(repo.take(first as int) =~= cs@.subrange(0, first as int));
    assert(repo.skip(first + 1) =~= cs@.subrange(first + 1, end as int));
    if plain_range(cs, 0, first) && plain_range(cs, first + 1, end) && plain_range(cs, end + 1, cut)
        && plain_range(cs, cut + 1, n) {
        Some((end, cut, n))
    } else {
        None
    }
}

/// Looking for the last `/` of the part after position `a`.
proof fn lemma_rfind_tail(s: Seq<char>, a: int, n: int)
    requires
        0 <= a <= n == s.len(),
    ensures
        ({
            let t = s.skip(a);
            let r = rfind(s, '/', n);
            rfind(t, '/', t.len() as int) == if r >= a {
                r - a
            } else {
                -1
            }
        }),
{
    lemma_rfind_skip(s, a, n);
}

proof fn lemma_rfind_skip(s: Seq<char>, a: int, k: int)
    requires
        0 <= a <= k <= s.len(),
    ensures
        rfind(s.skip(a), '/', k - a) == if rfind(s, '/', k) >= a {
            rfind(s, '/', k) - a
        } else {
            -1
        },
    decreases k,
{
    lemma_rfind(s, '/', k);
    if k > a && s[k - 1] != '/' {
        lemma_rfind_skip(s, a, k - 1);
    }
    if k == a {
        lemma_rfind(s, '/', k);
    }
}

proof fn lemma_find_from_take(s: Seq<char>, e: int, k: int)
    requires
        0 <= k <= e <= s.len(),
    ensures
        find_from(s.take(e), '/', k) == if find_from(s, '/', k) < e {
            find_from(s, '/', k)
        } else {
            e
        },
    decreases e - k,
{
    lemma_find_from(s, '/', k);
    if k < e && s[k] != '/' {
        lemma_find_from_take(s, e, k + 1);
    }
}

/// The tag of a release package, or the package itself when it is not one.
pub open spec fn spec_tag(p: Seq<char>) -> Seq<char> {
    match spec_parts(p) {
        Some((_, tag, _)) => tag,
        None => p,
    }
}

/// `(owner/repo, tag, asset)` of a release package.
pub fn parts(package: &str) -> (r: Option<(&str, &str, &str)>)
    ensures
        match r {
            Some((repo, tag, asset)) => spec_parts(package@) == Some((repo@, tag@, asset@)),
            None => spec_parts(package@) is None,
        },
{
    let cs = chars_of(package);
    match part_ranges(&cs) {
        Some((end, cut, n)) => Some(
            (
                package.substring_char(0, end),
                package.substring_char(end + 1, cut),
                package.substring_char(cut + 1, n),
            ),
        ),
        None => None,
    }
}

pub fn tag(package: &str) -> (r: &str)
    ensures
        r@ == spec_tag(package@),
{
    match parts(package) {
        Some((_, tag, _)) => tag,
        None => package,
    }
}

/// The lowercase of an ASCII letter; other characters stay.
pub open spec fn ascii_lower(c: char) -> char {
    if 'A' <= c && c <= 'Z' {
        ((c as u32) + 32) as char
    } else {
        c
    }
}

pub open spec fn lower_chars(s: Seq<char>) -> Seq<char> {
    s.map_values(|c: char| ascii_lower(c))
}

/// Platform words that end the name part of an asset.
pub open spec fn platform_words() -> Seq<Seq<char>> {
    seq![
        "linux"@,
        "darwin"@,
        "macos"@,
        "apple"@,
        "osx"@,
        "x86_64"@,
        "amd64"@,
        "x64"@,
        "aarch64"@,
        "arm64"@,
        "musl"@,
        "gnu"@,
        "unknown"@,
        "static"@,
        "linux64"@,
        "universal"@,
    ]
}

/// A token that starts the version or platform part of an asset name.
pub open spec fn is_marker(token: Seq<char>) -> bool {
    let lower = lower_chars(token);
    let unv = if lower.len() > 0 && lower[0] == 'v' {
        lower.drop_first()
    } else {
        lower
    };
    let version = unv.len() > 0 && '0' <= unv[0] && unv[0] <= '9';
    version || platform_words().contains(lower)
}

pub open spec fn is_sep(c: char) -> bool {
    c == '-' || c == '_'
}

/// End of the token that starts at `i`.
pub open spec fn token_end(s: Seq<char>, i: int) -> int
    decreases s.len() - i,
{
    if i >= s.len() {
        s.len() as int
    } else if is_sep(s[i]) {
        i
    } else {
        token_end(s, i + 1)
    }
}

pub proof fn lemma_token_end(s: Seq<char>, i: int)
    requires
        0 <= i <= s.len(),
    ensures
        i <= token_end(s, i) <= s.len(),
        token_end(s, i) < s.len() ==> is_sep(s[token_end(s, i)]),
    decreases s.len() - i,
{
    if i < s.len() && !is_sep(s[i]) {
        lemma_token_end(s, i + 1);
    }
}

/// How far the name part reaches when tokens start at `i`: up to the first
/// marker token (with the separator before it), or one past the end.
pub open spec fn name_reach(s: Seq<char>, i: int) -> int
    decreases s.len() - i,
{
    let e = token_end(s, i);
    if i < 0 || i > s.len() || is_marker(s.subrange(i, e)) {
        i
    } else if e >= s.len() {
        s.len() + 1int
    } else {
        proof {
            lemma_token_end(s, i);
        }
        name_reach(s, e + 1)
    }
}

/// `s` without separators at its end.
pub open spec fn trim_seps(s: Seq<char>) -> Seq<char>
    decreases s.len(),
{
    if s.len() > 0 && is_sep(s.last()) {
        trim_seps(s.drop_last())
    } else {
        s
    }
}

/// The name of a bare binary asset: what comes before the first version or
/// platform token, if anything does.
pub open spec fn spec_binary_name(asset: Seq<char>) -> Option<Seq<char>> {
    let reach = name_reach(asset, 0);
    let end = if reach < asset.len() {
        reach
    } else {
        asset.len() as int
    };
    let name = trim_seps(asset.take(end));
    if name.len() > 0 {
        Some(name)
    } else {
        None
    }
}

/// The operating-system, architecture and toolchain tokens that release
/// assets are named with (in any case), apart from `x86_64`, which holds a
/// separator and so is read as two tokens.
pub open spec fn platform_token(t: Seq<char>) -> bool {
    let l = lower_chars(t);
    l == "linux"@ || l == "darwin"@ || l == "macos"@ || l == "apple"@ || l == "osx"@ || l == "amd64"@ || l == "x64"@ || l == "aarch64"@ || l == "arm64"@ || l == "musl"@ || l == "gnu"@ || l == "unknown"@ || l == "static"@ || l == "linux64"@ || l == "universal"@
}

/// A token ends where the next separator is.
proof fn lemma_token_end_at(s: Seq<char>, i: int, j: int)
    requires
        0 <= i <= j <= s.len(),
        forall|k: int| i <= k < j ==> !is_sep(#[trigger] s[k]),
        j == s.len() || is_sep(s[j]),
    ensures
        token_end(s, i) == j,
    decreases j - i,
{
    if i < j {
        lemma_token_end_at(s, i + 1, j);
    }
}

/// A platform token is a marker.
proof fn lemma_platform_marker(t: Seq<char>)
    requires
        platform_token(t),
    ensures
        is_marker(t),
{
    let l = lower_chars(t);
    let w = platform_words();
    if l == "linux"@ {
        assert(w[0] == l);
    }
    if l == "darwin"@ {
        assert(w[1] == l);
    }
    if l == "macos"@ {
        assert(w[2] == l);
    }
    if l == "apple"@ {
        assert(w[3] == l);
    }
    if l == "osx"@ {
        assert(w[4] == l);
    }
    if l == "amd64"@ {
        assert(w[6] == l);
    }
    if l == "x64"@ {
        assert(w[7] == l);
    }
    if l == "aarch64"@ {
        assert(w[8] == l);
    }
    if l == "arm64"@ {
        assert(w[9] == l);
    }
    if l == "musl"@ {
        assert(w[10] == l);
    }
    if l == "gnu"@ {
        assert(w[11] == l);
    }
    if l == "unknown"@ {
        assert(w[12] == l);
    }
    if l == "static"@ {
        assert(w[13] == l);
    }
    if l == "linux64"@ {
        assert(w[14] == l);
    }
    if l == "universal"@ {
        assert(w[15] == l);
    }
}

/// A lower-case name that starts with a letter other than `v` and is no
/// platform token is no marker.
proof fn lemma_name_not_marker(n: Seq<char>)
    requires
        n.len() > 0,
        forall|i: int| 0 <= i < n.len() ==> ('a' <= #[trigger] n[i] && n[i] <= 'z') || ('0' <= n[i] && n[i] <= '9'),
        'a' <= n[0] && n[0] <= 'z' && n[0] != 'v',
        !platform_token(n),
    ensures
        !is_marker(n),
{
    let l = lower_chars(n);
    assert(l =~= n);
    reveal_strlit("x86_64");
    assert("x86_64"@[3] == '_');
    if platform_words().contains(l) {
        let k = choose|k: int| 0 <= k < platform_words().len() && platform_words()[k] == l;
        if k == 5 {
            assert(l.len() == 6);
            assert(l[3] == '_');
        }
    }
}

/// A marker token after a plain name ends the name.
proof fn lemma_marker_ends_the_name(n: Seq<char>, sep: char, t: Seq<char>, rest: Seq<char>)
    requires
        n.len() > 0,
        forall|i: int| 0 <= i < n.len() ==> ('a' <= #[trigger] n[i] && n[i] <= 'z') || ('0' <= n[i] && n[i] <= '9'),
        'a' <= n[0] && n[0] <= 'z' && n[0] != 'v',
        !platform_token(n),
        sep == '-' || sep == '_',
        is_marker(t),
        forall|i: int| 0 <= i < t.len() ==> #[trigger] t[i] != '-' && t[i] != '_',
        rest.len() == 0 || rest[0] == '-' || rest[0] == '_',
    ensures
        spec_binary_name(n + seq![sep] + t + rest) == Some(n),
{
    let s = n + seq![sep] + t + rest;
    let a = n.len() as int;
    assert(forall|k: int| 0 <= k < a ==> s[k] == n[k]);
    assert(s[a] == sep);
    assert(forall|k: int| 0 <= k < t.len() ==> s[a + 1 + k] == t[k]);
    if rest.len() > 0 {
        assert(s[a + 1 + t.len()] == rest[0]);
    }
    lemma_token_end_at(s, 0, a);
    assert forall|k: int| a + 1 <= k < a + 1 + t.len() implies !is_sep(#[trigger] s[k]) by {
        assert(s[k] == t[k - a - 1]);
    }
    lemma_token_end_at(s, a + 1, a + 1 + t.len());
    assert(s.subrange(0, a) =~= n);
    assert(s.subrange(a + 1, a + 1 + t.len()) =~= t);
    lemma_name_not_marker(n);
    assert(name_reach(s, a + 1) == a + 1);
    assert(name_reach(s, 0) == a + 1);
    assert(s.take(a + 1) =~= n.push(sep));
    assert(n.push(sep).drop_last() =~= n);
    assert(trim_seps(n) == n);
}

/// A bare binary is named by what comes before its platform: for a
/// lower-case name `n` (letters and digits, starting with a letter other
/// than `v`, itself no platform token) followed by a separator, a platform
/// token `t` and anything that starts a new token, the binary is `n`.
pub proof fn law_platform_ends_the_name(n: Seq<char>, sep: char, t: Seq<char>, rest: Seq<char>)
    requires
        n.len() > 0,
        forall|i: int| 0 <= i < n.len() ==> ('a' <= #[trigger] n[i] && n[i] <= 'z') || ('0' <= n[i] && n[i] <= '9'),
        'a' <= n[0] && n[0] <= 'z' && n[0] != 'v',
        !platform_token(n),
        sep == '-' || sep == '_',
        platform_token(t),
        forall|i: int| 0 <= i < t.len() ==> #[trigger] t[i] != '-' && t[i] != '_',
        rest.len() == 0 || rest[0] == '-' || rest[0] == '_',
    ensures
        spec_binary_name(n + seq![sep] + t + rest) == Some(n),
{
    lemma_platform_marker(t);
    lemma_marker_ends_the_name(n, sep, t, rest);
}

/// A version ends the name too: for such a name `n`, a separator and a
/// token that starts with a digit, or with `v` or `V` and a digit, the
/// binary is `n`.
pub proof fn law_version_ends_the_name(n: Seq<char>, sep: char, t: Seq<char>, rest: Seq<char>)
    requires
        n.len() > 0,
        forall|i: int| 0 <= i < n.len() ==> ('a' <= #[trigger] n[i] && n[i] <= 'z') || ('0' <= n[i] && n[i] <= '9'),
        'a' <= n[0] && n[0] <= 'z' && n[0] != 'v',
        !platform_token(n),
        sep == '-' || sep == '_',
        t.len() > 0,
        ('0' <= t[0] && t[0] <= '9') || ((t[0] == 'v' || t[0] == 'V') && t.len() > 1 && '0' <= t[1] && t[1] <= '9'),
        forall|i: int| 0 <= i < t.len() ==> #[trigger] t[i] != '-' && t[i] != '_',
        rest.len() == 0 || rest[0] == '-' || rest[0] == '_',
    ensures
        spec_binary_name(n + seq![sep] + t + rest) == Some(n),
{
    let l = lower_chars(t);
    assert(l[0] == ascii_lower(t[0]));
    if t.len() > 1 {
        assert(l[1] == ascii_lower(t[1]));
        assert(l.drop_first()[0] == l[1]);
    }
    assert(is_marker(t));
    lemma_marker_ends_the_name(n, sep, t, rest);
}

/// Whether `cs[lo..hi]` is a version or platform token.
fn marker_range(cs: &Vec<char>, lo: usize, hi: usize) -> (r: bool)
    requires
        lo <= hi <= cs@.len(),
    ensures
        r == is_marker(cs@.subrange(lo as int, hi as int)),
{
    let ghost token = cs@.subrange(lo as int, hi as int);
    let mut lower: Vec<char> = Vec::new();
    let mut k = lo;
    while k < hi
        invariant
            lo <= k <= hi <= cs@.len(),
            lower@ == lower_chars(cs@.subrange(lo as int, k as int)),
        decreases hi - k,
    {
        let c = cs[k];
        let l = if 'A' <= c && c <= 'Z' {
            ((c as u32) + 32) as u8 as char
        } else {
            c
        };
        assert(l == ascii_lower(c)) by {
            if 'A' <= c && c <= 'Z' {
                assert(((c as u32) + 32) as u8 as char == ((c as u32) + 32) as char);
            }
        }
        lower.push(l);
        k += 1;
        assert(lower@ =~= lower_chars(cs@.subrange(lo as int, k as int)));
    }
    let n = lower.len();
    let start: usize = if n > 0 && lower[0] == 'v' {
        1
    } else {
        0
    };
    let ghost lw = lower@;
    let ghost unv = if lw.len() > 0 && lw[0] == 'v' {
        lw.drop_first()
    } else {
        lw
    };
    assert(unv =~= lw.skip(start as int));
    if start < n && '0' <= lower[start] && lower[start] <= '9' {
        return true;
    }
    let words: [&str; 16] = [
        "linux",
        "darwin",
        "macos",
        "apple",
        "osx",
        "x86_64",
        "amd64",
        "x64",
        "aarch64",
        "arm64",
        "musl",
        "gnu",
        "unknown",
        "static",
        "linux64",
        "universal",
    ];
    assert(words@.map_values(|w: &str| w@) =~= platform_words());
    let mut i: usize = 0;
    while i < 16
        invariant
            i <= 16,
            lw == lower@,
            n == lower@.len(),
            lo <= hi <= cs@.len(),
            lw == lower_chars(cs@.subrange(lo as int, hi as int)),
            words@.map_values(|w: &str| w@) == platform_words(),
            forall|j: int| 0 <= j < i ==> platform_words()[j] != lw,
        decreases 16 - i,
    {
        let w = chars_of(words[i]);
        assert(w@ == platform_words()[i as int]);
        if w.len() == n && crate::text::range_is(&lower, 0, n, &w) {
            assert(lower@.subrange(0, n as int) =~= lower@);
            assert(platform_words()[i as int] == lw);
            assert(platform_words().contains(lw));
            return true;
        }
        proof {
            if w@ == lw {
                assert(lower@.subrange(0, n as int) =~= lower@);
            }
        }
        i += 1;
    }
    false
}

/// `lazygit-linux-amd64` → `lazygit`, `ctop-0.7.7-linux-amd64` → `ctop`:
/// the name before the first version or platform token.
pub fn binary_name(asset: &str) -> (r: Option<&str>)
    ensures
        match r {
            Some(name) => spec_binary_name(asset@) == Some(name@),
            None => spec_binary_name(asset@) is None,
        },
{
    let cs = chars_of(asset);
    let n = cs.len();
    let mut i: usize = 0;
    let mut reach: usize = 0;
    // Tokens start at `i`; the name reaches to `i` until a marker shows up.
    loop
        invariant_except_break
            i <= n == cs@.len(),
            name_reach(cs@, 0) == name_reach(cs@, i as int),
        ensures
            reach <= n,
            reach == if name_reach(cs@, 0) < n {
                name_reach(cs@, 0)
            } else {
                n as int
            },
        decreases n - i,
    {
        let e = find_sep(&cs, i);
        if marker_range(&cs, i, e) {
            reach = i;
            break;
        }
        if e >= n {
            reach = n;
            break;
        }
        i = e + 1;
    }
    let mut end = reach;
    while end > 0 && (cs[end - 1] == '-' || cs[end - 1] == '_')
        invariant
            end <= reach <= n == cs@.len(),
            trim_seps(cs@.take(reach as int)) == trim_seps(cs@.take(end as int)),
        decreases end,
    {
        assert(cs@.take(end as int).drop_last() =~= cs@.take(end - 1));
        end -= 1;
    }
    if end == 0 {
        assert(cs@.take(0) =~= seq![]);
        return None;
    }
    Some(asset.substring_char(0, end))
}

/// End of the token of `cs` that starts at `i`.
fn find_sep(cs: &Vec<char>, i: usize) -> (r: usize)
    requires
        i <= cs@.len(),
    ensures
        r == token_end(cs@, i as int),
        i <= r <= cs@.len(),
{
    proof {
        lemma_token_end(cs@, i as int);
    }
    let mut k = i;
    while k < cs.len()
        invariant
            i <= k <= cs@.len(),
            token_end(cs@, i as int) == token_end(cs@, k as int),
        decreases cs@.len() - k,
    {
        if cs[k] == '-' || cs[k] == '_' {
            return k;
        }
        k += 1;
    }
    k
}

} // verus!
