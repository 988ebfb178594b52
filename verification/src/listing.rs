//! Pure parsers for "what is installed" listings, one per source format.

use vstd::prelude::*;

use crate::managers::join_path;
use crate::text::{chars_of, chars_prefix, find_char, find_from, line_ranges, range_has_prefix, range_is, range_text, range_texts, ranges_in, spec_is_whitespace, string_of, text_lines, trim, trim_range, views};

verus! {

/// The non-empty lines of a listing, trimmed.
pub open spec fn listed_lines(ls: Seq<Seq<char>>) -> Seq<Seq<char>>
    decreases ls.len(),
{
    if ls.len() == 0 {
        seq![]
    } else {
        let prev = listed_lines(ls.drop_last());
        let t = trim(ls.last());
        if t.len() > 0 {
            prev.push(t)
        } else {
            prev
        }
    }
}

/// One package name per line (`pacman -Qq`, `rpm -qa --qf '%{NAME}\n'`).
pub fn lines(text: &str) -> (r: Vec<String>)
    ensures
        views(r@) == listed_lines(text_lines(text@)),
{
    let cs = chars_of(text);
    let rs = line_ranges(&cs);
    let ghost ls = text_lines(cs@);
    let mut out: Vec<String> = Vec::new();
    let mut i: usize = 0;
    while i < rs.len()
        invariant
            i <= rs@.len(),
            ranges_in(cs@, rs@),
            range_texts(cs@, rs@) == ls,
            views(out@) == listed_lines(ls.take(i as int)),
        decreases rs@.len() - i,
    {
        let (lo, hi) = rs[i];
        assert(ls[i as int] == range_text(cs@, rs@[i as int]));
        assert(ls.take(i + 1).drop_last() =~= ls.take(i as int));
        let (a, b) = trim_range(&cs, lo, hi);
        if a < b {
            let ghost before = views(out@);
            out.push(string_of(&cs, a, b));
            assert(views(out@) =~= before.push(cs@.subrange(a as int, b as int)));
        }
        i += 1;
    }
    assert(ls.take(rs@.len() as int) =~= ls);
    out
}

/// The crate a key line of `.crates.toml` names.
pub open spec fn crate_key(line: Seq<char>) -> Option<Seq<char>> {
    let t = trim(line);
    if t.len() > 0 && t[0] == '"' {
        let rest = t.drop_first();
        Some(rest.take(find_from(rest, ' ', 0)))
    } else {
        None
    }
}

pub open spec fn crate_keys(ls: Seq<Seq<char>>) -> Seq<Seq<char>>
    decreases ls.len(),
{
    if ls.len() == 0 {
        seq![]
    } else {
        let prev = crate_keys(ls.drop_last());
        match crate_key(ls.last()) {
            Some(k) => prev.push(k),
            None => prev,
        }
    }
}

proof fn lemma_find_from_sub(s: Seq<char>, c: char, lo: int, hi: int, k: int)
    requires
        0 <= lo <= k <= hi <= s.len(),
    ensures
        find_from(s.subrange(lo, hi), c, k - lo) == if find_from(s, c, k) < hi {
            find_from(s, c, k) - lo
        } else {
            hi - lo
        },
    decreases hi - k,
{
    crate::text::lemma_find_from(s, c, k);
    if k < hi && s[k] != c {
        lemma_find_from_sub(s, c, lo, hi, k + 1);
    }
}

/// `~/.cargo/.crates.toml`: keys look like `"bottom 0.10.2 (registry+https://…)"`.
pub fn cargo_crates_toml(text: &str) -> (r: Vec<String>)
    ensures
        views(r@) == crate_keys(text_lines(text@)),
{
    let cs = chars_of(text);
    let rs = line_ranges(&cs);
    let ghost ls = text_lines(cs@);
    let mut out: Vec<String> = Vec::new();
    let mut i: usize = 0;
    while i < rs.len()
        invariant
            i <= rs@.len(),
            ranges_in(cs@, rs@),
            range_texts(cs@, rs@) == ls,
            views(out@) == crate_keys(ls.take(i as int)),
        decreases rs@.len() - i,
    {
        let (lo, hi) = rs[i];
        assert(ls[i as int] == range_text(cs@, rs@[i as int]));
        assert(ls.take(i + 1).drop_last() =~= ls.take(i as int));
        let (a, b) = trim_range(&cs, lo, hi);
        if a < b && cs[a] == '"' {
            let e = find_char(&cs, ' ', a + 1);
            let end = if e < b {
                e
            } else {
                b
            };
            proof {
                let t = cs@.subrange(a as int, b as int);
                assert(t.drop_first() =~= cs@.subrange(a + 1, b as int));
                crate::text::lemma_find_from(cs@, ' ', a + 1);
                lemma_find_from_sub(cs@, ' ', a + 1, b as int, a + 1);
                assert(t.drop_first().take(end - a - 1) =~= cs@.subrange(a + 1, end as int));
            }
            let ghost before = views(out@);
            out.push(string_of(&cs, a + 1, end));
            assert(views(out@) =~= before.push(cs@.subrange(a + 1, end as int)));
        }
        i += 1;
    }
    assert(ls.take(rs@.len() as int) =~= ls);
    out
}

/// Whether `c` is one of the quotes `trim_matches` strips from a value.
pub open spec fn is_quote(c: char) -> bool {
    c == '"' || c == '\''
}

/// `s` without quotes at either end.
pub open spec fn strip_quotes_start(s: Seq<char>) -> Seq<char>
    decreases s.len(),
{
    if s.len() > 0 && is_quote(s[0]) {
        strip_quotes_start(s.drop_first())
    } else {
        s
    }
}

pub open spec fn strip_quotes_end(s: Seq<char>) -> Seq<char>
    decreases s.len(),
{
    if s.len() > 0 && is_quote(s.last()) {
        strip_quotes_end(s.drop_last())
    } else {
        s
    }
}

pub open spec fn strip_quotes(s: Seq<char>) -> Seq<char> {
    strip_quotes_end(strip_quotes_start(s))
}

/// Where `cs[lo..hi]` without quotes at either end lies in `cs`.
fn unquote_range(cs: &Vec<char>, lo: usize, hi: usize) -> (r: (usize, usize))
    requires
        lo <= hi <= cs@.len(),
    ensures
        lo <= r.0 <= r.1 <= hi,
        cs@.subrange(r.0 as int, r.1 as int) == strip_quotes(cs@.subrange(lo as int, hi as int)),
{
    let mut a = lo;
    while a < hi && (cs[a] == '"' || cs[a] == '\'')
        invariant
            lo <= a <= hi <= cs@.len(),
            strip_quotes_start(cs@.subrange(lo as int, hi as int)) == strip_quotes_start(
                cs@.subrange(a as int, hi as int),
            ),
        decreases hi - a,
    {
        assert(cs@.subrange(a as int, hi as int).drop_first() =~= cs@.subrange(a + 1, hi as int));
        a += 1;
    }
    let mut b = hi;
    while b > a && (cs[b - 1] == '"' || cs[b - 1] == '\'')
        invariant
            lo <= a <= b <= hi <= cs@.len(),
            strip_quotes_start(cs@.subrange(a as int, hi as int)) == cs@.subrange(a as int, hi as int),
            strip_quotes_end(cs@.subrange(a as int, hi as int)) == strip_quotes_end(
                cs@.subrange(a as int, b as int),
            ),
        decreases b - a,
    {
        assert(cs@.subrange(a as int, b as int).drop_last() =~= cs@.subrange(a as int, b - 1));
        b -= 1;
    }
    (a, b)
}

/// The value of a `prefix = value` line of an `.npmrc`, unquoted.
pub open spec fn prefix_value(line: Seq<char>) -> Option<Seq<char>> {
    let k = find_from(line, '=', 0);
    if k < line.len() && trim(line.take(k)) == seq!['p', 'r', 'e', 'f', 'i', 'x'] {
        Some(strip_quotes(trim(line.skip(k + 1))))
    } else {
        None
    }
}

/// The first `prefix` setting among `ls`.
pub open spec fn first_prefix(ls: Seq<Seq<char>>) -> Option<Seq<char>>
    decreases ls.len(),
{
    if ls.len() == 0 {
        None
    } else {
        match prefix_value(ls[0]) {
            Some(v) => Some(v),
            None => first_prefix(ls.drop_first()),
        }
    }
}

/// `home` joined with a relative path, as `Path::join` does it: an
/// absolute path replaces `home`.
pub open spec fn join_rel(home: Seq<char>, rest: Seq<char>) -> Seq<char> {
    if rest.len() > 0 && rest[0] == '/' {
        rest
    } else {
        join_path(home, rest)
    }
}

/// Where a `prefix` value points, with `~/` and `${HOME}/` expanded; a
/// relative path means nothing.
pub open spec fn expand_prefix(value: Seq<char>, home: Option<Seq<char>>) -> Option<Seq<char>> {
    let tilde = seq!['~', '/'];
    let var = seq!['$', '{', 'H', 'O', 'M', 'E', '}', '/'];
    let rest = if chars_prefix(value, tilde) {
        Some(value.skip(2))
    } else if chars_prefix(value, var) {
        Some(value.skip(8))
    } else {
        None
    };
    match rest {
        Some(r) => match home {
            Some(h) => Some(join_rel(h, r)),
            None => None,
        },
        None => if value.len() > 0 && value[0] == '/' {
            Some(value)
        } else {
            None
        },
    }
}

/// Where the first `prefix` value among the lines of `cs` lies.
fn find_prefix_value(cs: &Vec<char>, rs: &Vec<(usize, usize)>) -> (r: Option<(usize, usize)>)
    requires
        ranges_in(cs@, rs@),
    ensures
        match r {
            Some(p) => p.0 <= p.1 <= cs@.len() && first_prefix(range_texts(cs@, rs@)) == Some(
                cs@.subrange(p.0 as int, p.1 as int),
            ),
            None => first_prefix(range_texts(cs@, rs@)) is None,
        },
{
    let ghost ls = range_texts(cs@, rs@);
    let key = chars_of("prefix");
    proof {
        reveal_strlit("prefix");
    }
    assert(key@ =~= seq!['p', 'r', 'e', 'f', 'i', 'x']);
    assert(ls.skip(0) =~= ls);
    let mut i: usize = 0;
    while i < rs.len()
        invariant
            i <= rs@.len(),
            ranges_in(cs@, rs@),
            ls == range_texts(cs@, rs@),
            key@ == seq!['p', 'r', 'e', 'f', 'i', 'x'],
            first_prefix(ls) == first_prefix(ls.skip(i as int)),
        decreases rs@.len() - i,
    {
        let (lo, hi) = rs[i];
        let ghost line = cs@.subrange(lo as int, hi as int);
        assert(ls[i as int] == line);
        assert(ls.skip(i as int).drop_first() =~= ls.skip(i + 1));
        assert(ls.skip(i as int)[0] == ls[i as int]);
        let e = find_char(&cs, '=', lo);
        proof {
            crate::text::lemma_find_from(cs@, '=', lo as int);
            lemma_find_from_sub(cs@, '=', lo as int, hi as int, lo as int);
        }
        if e < hi {
            let (ka, kb) = trim_range(&cs, lo, e);
            assert(line.take(e - lo) =~= cs@.subrange(lo as int, e as int));
            if range_is(&cs, ka, kb, &key) {
                let (va, vb) = trim_range(&cs, e + 1, hi);
                let (qa, qb) = unquote_range(&cs, va, vb);
                assert(line.skip(e - lo + 1) =~= cs@.subrange(e + 1, hi as int));
                return Some((qa, qb));
            }
        }
        i += 1;
    }
    None
}

/// The home directory, when there is one, as text.
pub open spec fn home_text(home: Option<&str>) -> Option<Seq<char>> {
    match home {
        Some(h) => Some(h@),
        None => None,
    }
}

/// The `prefix` setting of an `.npmrc`, with `~` and `${HOME}` expanded.
pub fn npmrc_prefix(npmrc: &str, home: Option<&str>) -> (r: Option<String>)
    ensures
        r matches Some(p) ==> first_prefix(text_lines(npmrc@)) is Some && expand_prefix(
            first_prefix(text_lines(npmrc@))->0,
            home_text(home),
        ) == Some(p@),
        r is None ==> first_prefix(text_lines(npmrc@)) is None || expand_prefix(
            first_prefix(text_lines(npmrc@))->0,
            home_text(home),
        ) is None,
{
    let cs = chars_of(npmrc);
    let rs = line_ranges(&cs);
    let (a, b) = match find_prefix_value(&cs, &rs) {
        Some(p) => p,
        None => {
            return None;
        },
    };
    let ghost value = cs@.subrange(a as int, b as int);
    let skip: usize = if b - a >= 2 && cs[a] == '~' && cs[a + 1] == '/' {
        2
    } else if b - a >= 8 && cs[a] == '$' && cs[a + 1] == '{' && cs[a + 2] == 'H' && cs[a + 3] == 'O'
        && cs[a + 4] == 'M' && cs[a + 5] == 'E' && cs[a + 6] == '}' && cs[a + 7] == '/' {
        8
    } else {
        0
    };
    proof {
        let tilde = seq!['~', '/'];
        let var = seq!['$', '{', 'H', 'O', 'M', 'E', '}', '/'];
        if skip == 2 {
            assert(value.take(2) =~= tilde);
        } else {
            if value.len() >= 2 {
                assert(value.take(2)[0] == value[0] && value.take(2)[1] == value[1]);
            }
            if skip == 8 {
                assert(value.take(8) =~= var);
            } else if value.len() >= 8 {
                assert(value.take(8)[0] == value[0] && value.take(8)[1] == value[1]);
                assert(value.take(8)[2] == value[2] && value.take(8)[3] == value[3]);
                assert(value.take(8)[4] == value[4] && value.take(8)[5] == value[5]);
                assert(value.take(8)[6] == value[6] && value.take(8)[7] == value[7]);
            }
        }
    }
    if skip == 0 {
        if b > a && cs[a] == '/' {
            return Some(string_of(&cs, a, b));
        }
        return None;
    }
    let h = match home {
        Some(h) => h,
        None => {
            return None;
        },
    };
    let rest = string_of(&cs, a + skip, b);
    assert(rest@ =~= value.skip(skip as int));
    if b > a + skip && cs[a + skip] == '/' {
        return Some(rest);
    }
    let hc = chars_of(h);
    let mut out = String::from_str(h);
    if hc.len() > 0 && hc[hc.len() - 1] != '/' {
        crate::text::push_char(&mut out, '/');
    }
    out.append(rest.as_str());
    Some(out)
}

/// `Package: `
pub open spec fn package_field() -> Seq<char> {
    seq!['P', 'a', 'c', 'k', 'a', 'g', 'e', ':', ' ']
}

/// `Status: `
pub open spec fn status_field() -> Seq<char> {
    seq!['S', 't', 'a', 't', 'u', 's', ':', ' ']
}

/// `install ok installed`
pub open spec fn fully_installed() -> Seq<char> {
    "install ok installed"@
}

/// One line of the dpkg status file applied to the packages found so far
/// and the package of the current stanza.
pub open spec fn dpkg_step(
    state: (Seq<Seq<char>>, Option<Seq<char>>),
    line: Seq<char>,
) -> (Seq<Seq<char>>, Option<Seq<char>>) {
    if chars_prefix(line, package_field()) {
        (state.0, Some(trim(line.skip(9))))
    } else if chars_prefix(line, status_field()) && trim(line.skip(8)) == fully_installed() {
        match state.1 {
            Some(p) => (state.0.push(p), None),
            None => (state.0, None),
        }
    } else if line.len() == 0 {
        (state.0, None)
    } else {
        state
    }
}

pub open spec fn dpkg_fold(ls: Seq<Seq<char>>) -> (Seq<Seq<char>>, Option<Seq<char>>)
    decreases ls.len(),
{
    if ls.len() == 0 {
        (seq![], None)
    } else {
        dpkg_step(dpkg_fold(ls.drop_last()), ls.last())
    }
}

/// `/var/lib/dpkg/status`: stanzas with `Package:` and `Status:` fields. Only
/// fully installed packages count (not `deinstall ok config-files`).
pub fn dpkg_status(text: &str) -> (r: Vec<String>)
    ensures
        views(r@) == dpkg_fold(text_lines(text@)).0,
{
    let cs = chars_of(text);
    let rs = line_ranges(&cs);
    let ghost ls = text_lines(cs@);
    let pf = chars_of("Package: ");
    let sf = chars_of("Status: ");
    let full = chars_of("install ok installed");
    proof {
        reveal_strlit("Package: ");
        reveal_strlit("Status: ");
    }
    assert(pf@ =~= package_field());
    assert(sf@ =~= status_field());
    let mut out: Vec<String> = Vec::new();
    let mut package: Option<(usize, usize)> = None;
    let mut i: usize = 0;
    while i < rs.len()
        invariant
            i <= rs@.len(),
            ranges_in(cs@, rs@),
            range_texts(cs@, rs@) == ls,
            pf@ == package_field(),
            sf@ == status_field(),
            full@ == fully_installed(),
            views(out@) == dpkg_fold(ls.take(i as int)).0,
            match package {
                Some(p) => p.0 <= p.1 <= cs@.len() && dpkg_fold(ls.take(i as int)).1 == Some(
                    cs@.subrange(p.0 as int, p.1 as int),
                ),
                None => dpkg_fold(ls.take(i as int)).1 is None,
            },
        decreases rs@.len() - i,
    {
        let (lo, hi) = rs[i];
        let ghost line = cs@.subrange(lo as int, hi as int);
        assert(ls[i as int] == line);
        assert(ls.take(i + 1).drop_last() =~= ls.take(i as int));
        if range_has_prefix(&cs, lo, hi, &pf) {
            let (a, b) = trim_range(&cs, lo + 9, hi);
            assert(line.skip(9) =~= cs@.subrange(lo + 9, hi as int));
            package = Some((a, b));
        } else if range_has_prefix(&cs, lo, hi, &sf) && {
            let (a, b) = trim_range(&cs, lo + 8, hi);
            assert(line.skip(8) =~= cs@.subrange(lo + 8, hi as int));
            range_is(&cs, a, b, &full)
        } {
            if let Some((a, b)) = package {
                let ghost before = views(out@);
                out.push(string_of(&cs, a, b));
                assert(views(out@) =~= before.push(cs@.subrange(a as int, b as int)));
            }
            package = None;
        } else if lo == hi {
            package = None;
        }
        i += 1;
    }
    assert(ls.take(rs@.len() as int) =~= ls);
    out
}

/// Where the version of a `name-version` derivation starts: the first `-`
/// followed by a digit, or the end.
pub open spec fn version_cut(l: Seq<char>, i: int) -> int
    decreases l.len() - i,
{
    if i + 1 >= l.len() {
        l.len() as int
    } else if l[i] == '-' && '0' <= l[i + 1] && l[i + 1] <= '9' {
        i
    } else {
        version_cut(l, i + 1)
    }
}

/// The name of a `name-version` derivation.
pub open spec fn nix_name(l: Seq<char>) -> Seq<char> {
    l.take(version_cut(l, 0))
}

pub open spec fn nix_names(ls: Seq<Seq<char>>) -> Seq<Seq<char>> {
    ls.map_values(|l: Seq<char>| nix_name(l))
}

/// Where the version of `cs[lo..hi]` starts.
fn version_start(cs: &Vec<char>, lo: usize, hi: usize) -> (r: usize)
    requires
        lo <= hi <= cs@.len(),
    ensures
        lo <= r <= hi,
        r - lo == version_cut(cs@.subrange(lo as int, hi as int), 0),
{
    let ghost l = cs@.subrange(lo as int, hi as int);
    let mut i = lo;
    while hi - i > 1
        invariant
            lo <= i <= hi <= cs@.len(),
            version_cut(l, 0) == version_cut(l, i - lo),
            l == cs@.subrange(lo as int, hi as int),
        decreases hi - i,
    {
        if cs[i] == '-' && '0' <= cs[i + 1] && cs[i + 1] <= '9' {
            return i;
        }
        i += 1;
    }
    hi
}

/// `nix-env -q`: `name-version`. The version starts at the first `-` that is
/// followed by a digit, which is how Nix itself splits derivation names.
pub fn nix_env_query(text: &str) -> (r: Vec<String>)
    ensures
        views(r@) == nix_names(listed_lines(text_lines(text@))),
{
    let cs = chars_of(text);
    let rs = line_ranges(&cs);
    let ghost ls = text_lines(cs@);
    let mut out: Vec<String> = Vec::new();
    let mut i: usize = 0;
    while i < rs.len()
        invariant
            i <= rs@.len(),
            ranges_in(cs@, rs@),
            range_texts(cs@, rs@) == ls,
            views(out@) == nix_names(listed_lines(ls.take(i as int))),
        decreases rs@.len() - i,
    {
        let (lo, hi) = rs[i];
        assert(ls[i as int] == range_text(cs@, rs@[i as int]));
        assert(ls.take(i + 1).drop_last() =~= ls.take(i as int));
        let (a, b) = trim_range(&cs, lo, hi);
        if a < b {
            let cut = version_start(&cs, a, b);
            let ghost before = views(out@);
            out.push(string_of(&cs, a, cut));
            assert(cs@.subrange(a as int, b as int).take(cut - a) =~= cs@.subrange(a as int, cut as int));
            assert(views(out@) =~= before.push(cs@.subrange(a as int, cut as int)));
            assert(nix_names(listed_lines(ls.take(i + 1))) =~= nix_names(listed_lines(ls.take(i as int))).push(
                nix_name(cs@.subrange(a as int, b as int)),
            ));
        }
        i += 1;
    }
    assert(ls.take(rs@.len() as int) =~= ls);
    out
}

/// Every line `lines` returns is non-empty and has no whitespace at either end.
pub proof fn law_listed_lines_are_trimmed(ls: Seq<Seq<char>>)
    ensures
        forall|k: int|
            0 <= k < listed_lines(ls).len() ==> (#[trigger] listed_lines(ls)[k]).len() > 0
                && !spec_is_whitespace(listed_lines(ls)[k][0]) && !spec_is_whitespace(
                listed_lines(ls)[k].last(),
            ),
    decreases ls.len(),
{
    if ls.len() > 0 {
        law_listed_lines_are_trimmed(ls.drop_last());
        crate::text::lemma_trim_ends(ls.last());
        let prev = listed_lines(ls.drop_last());
        assert forall|k: int| 0 <= k < listed_lines(ls).len() implies (#[trigger] listed_lines(ls)[k]).len() > 0
            && !spec_is_whitespace(listed_lines(ls)[k][0]) && !spec_is_whitespace(
            listed_lines(ls)[k].last(),
        ) by {
            if k < prev.len() {
                assert(listed_lines(ls)[k] == prev[k]);
            }
        }
    }
}

} // verus!
