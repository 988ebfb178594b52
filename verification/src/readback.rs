//! What a catalog reads back of the rows pushed into its builder: a pushed
//! row is appended whole, its texts stored with control characters turned
//! into spaces, and every earlier row and table entry reads as before.

use vstd::prelude::*;
use vstd::utf8::{decode_utf8, encode_utf8, valid_utf8};

use crate::catalog::{
    first_bad_package, append_row, builder_wf, concat_all, lemma_boundary_in_suffix, first_match, lay_out, lemma_lay_out_in, lemma_str_in_appended,
    lemma_str_in_extend, no_control, neutral, row_texts, spec_intern, spec_intern_keys, spec_pushed,
    spec_push, spec_stars, str_in, stored, strs_in, text_of, CatalogModel, EntryModel, Str,
};

verus! {

broadcast use {vstd::utf8::encode_utf8_valid_utf8, vstd::utf8::valid_utf8_concat};

/// `y` is `x` followed by more UTF-8 text.
pub open spec fn grows(x: Seq<u8>, y: Seq<u8>) -> bool {
    &&& x.len() <= y.len()
    &&& y.subrange(0, x.len() as int) == x
    &&& valid_utf8(y.subrange(x.len() as int, y.len() as int))
}

/// No two entries of `table` hold the same text.
pub open spec fn distinct_texts(arena: Seq<u8>, table: Seq<Str>) -> bool {
    forall|i: int, j: int|
        0 <= i < j < table.len() ==> text_of(arena, #[trigger] table[i]) != text_of(arena, #[trigger] table[j])
}

/// A known star count reads back as itself, capped one below "unknown".
pub open spec fn read_stars(stars: Option<u32>) -> Option<u32> {
    match stars {
        Some(s) => Some(if s < u32::MAX { s } else { (u32::MAX - 1) as u32 }),
        None => None,
    }
}

/// Day 0 is the same as no day.
pub open spec fn read_day(days: Option<u32>) -> Option<u32> {
    match days {
        Some(d) => if d != 0 {
            Some(d)
        } else {
            None
        },
        None => None,
    }
}

proof fn lemma_grows_refl(x: Seq<u8>)
    ensures
        grows(x, x),
{
    assert(x.subrange(0, x.len() as int) =~= x);
    assert(x.subrange(x.len() as int, x.len() as int) =~= encode_utf8(seq![]));
}

proof fn lemma_grows_append(x: Seq<u8>, t: Seq<u8>)
    requires
        valid_utf8(t),
    ensures
        grows(x, x + t),
{
    assert((x + t).subrange(0, x.len() as int) =~= x);
    assert((x + t).subrange(x.len() as int, (x + t).len() as int) =~= t);
}

proof fn lemma_grows_trans(x: Seq<u8>, y: Seq<u8>, z: Seq<u8>)
    requires
        grows(x, y),
        grows(y, z),
    ensures
        grows(x, z),
{
    let ty = y.subrange(x.len() as int, y.len() as int);
    let tz = z.subrange(y.len() as int, z.len() as int);
    assert(z.subrange(x.len() as int, z.len() as int) =~= ty + tz);
    assert(z.subrange(0, x.len() as int) =~= y.subrange(0, x.len() as int));
}

/// A string inside `x` reads the same in any arena `x` grows into.
proof fn lemma_grows_text(x: Seq<u8>, y: Seq<u8>, s: Str)
    requires
        valid_utf8(x),
        grows(x, y),
        str_in(x, s),
    ensures
        str_in(y, s),
        text_of(y, s) == text_of(x, s),
{
    let t = y.subrange(x.len() as int, y.len() as int);
    assert(y =~= x + t);
    lemma_str_in_extend(x, t, s);
}

/// What `first_match` finds.
proof fn lemma_first_match(arena: Seq<u8>, table: Seq<Str>, s: Seq<u8>, n: int)
    requires
        0 <= n <= table.len(),
    ensures
        match first_match(arena, table, s, n) {
            Some(i) => 0 <= i < n && text_of(arena, table[i]) == s && forall|j: int|
                0 <= j < i ==> text_of(arena, #[trigger] table[j]) != s,
            None => forall|j: int| 0 <= j < n ==> text_of(arena, #[trigger] table[j]) != s,
        },
    decreases n,
{
    if n > 0 {
        lemma_first_match(arena, table, s, n - 1);
    }
}

/// Interning only appends to the arena and the table; the id names the first
/// entry holding the text, or the new last entry.
proof fn lemma_intern(arena: Seq<u8>, table: Seq<Str>, s: Seq<char>)
    requires
        valid_utf8(arena),
        strs_in(arena, table),
    ensures
        ({
            let (a2, t2, id) = spec_intern(arena, table, s);
            &&& valid_utf8(a2)
            &&& grows(arena, a2)
            &&& table.len() <= t2.len() <= table.len() + 1
            &&& forall|i: int| 0 <= i < table.len() ==> t2[i] == table[i]
            &&& strs_in(a2, t2)
            &&& forall|i: int| 0 <= i < table.len() ==> text_of(a2, #[trigger] t2[i]) == text_of(arena, table[i])
            &&& match id {
                Some(i) => 0 <= i < t2.len() && if i < table.len() {
                    &&& text_of(arena, table[i]) == encode_utf8(s)
                    &&& t2 == table
                } else {
                    &&& i == table.len()
                    &&& text_of(a2, t2[i]) == stored(s)
                    &&& forall|j: int| 0 <= j < table.len() ==> text_of(arena, #[trigger] table[j]) != encode_utf8(s)
                },
                None => true,
            }
        }),
{
    let (a2, t2, id) = spec_intern(arena, table, s);
    lemma_first_match(arena, table, encode_utf8(s), table.len() as int);
    match first_match(arena, table, encode_utf8(s), table.len() as int) {
        Some(i) => {
            lemma_grows_refl(arena);
        },
        None => {
            let t = stored(s);
            if table.len() >= u32::MAX || arena.len() + t.len() > u32::MAX {
                lemma_grows_refl(arena);
            } else {
                lemma_grows_append(arena, t);
                lemma_str_in_appended(arena, t);
                assert forall|i: int| 0 <= i < t2.len() implies str_in(a2, #[trigger] t2[i]) by {
                    if i < table.len() {
                        lemma_str_in_extend(arena, t, table[i]);
                    }
                }
            }
        },
    }
    assert forall|i: int| 0 <= i < table.len() implies text_of(a2, #[trigger] t2[i]) == text_of(arena, table[i]) by {
        lemma_grows_text(arena, a2, table[i]);
    }
}

/// A string inside an arena free of control characters reads as UTF-8 free
/// of them.
proof fn lemma_text_no_control(a: Seq<u8>, s: Str)
    requires
        valid_utf8(a),
        no_control(decode_utf8(a)),
        str_in(a, s),
    ensures
        valid_utf8(text_of(a, s)),
        no_control(decode_utf8(text_of(a, s))),
{
    let off = s.off as int;
    let end = off + s.len;
    vstd::utf8::decode_utf8_split(a, off);
    vstd::utf8::valid_utf8_split(a, off);
    lemma_no_control_parts(decode_utf8(a.subrange(0, off)), decode_utf8(a.subrange(off, a.len() as int)));
    lemma_boundary_in_suffix(a, off, end);
    let rest = a.subrange(off, a.len() as int);
    vstd::utf8::decode_utf8_split(rest, end - off);
    vstd::utf8::valid_utf8_split(rest, end - off);
    assert(rest.subrange(0, end - off) =~= a.subrange(off, end));
    lemma_no_control_parts(decode_utf8(rest.subrange(0, end - off)), decode_utf8(rest.subrange(end - off, rest.len() as int)));
}

/// Interning into an arena free of control characters keeps it so, and the
/// entry the id names holds the text as stored: a text with control
/// characters never matches an entry, so it gets a new one, neutralized.
proof fn lemma_intern_stored(arena: Seq<u8>, table: Seq<Str>, s: Seq<char>)
    requires
        valid_utf8(arena),
        no_control(decode_utf8(arena)),
        strs_in(arena, table),
    ensures
        no_control(decode_utf8(spec_intern(arena, table, s).0)),
        spec_intern(arena, table, s).2 matches Some(i) ==> text_of(spec_intern(arena, table, s).0, spec_intern(arena, table, s).1[i]) == stored(s),
{
    let (a2, t2, id) = spec_intern(arena, table, s);
    lemma_intern(arena, table, s);
    if a2 != arena {
        let x = decode_utf8(arena);
        vstd::utf8::decode_utf8_encode_utf8(arena);
        crate::catalog::lemma_encode_concat(x, neutral(s));
        assert(a2 == encode_utf8(x + neutral(s)));
        vstd::utf8::encode_utf8_decode_utf8(x + neutral(s));
        crate::catalog::lemma_neutral_no_control(s);
        crate::catalog::lemma_no_control_concat(x, neutral(s));
    }
    if let Some(i) = id {
        if i < table.len() {
            lemma_text_no_control(arena, table[i]);
            vstd::utf8::encode_utf8_decode_utf8(s);
            assert(decode_utf8(text_of(arena, table[i])) == s);
            assert(neutral(s) =~= s);
        }
    }
}

/// Interning text without control characters into a table of distinct
/// texts leaves it distinct.
proof fn lemma_intern_distinct(arena: Seq<u8>, table: Seq<Str>, s: Seq<char>)
    requires
        valid_utf8(arena),
        strs_in(arena, table),
        distinct_texts(arena, table),
        no_control(s),
    ensures
        distinct_texts(spec_intern(arena, table, s).0, spec_intern(arena, table, s).1),
{
    let (a2, t2, id) = spec_intern(arena, table, s);
    lemma_intern(arena, table, s);
    assert(neutral(s) =~= s);
    assert forall|i: int, j: int| 0 <= i < j < t2.len() implies text_of(a2, #[trigger] t2[i]) != text_of(
        a2,
        #[trigger] t2[j],
    ) by {
        if j < table.len() {
            assert(text_of(arena, table[i]) != text_of(arena, table[j]));
        } else {
            assert(id == Some(table.len() as int));
        }
    }
}

/// Interning a row's keys: the arena only grows, the rows are untouched,
/// the tables only grow, and each id names the first entry holding its text
/// or a new last entry.
proof fn lemma_keys(b: CatalogModel, e: EntryModel)
    requires
        builder_wf(b),
        spec_intern_keys(b, e).1 is Ok,
    ensures
        ({
            let m = spec_intern_keys(b, e).0;
            let ids = spec_intern_keys(b, e).1->Ok_0;
            &&& valid_utf8(m.arena)
            &&& grows(b.arena, m.arena)
            &&& m == (CatalogModel {
                arena: m.arena,
                categories: m.categories,
                languages: m.languages,
                licenses: m.licenses,
                ..b
            })
            &&& strs_in(m.arena, m.categories) && strs_in(m.arena, m.languages) && strs_in(m.arena, m.licenses)
            &&& (ids.0 as int) < m.categories.len() && (ids.1 as int) < m.languages.len() && (ids.2 as int)
                < m.licenses.len()
            &&& forall|i: int|
                0 <= i < b.categories.len() ==> m.categories[i] == b.categories[i] && text_of(
                    m.arena,
                    #[trigger] m.categories[i],
                ) == text_of(b.arena, b.categories[i])
            &&& forall|i: int|
                0 <= i < b.languages.len() ==> m.languages[i] == b.languages[i] && text_of(
                    m.arena,
                    #[trigger] m.languages[i],
                ) == text_of(b.arena, b.languages[i])
            &&& forall|i: int|
                0 <= i < b.licenses.len() ==> m.licenses[i] == b.licenses[i] && text_of(
                    m.arena,
                    #[trigger] m.licenses[i],
                ) == text_of(b.arena, b.licenses[i])
            &&& b.categories.len() <= m.categories.len() <= b.categories.len() + 1
            &&& m.categories.len() == if (ids.0 as int) < b.categories.len() {
                b.categories.len()
            } else {
                b.categories.len() + 1
            }
            &&& b.languages.len() <= m.languages.len()
            &&& b.licenses.len() <= m.licenses.len()
            &&& text_of(m.arena, m.categories[ids.0 as int]) == stored(e.category)
            &&& text_of(m.arena, m.languages[ids.1 as int]) == stored(e.language)
            &&& text_of(m.arena, m.licenses[ids.2 as int]) == stored(e.license)
            &&& ((ids.0 as int) < b.categories.len() <==> exists|i: int|
                0 <= i < b.categories.len() && #[trigger] text_of(b.arena, b.categories[i]) == encode_utf8(e.category))
            &&& distinct_texts(b.arena, b.categories) && no_control(e.category) ==> distinct_texts(m.arena, m.categories)
        }),
{
    let (a1, cats, c) = spec_intern(b.arena, b.categories, e.category);
    lemma_intern(b.arena, b.categories, e.category);
    lemma_intern_stored(b.arena, b.categories, e.category);
    lemma_grows_text_all(b.arena, a1, b.languages);
    let (a2, langs, l) = spec_intern(a1, b.languages, e.language);
    lemma_intern(a1, b.languages, e.language);
    lemma_intern_stored(a1, b.languages, e.language);
    lemma_grows_trans(b.arena, a1, a2);
    lemma_grows_text_all(b.arena, a2, b.licenses);
    lemma_grows_text_all(a1, a2, cats);
    let (a3, lics, li) = spec_intern(a2, b.licenses, e.license);
    lemma_intern(a2, b.licenses, e.license);
    lemma_intern_stored(a2, b.licenses, e.license);
    lemma_grows_trans(b.arena, a2, a3);
    lemma_grows_trans(a1, a2, a3);
    lemma_grows_text_all(a1, a3, cats);
    lemma_grows_text_all(a2, a3, langs);
    let m = spec_intern_keys(b, e).0;
    assert(m.arena == a3);
    if no_control(e.category) {
        assert(neutral(e.category) =~= e.category);
    }
    if no_control(e.language) {
        assert(neutral(e.language) =~= e.language);
    }
    if no_control(e.license) {
        assert(neutral(e.license) =~= e.license);
    }
    if let Some(i) = c {
        if i >= b.categories.len() {
            if exists|j: int| 0 <= j < b.categories.len() && #[trigger] text_of(b.arena, b.categories[j]) == encode_utf8(e.category) {
                let j = choose|j: int| 0 <= j < b.categories.len() && #[trigger] text_of(b.arena, b.categories[j]) == encode_utf8(e.category);
                assert(text_of(b.arena, b.categories[j]) != encode_utf8(e.category));
            }
        }
    }
    if distinct_texts(b.arena, b.categories) && no_control(e.category) {
        lemma_intern_distinct(b.arena, b.categories, e.category);
        assert forall|i: int, j: int| 0 <= i < j < cats.len() implies text_of(a3, #[trigger] cats[i]) != text_of(
            a3,
            #[trigger] cats[j],
        ) by {
            assert(text_of(a1, cats[i]) != text_of(a1, cats[j]));
        }
    }
}

/// Appending a row: the arena only grows, the new row holds its own texts,
/// and every earlier string reads as before.
proof fn lemma_row(m: CatalogModel, e: EntryModel, c: u8, l: u16, li: u16)
    requires
        valid_utf8(m.arena),
        m.desc.len() == m.name.len(),
        m.url.len() == m.name.len(),
        m.arena.len() + concat_all(row_texts(e)).len() <= u32::MAX,
    ensures
        ({
            let a = append_row(m, e, c, l, li);
            let n = m.name.len() as int;
            &&& grows(m.arena, a.arena)
            &&& text_of(a.arena, a.name[n]) == stored(e.name)
            &&& text_of(a.arena, a.desc[n]) == stored(e.desc)
            &&& text_of(a.arena, a.url[n]) == stored(e.url)
            &&& forall|k: int|
                0 <= k < e.packages.len() ==> text_of(a.arena, a.pkg_name[m.pkg_name.len() + k]) == stored(
                    #[trigger] e.packages[k].1,
                )
        }),
{
    let parts = row_texts(e);
    let strs = lay_out(m.arena.len() as int, parts);
    let a = append_row(m, e, c, l, li);
    let n = m.name.len() as int;
    assert forall|k: int| 0 <= k < parts.len() implies valid_utf8(#[trigger] parts[k]) by {}
    lemma_lay_out_in(m.arena, parts);
    lemma_grows_append(m.arena, concat_all(parts));
    assert(a.arena == m.arena + concat_all(parts));
    assert(a.name[n] == strs[0] && a.desc[n] == strs[1] && a.url[n] == strs[2]);
    assert(parts[0] == stored(e.name) && parts[1] == stored(e.desc) && parts[2] == stored(e.url));
    assert forall|k: int| 0 <= k < e.packages.len() implies text_of(a.arena, a.pkg_name[m.pkg_name.len() + k])
        == stored(#[trigger] e.packages[k].1) by {
        assert(a.pkg_name[m.pkg_name.len() + k] == strs[3 + k]);
        assert(parts[3 + k] == stored(e.packages[k].1));
    }
}

/// Pushing an entry and reading it back: the catalog gains exactly one row,
/// whose texts are the entry's with control characters turned into spaces,
/// whose star count is capped one below "unknown" and whose day 0 reads as
/// unknown. Its category, language and license read back the same way,
/// with control characters turned into spaces: they are the first table
/// entries holding those texts, or new entries; the category table grows by
/// one exactly when the row's category is a new entry. Every earlier row, package and
/// table entry reads as before. A category table whose texts are distinct
/// stays so, and then two rows share a category id exactly when they share
/// the category text.
#[verifier::rlimit(40)]
pub proof fn law_push_reads_back(b: CatalogModel, e: EntryModel)
    requires
        builder_wf(b),
        spec_push(b, e).1 is None,
    ensures
        ({
            let a = spec_push(b, e).0;
            let n = b.rows() as int;
            &&& a.rows() == n + 1
            &&& a.text(a.name[n]) == stored(e.name)
            &&& a.text(a.desc[n]) == stored(e.desc)
            &&& a.text(a.url[n]) == stored(e.url)
            &&& spec_stars(a.stars[n]) == read_stars(e.stars)
            &&& spec_pushed(a.pushed[n]) == read_day(e.pushed_days)
            &&& a.flags[n] == e.flags
            &&& (a.category[n] as int) < a.categories.len()
            &&& (a.language[n] as int) < a.languages.len()
            &&& (a.license[n] as int) < a.licenses.len()
            &&& a.text(a.categories[a.category[n] as int]) == stored(e.category)
            &&& a.text(a.languages[a.language[n] as int]) == stored(e.language)
            &&& a.text(a.licenses[a.license[n] as int]) == stored(e.license)
            &&& a.pkg_start[n] == b.pkg_eco.len()
            &&& forall|k: int|
                0 <= k < e.packages.len() ==> a.text(a.pkg_name[b.pkg_name.len() + k]) == stored(
                    #[trigger] e.packages[k].1,
                )
            &&& forall|r: int|
                0 <= r < n ==> {
                    &&& a.text(a.name[r]) == b.text(#[trigger] b.name[r])
                    &&& a.text(a.desc[r]) == b.text(b.desc[r])
                    &&& a.text(a.url[r]) == b.text(b.url[r])
                    &&& a.stars[r] == b.stars[r]
                    &&& a.pushed[r] == b.pushed[r]
                    &&& a.flags[r] == b.flags[r]
                    &&& a.category[r] == b.category[r]
                    &&& a.language[r] == b.language[r]
                    &&& a.license[r] == b.license[r]
                    &&& a.pkg_start[r] == b.pkg_start[r]
                }
            &&& forall|k: int|
                0 <= k < b.pkg_name.len() ==> a.text(a.pkg_name[k]) == b.text(#[trigger] b.pkg_name[k])
                    && a.pkg_eco[k] == b.pkg_eco[k]
            &&& forall|i: int|
                0 <= i < b.categories.len() ==> a.text(a.categories[i]) == b.text(#[trigger] b.categories[i])
            &&& forall|i: int|
                0 <= i < b.languages.len() ==> a.text(a.languages[i]) == b.text(#[trigger] b.languages[i])
            &&& forall|i: int|
                0 <= i < b.licenses.len() ==> a.text(a.licenses[i]) == b.text(#[trigger] b.licenses[i])
            &&& b.categories.len() <= a.categories.len() <= b.categories.len() + 1
            &&& a.categories.len() == if (a.category[n] as int) < b.categories.len() {
                b.categories.len()
            } else {
                b.categories.len() + 1
            }
            &&& no_control(e.category) ==> ((a.category[n] as int) < b.categories.len() <==> exists|i: int|
                0 <= i < b.categories.len() && #[trigger] b.text(b.categories[i]) == encode_utf8(e.category))
            &&& distinct_texts(b.arena, b.categories) && no_control(e.category) ==> {
                &&& distinct_texts(a.arena, a.categories)
                &&& forall|r: int|
                    0 <= r < n ==> (#[trigger] a.category[r] == a.category[n] <==> a.text(
                        a.categories[a.category[r] as int],
                    ) == encode_utf8(e.category))
            }
        }),
{
    let n = b.rows() as int;
    lemma_keys(b, e);
    let m = spec_intern_keys(b, e).0;
    let ids = spec_intern_keys(b, e).1->Ok_0;
    let a = append_row(m, e, ids.0, ids.1, ids.2);
    assert(spec_push(b, e).0 == a);
    lemma_row(m, e, ids.0, ids.1, ids.2);
    lemma_grows_trans(b.arena, m.arena, a.arena);
    lemma_grows_text_all(b.arena, a.arena, b.name);
    lemma_grows_text_all(b.arena, a.arena, b.desc);
    lemma_grows_text_all(b.arena, a.arena, b.url);
    lemma_grows_text_all(b.arena, a.arena, b.pkg_name);
    lemma_grows_text_all(m.arena, a.arena, m.categories);
    lemma_grows_text_all(m.arena, a.arena, m.languages);
    lemma_grows_text_all(m.arena, a.arena, m.licenses);
    assert(a.categories == m.categories && a.languages == m.languages && a.licenses == m.licenses);
    assert forall|k: int| 0 <= k < b.pkg_name.len() implies a.text(a.pkg_name[k]) == b.text(
        #[trigger] b.pkg_name[k],
    ) && a.pkg_eco[k] == b.pkg_eco[k] by {
        assert(a.pkg_name[k] == b.pkg_name[k]);
    }
    assert forall|i: int| 0 <= i < b.categories.len() implies a.text(a.categories[i]) == b.text(
        #[trigger] b.categories[i],
    ) by {
        assert(text_of(m.arena, m.categories[i]) == text_of(b.arena, b.categories[i]));
    }
    assert forall|i: int| 0 <= i < b.languages.len() implies a.text(a.languages[i]) == b.text(
        #[trigger] b.languages[i],
    ) by {
        assert(text_of(m.arena, m.languages[i]) == text_of(b.arena, b.languages[i]));
    }
    assert forall|i: int| 0 <= i < b.licenses.len() implies a.text(a.licenses[i]) == b.text(
        #[trigger] b.licenses[i],
    ) by {
        assert(text_of(m.arena, m.licenses[i]) == text_of(b.arena, b.licenses[i]));
    }
    if distinct_texts(b.arena, b.categories) && no_control(e.category) {
        assert(neutral(e.category) =~= e.category);
        assert forall|i: int, j: int| 0 <= i < j < a.categories.len() implies text_of(
            a.arena,
            #[trigger] a.categories[i],
        ) != text_of(a.arena, #[trigger] a.categories[j]) by {
            assert(text_of(m.arena, m.categories[i]) != text_of(m.arena, m.categories[j]));
        }
        assert forall|r: int| 0 <= r < n implies (#[trigger] a.category[r] == a.category[n] <==> a.text(
            a.categories[a.category[r] as int],
        ) == encode_utf8(e.category)) by {
            let cr = a.category[r] as int;
            let cn = a.category[n] as int;
            assert(cr < b.categories.len());
            if a.text(a.categories[cr]) == encode_utf8(e.category) && cr != cn {
                if cr < cn {
                    assert(text_of(a.arena, a.categories[cr]) != text_of(a.arena, a.categories[cn]));
                } else {
                    assert(text_of(a.arena, a.categories[cn]) != text_of(a.arena, a.categories[cr]));
                }
            }
        }
    }
}

/// An accepted push of a web URL free of control characters keeps every
/// URL of the catalog a web URL, as `decode` checks: the URL is stored as
/// given. (A URL holding a control character that is no whitespace passes
/// the check at the push but is stored with a space, and may then fail it.)
pub proof fn law_push_keeps_urls_ok(b: CatalogModel, e: EntryModel)
    requires
        builder_wf(b),
        crate::format::urls_ok(b),
        after_push(b, e).1,
        no_control(e.url),
    ensures
        crate::format::urls_ok(after_push(b, e).0),
{
    law_push_reads_back(b, e);
    let a = after_push(b, e).0;
    assert(neutral(e.url) =~= e.url);
    assert forall|i: int| 0 <= i < a.url.len() implies crate::text::spec_valid_url(#[trigger] a.text(a.url[i])) by {
        if i < b.url.len() {
            assert(a.text(a.url[i]) == b.text(b.url[i]));
        }
    }
}

/// Every string of a column inside `x` reads the same once `x` grows into `y`.
proof fn lemma_grows_text_all(x: Seq<u8>, y: Seq<u8>, col: Seq<Str>)
    requires
        valid_utf8(x),
        grows(x, y),
        strs_in(x, col),
    ensures
        strs_in(y, col),
        forall|i: int| 0 <= i < col.len() ==> text_of(y, #[trigger] col[i]) == text_of(x, col[i]),
{
    assert forall|i: int| 0 <= i < col.len() implies str_in(y, #[trigger] col[i]) && text_of(y, col[i])
        == text_of(x, col[i]) by {
        lemma_grows_text(x, y, col[i]);
    }
}

/// The parts of a text without control characters have none.
proof fn lemma_no_control_parts(x: Seq<char>, y: Seq<char>)
    requires
        no_control(x + y),
    ensures
        no_control(x),
        no_control(y),
{
    assert forall|i: int| 0 <= i < x.len() implies !crate::text::spec_is_control(#[trigger] x[i]) by {
        assert((x + y)[i] == x[i]);
    }
    assert forall|i: int| 0 <= i < y.len() implies !crate::text::spec_is_control(#[trigger] y[i]) by {
        assert((x + y)[x.len() + i] == y[i]);
    }
}

/// Every text a catalog names reads back as UTF-8 free of control
/// characters: the arena holds none, and each string starts and ends on a
/// character boundary, so its characters are a piece of the arena's. Every
/// catalog, decoded or built, satisfies `wf`, so this holds of every name,
/// description, URL, table entry and package name an accessor returns.
pub proof fn law_texts_hold_no_control(m: CatalogModel, s: Str)
    requires
        m.wf(),
        str_in(m.arena, s),
    ensures
        valid_utf8(m.text(s)),
        no_control(decode_utf8(m.text(s))),
{
    let a = m.arena;
    let off = s.off as int;
    let end = off + s.len;
    vstd::utf8::decode_utf8_split(a, off);
    vstd::utf8::valid_utf8_split(a, off);
    lemma_no_control_parts(decode_utf8(a.subrange(0, off)), decode_utf8(a.subrange(off, a.len() as int)));
    lemma_boundary_in_suffix(a, off, end);
    let rest = a.subrange(off, a.len() as int);
    vstd::utf8::decode_utf8_split(rest, end - off);
    vstd::utf8::valid_utf8_split(rest, end - off);
    assert(rest.subrange(0, end - off) =~= a.subrange(off, end));
    lemma_no_control_parts(decode_utf8(rest.subrange(0, end - off)), decode_utf8(rest.subrange(end - off, rest.len() as int)));
}

/// What pushing `e` does to a builder: a bad URL or package name leaves it
/// as it was; otherwise interning and appending happen as `spec_push` says.
/// The flag says whether the row was accepted.
pub open spec fn after_push(m: CatalogModel, e: EntryModel) -> (CatalogModel, bool) {
    if !crate::text::spec_valid_url(encode_utf8(e.url)) || first_bad_package(e.packages) is Some {
        (m, false)
    } else {
        (spec_push(m, e).0, spec_push(m, e).1 is None)
    }
}

/// A builder after pushing `es` in order, and how many were accepted.
pub open spec fn after_pushes(m: CatalogModel, es: Seq<EntryModel>) -> (CatalogModel, nat)
    decreases es.len(),
{
    if es.len() == 0 {
        (m, 0)
    } else {
        let (m1, n) = after_pushes(m, es.drop_last());
        let (m2, ok) = after_push(m1, es.last());
        (m2, if ok { n + 1 } else { n })
    }
}

/// A catalog has one row per accepted push: a refused push adds no row,
/// whatever tables it may have grown.
pub proof fn law_one_row_per_accepted_push(m: CatalogModel, es: Seq<EntryModel>)
    ensures
        after_pushes(m, es).0.rows() == m.rows() + after_pushes(m, es).1,
    decreases es.len(),
{
    if es.len() > 0 {
        law_one_row_per_accepted_push(m, es.drop_last());
        let m1 = after_pushes(m, es.drop_last()).0;
        let e = es.last();
        let k = spec_intern_keys(m1, e);
        assert(k.0.name == m1.name);
    }
}

} // verus!
