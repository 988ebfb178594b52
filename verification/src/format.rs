//! On-disk / on-wire index format. Little-endian, fixed column order:
//!
//! ```text
//! "TUIM" version:u16 reserved:u16 generated:u64
//! rows:u32 categories:u32 languages:u32 licenses:u32 packages:u32 arena:u32
//! name[rows]:Str desc[rows]:Str url[rows]:Str
//! stars[rows]:u32 pushed[rows]:u32 language[rows]:u16 license[rows]:u16
//! category[rows]:u8 flags[rows]:u8 pkg_start[rows + 1]:u32
//! categories[]:Str languages[]:Str licenses[]:Str
//! pkg_eco[packages]:u8 pkg_name[packages]:Str
//! arena[arena]:utf8
//! ```
//!
//! The file arrives over the network, so `decode` trusts nothing: the total
//! size is derived from the header and checked before anything is allocated,
//! and every range, id and string is validated once here so the accessors on
//! `Catalog` never have to.

use vstd::prelude::*;
use vstd::string::{StringExecFns, StringSliceAdditionalSpecFns};
use vstd::utf8::{decode_utf8, encode_utf8, valid_utf8};

use vstd::seq_lib::lemma_concat_associative;

use crate::catalog::{
    arena_str, concat_all, no_control, str_in, strs_in, text_of, Catalog, CatalogModel, Str,
};
use crate::text::{
    has_prefix, is_control, spec_is_control, spec_valid_package_name, spec_valid_url,
    starts_with, valid_package_name, valid_url,
};

verus! {

/// Upper bound the client enforces on a downloaded index.
pub const MAX_INDEX_BYTES: usize = 16777216;

const VERSION: u16 = 1;

const HEADER_BYTES: u64 = 40;

#[derive(Debug, PartialEq, Eq)]
pub enum DecodeError {
    BadMagic,
    UnsupportedVersion(u16),
    /// Length does not match what the header promises.
    BadLength,
    /// A range, id or string failed validation.
    Corrupt(&'static str),
}

/// What a refused index is reported as.
pub open spec fn decode_error_text(e: DecodeError) -> Seq<char> {
    match e {
        DecodeError::BadMagic => "not a tuiman index"@,
        DecodeError::UnsupportedVersion(v) => "index format version "@ + crate::show::decimal(v as nat)
            + " is not supported, please update tuiman"@,
        DecodeError::BadLength => "index is truncated or has trailing data"@,
        DecodeError::Corrupt(what) => "index is corrupt: "@ + what@,
    }
}

impl DecodeError {
    /// The message for the user.
    pub fn message(&self) -> (r: String)
        ensures
            r@ == decode_error_text(*self),
    {
        match self {
            DecodeError::BadMagic => String::from_str("not a tuiman index"),
            DecodeError::UnsupportedVersion(v) => {
                let mut s = String::from_str("index format version ");
                crate::show::push_decimal(&mut s, *v as u64);
                s.append(" is not supported, please update tuiman");
                s
            },
            DecodeError::BadLength => String::from_str("index is truncated or has trailing data"),
            DecodeError::Corrupt(what) => {
                let mut s = String::from_str("index is corrupt: ");
                s.append(what);
                s
            },
        }
    }
}

/// `x` as `w` little-endian bytes (its low `w` bytes).
pub open spec fn le(x: nat, w: nat) -> Seq<u8>
    decreases w,
{
    if w == 0 {
        seq![]
    } else {
        seq![(x % 256) as u8] + le(x / 256, (w - 1) as nat)
    }
}

/// The value of little-endian bytes.
pub open spec fn le_val(s: Seq<u8>) -> nat
    decreases s.len(),
{
    if s.len() == 0 {
        0
    } else {
        s[0] as nat + 256 * le_val(s.drop_first())
    }
}

pub open spec fn pow256(w: nat) -> nat
    decreases w,
{
    if w == 0 {
        1
    } else {
        256 * pow256((w - 1) as nat)
    }
}

/// Bytes read back as a little-endian value give what was written.
pub proof fn lemma_le_roundtrip(x: nat, w: nat)
    requires
        x < pow256(w),
    ensures
        le(x, w).len() == w,
        le_val(le(x, w)) == x,
    decreases w,
{
    if w > 0 {
        assert(x / 256 < pow256((w - 1) as nat)) by (nonlinear_arith)
            requires
                x < 256 * pow256((w - 1) as nat),
        ;
        lemma_le_roundtrip(x / 256, (w - 1) as nat);
        assert(le(x, w).drop_first() =~= le(x / 256, (w - 1) as nat));
        assert(x == x % 256 + 256 * (x / 256)) by (nonlinear_arith);
    }
}

pub proof fn lemma_le_len(x: nat, w: nat)
    ensures
        le(x, w).len() == w,
    decreases w,
{
    if w > 0 {
        lemma_le_len(x / 256, (w - 1) as nat);
    }
}

/// The bytes of a value are bounded by the width they were read from.
pub proof fn lemma_le_val_bound(s: Seq<u8>)
    ensures
        le_val(s) < pow256(s.len()),
    decreases s.len(),
{
    if s.len() > 0 {
        lemma_le_val_bound(s.drop_first());
        let v = le_val(s.drop_first());
        let p = pow256((s.len() - 1) as nat);
        assert(s[0] as nat + 256 * v < 256 * p) by (nonlinear_arith)
            requires
                v < p,
                s[0] < 256,
        ;
    }
}

pub open spec fn str_bytes(s: Str) -> Seq<u8> {
    le(s.off as nat, 4) + le(s.len as nat, 4)
}

/// The first `n` entries of a column, each in its own bytes.
pub open spec fn u16_parts(xs: Seq<u16>, n: nat) -> Seq<Seq<u8>> {
    Seq::new(n, |i: int| le(xs[i] as nat, 2))
}

pub open spec fn u32_parts(xs: Seq<u32>, n: nat) -> Seq<Seq<u8>> {
    Seq::new(n, |i: int| le(xs[i] as nat, 4))
}

pub open spec fn str_parts(xs: Seq<Str>, n: nat) -> Seq<Seq<u8>> {
    Seq::new(n, |i: int| str_bytes(xs[i]))
}

pub open spec fn u16s_bytes(xs: Seq<u16>) -> Seq<u8> {
    concat_all(u16_parts(xs, xs.len()))
}

pub open spec fn u32s_bytes(xs: Seq<u32>) -> Seq<u8> {
    concat_all(u32_parts(xs, xs.len()))
}

pub open spec fn strs_bytes(xs: Seq<Str>) -> Seq<u8> {
    concat_all(str_parts(xs, xs.len()))
}

/// `TUIM`
pub open spec fn magic() -> Seq<u8> {
    seq![0x54u8, 0x55, 0x49, 0x4d]
}

/// A count as the header stores it.
pub open spec fn count(n: nat) -> Seq<u8> {
    le((n as u32) as nat, 4)
}

/// Every column after the header, in format order.
pub open spec fn body_bytes(m: CatalogModel) -> Seq<u8> {
    strs_bytes(m.name) + (strs_bytes(m.desc) + (strs_bytes(m.url) + (u32s_bytes(m.stars) + (
    u32s_bytes(m.pushed) + (u16s_bytes(m.language) + (u16s_bytes(m.license) + (m.category + (
    m.flags + (u32s_bytes(m.pkg_start) + (strs_bytes(m.categories) + (strs_bytes(m.languages) + (
    strs_bytes(m.licenses) + (m.pkg_eco + (strs_bytes(m.pkg_name) + m.arena))))))))))))))
}

/// The encoding of a catalog: the header, then the columns.
pub open spec fn encode_spec(m: CatalogModel) -> Seq<u8> {
    magic() + (le(1, 2) + (le(0, 2) + (le(m.generated as nat, 8) + (count(m.name.len()) + (count(
        m.categories.len(),
    ) + (count(m.languages.len()) + (count(m.licenses.len()) + (count(m.pkg_eco.len()) + (count(
        m.arena.len(),
    ) + body_bytes(m))))))))))
}

/// Appends the low `w` bytes of `x`, least significant first.
fn put_le(out: &mut Vec<u8>, x: u64, w: usize)
    ensures
        final(out)@ == old(out)@ + le(x as nat, w as nat),
{
    let mut v = x;
    let mut k: usize = 0;
    while k < w
        invariant
            0 <= k <= w,
            old(out)@ + le(x as nat, w as nat) == out@ + le(v as nat, (w - k) as nat),
        decreases w - k,
    {
        let ghost rest = le((v / 256) as nat, (w - k - 1) as nat);
        assert(le(v as nat, (w - k) as nat) == seq![(v % 256) as u8] + rest);
        out.push((v % 256) as u8);
        v = v / 256;
        k += 1;
        assert(out@ + rest =~= old(out)@.push(0u8).subrange(0, 0) + out@ + rest);
        assert(old(out)@ + le(x as nat, w as nat) =~= out@ + le(v as nat, (w - k) as nat));
    }
    assert(out@ + le(v as nat, 0) =~= out@);
}

fn put_u16(out: &mut Vec<u8>, x: u16)
    ensures
        final(out)@ == old(out)@ + le(x as nat, 2),
{
    put_le(out, x as u64, 2);
}

fn put_u32(out: &mut Vec<u8>, x: u32)
    ensures
        final(out)@ == old(out)@ + le(x as nat, 4),
{
    put_le(out, x as u64, 4);
}

fn put_u64(out: &mut Vec<u8>, x: u64)
    ensures
        final(out)@ == old(out)@ + le(x as nat, 8),
{
    put_le(out, x, 8);
}

fn put_bytes(out: &mut Vec<u8>, xs: &[u8])
    ensures
        final(out)@ == old(out)@ + xs@,
{
    let mut i: usize = 0;
    while i < xs.len()
        invariant
            0 <= i <= xs@.len(),
            out@ == old(out)@ + xs@.subrange(0, i as int),
        decreases xs@.len() - i,
    {
        out.push(xs[i]);
        i += 1;
        assert(out@ =~= old(out)@ + xs@.subrange(0, i as int));
    }
    assert(xs@.subrange(0, xs@.len() as int) =~= xs@);
}

fn put_u16s(out: &mut Vec<u8>, xs: &Vec<u16>)
    ensures
        final(out)@ == old(out)@ + u16s_bytes(xs@),
{
    let mut i: usize = 0;
    while i < xs.len()
        invariant
            0 <= i <= xs@.len(),
            out@ == old(out)@ + concat_all(u16_parts(xs@, i as nat)),
        decreases xs@.len() - i,
    {
        put_u16(out, xs[i]);
        assert(u16_parts(xs@, (i + 1) as nat).drop_last() =~= u16_parts(xs@, i as nat));
        i += 1;
    }
}

fn put_u32s(out: &mut Vec<u8>, xs: &Vec<u32>)
    ensures
        final(out)@ == old(out)@ + u32s_bytes(xs@),
{
    let mut i: usize = 0;
    while i < xs.len()
        invariant
            0 <= i <= xs@.len(),
            out@ == old(out)@ + concat_all(u32_parts(xs@, i as nat)),
        decreases xs@.len() - i,
    {
        put_u32(out, xs[i]);
        assert(u32_parts(xs@, (i + 1) as nat).drop_last() =~= u32_parts(xs@, i as nat));
        i += 1;
    }
}

fn put_strs(out: &mut Vec<u8>, xs: &Vec<Str>)
    ensures
        final(out)@ == old(out)@ + strs_bytes(xs@),
{
    let mut i: usize = 0;
    while i < xs.len()
        invariant
            0 <= i <= xs@.len(),
            out@ == old(out)@ + concat_all(str_parts(xs@, i as nat)),
        decreases xs@.len() - i,
    {
        let s = xs[i];
        put_u32(out, s.off);
        put_u32(out, s.len);
        assert(str_parts(xs@, (i + 1) as nat).drop_last() =~= str_parts(xs@, i as nat));
        i += 1;
    }
}

/// Sixteen appends in a row land where one nested append would.
proof fn lemma_append16(
    o: Seq<u8>,
    p1: Seq<u8>,
    p2: Seq<u8>,
    p3: Seq<u8>,
    p4: Seq<u8>,
    p5: Seq<u8>,
    p6: Seq<u8>,
    p7: Seq<u8>,
    p8: Seq<u8>,
    p9: Seq<u8>,
    p10: Seq<u8>,
    p11: Seq<u8>,
    p12: Seq<u8>,
    p13: Seq<u8>,
    p14: Seq<u8>,
    p15: Seq<u8>,
    p16: Seq<u8>,
)
    ensures
        o + p1 + p2 + p3 + p4 + p5 + p6 + p7 + p8 + p9 + p10 + p11 + p12 + p13 + p14 + p15 + p16
            == o + (p1 + (p2 + (p3 + (p4 + (p5 + (p6 + (p7 + (p8 + (p9 + (p10 + (p11 + (p12 + (
        p13 + (p14 + (p15 + p16))))))))))))))),
{
    let t15 = p15 + p16;
    let t14 = p14 + t15;
    let t13 = p13 + t14;
    let t12 = p12 + t13;
    let t11 = p11 + t12;
    let t10 = p10 + t11;
    let t9 = p9 + t10;
    let t8 = p8 + t9;
    let t7 = p7 + t8;
    let t6 = p6 + t7;
    let t5 = p5 + t6;
    let t4 = p4 + t5;
    let t3 = p3 + t4;
    let t2 = p2 + t3;
    let t1 = p1 + t2;
    lemma_concat_associative(o, p1, t2);
    lemma_concat_associative(o + p1, p2, t3);
    lemma_concat_associative(o + p1 + p2, p3, t4);
    lemma_concat_associative(o + p1 + p2 + p3, p4, t5);
    lemma_concat_associative(o + p1 + p2 + p3 + p4, p5, t6);
    lemma_concat_associative(o + p1 + p2 + p3 + p4 + p5, p6, t7);
    lemma_concat_associative(o + p1 + p2 + p3 + p4 + p5 + p6, p7, t8);
    lemma_concat_associative(o + p1 + p2 + p3 + p4 + p5 + p6 + p7, p8, t9);
    lemma_concat_associative(o + p1 + p2 + p3 + p4 + p5 + p6 + p7 + p8, p9, t10);
    lemma_concat_associative(o + p1 + p2 + p3 + p4 + p5 + p6 + p7 + p8 + p9, p10, t11);
    lemma_concat_associative(o + p1 + p2 + p3 + p4 + p5 + p6 + p7 + p8 + p9 + p10, p11, t12);
    lemma_concat_associative(
        o + p1 + p2 + p3 + p4 + p5 + p6 + p7 + p8 + p9 + p10 + p11,
        p12,
        t13,
    );
    lemma_concat_associative(
        o + p1 + p2 + p3 + p4 + p5 + p6 + p7 + p8 + p9 + p10 + p11 + p12,
        p13,
        t14,
    );
    lemma_concat_associative(
        o + p1 + p2 + p3 + p4 + p5 + p6 + p7 + p8 + p9 + p10 + p11 + p12 + p13,
        p14,
        t15,
    );
    lemma_concat_associative(
        o + p1 + p2 + p3 + p4 + p5 + p6 + p7 + p8 + p9 + p10 + p11 + p12 + p13 + p14,
        p15,
        p16,
    );
}

/// Appends every column after the header.
fn put_body(out: &mut Vec<u8>, c: &Catalog)
    ensures
        final(out)@ == old(out)@ + body_bytes(c@),
{
    let (name, desc, url, stars, pushed, language, license, category, flags, pkg_start) =
        c.columns();
    let (_, categories, languages, licenses, pkg_eco, pkg_name, arena) = c.tables();
    let ghost m = c@;
    put_strs(out, name);
    put_strs(out, desc);
    put_strs(out, url);
    put_u32s(out, stars);
    put_u32s(out, pushed);
    put_u16s(out, language);
    put_u16s(out, license);
    put_bytes(out, category.as_slice());
    put_bytes(out, flags.as_slice());
    put_u32s(out, pkg_start);
    put_strs(out, categories);
    put_strs(out, languages);
    put_strs(out, licenses);
    put_bytes(out, pkg_eco.as_slice());
    put_strs(out, pkg_name);
    put_bytes(out, arena.as_bytes());
    proof {
        lemma_append16(
            old(out)@,
            strs_bytes(m.name),
            strs_bytes(m.desc),
            strs_bytes(m.url),
            u32s_bytes(m.stars),
            u32s_bytes(m.pushed),
            u16s_bytes(m.language),
            u16s_bytes(m.license),
            m.category,
            m.flags,
            u32s_bytes(m.pkg_start),
            strs_bytes(m.categories),
            strs_bytes(m.languages),
            strs_bytes(m.licenses),
            m.pkg_eco,
            strs_bytes(m.pkg_name),
            m.arena,
        );
    }
}

/// Serialises a catalog into the index format.
pub fn encode(c: &Catalog) -> (out: Vec<u8>)
    ensures
        out@ == encode_spec(c@),
{
    let (generated, categories, languages, licenses, pkg_eco, _, arena) = c.tables();
    let ghost m = c@;
    let mut out: Vec<u8> = Vec::new();
    out.push(0x54);
    out.push(0x55);
    out.push(0x49);
    out.push(0x4d);
    assert(out@ =~= magic());
    put_u16(&mut out, 1);
    put_u16(&mut out, 0);
    put_u64(&mut out, generated);
    put_u32(&mut out, c.len() as u32);
    put_u32(&mut out, categories.len() as u32);
    put_u32(&mut out, languages.len() as u32);
    put_u32(&mut out, licenses.len() as u32);
    put_u32(&mut out, pkg_eco.len() as u32);
    put_u32(&mut out, arena.as_bytes().len() as u32);
    let ghost header = out@;
    put_body(&mut out, c);
    proof {
        let b = body_bytes(m);
        lemma_append16(
            magic(),
            le(1, 2),
            le(0, 2),
            le(m.generated as nat, 8),
            count(m.name.len()),
            count(m.categories.len()),
            count(m.languages.len()),
            count(m.licenses.len()),
            count(m.pkg_eco.len()),
            count(m.arena.len()),
            b,
            seq![],
            seq![],
            seq![],
            seq![],
            seq![],
            seq![],
        );
        assert(b + seq![] =~= b);
        assert(out@ =~= encode_spec(m));
    }
    out
}


pub proof fn lemma_pow256_values()
    ensures
        pow256(2) == 0x1_0000,
        pow256(4) == 0x1_0000_0000,
        pow256(8) == 0x1_0000_0000_0000_0000,
{
    reveal_with_fuel(pow256, 9);
}

proof fn lemma_pow256_mono(i: nat, j: nat)
    requires
        i <= j,
    ensures
        pow256(i) <= pow256(j),
    decreases j,
{
    if i < j {
        lemma_pow256_mono(i, (j - 1) as nat);
    }
}

/// The `u16` stored at `p`.
pub open spec fn u16_at(b: Seq<u8>, p: int) -> u16 {
    le_val(b.subrange(p, p + 2)) as u16
}

/// The `u32` stored at `p`.
pub open spec fn u32_at(b: Seq<u8>, p: int) -> u32 {
    le_val(b.subrange(p, p + 4)) as u32
}

/// The `u64` stored at `p`.
pub open spec fn u64_at(b: Seq<u8>, p: int) -> u64 {
    le_val(b.subrange(p, p + 8)) as u64
}

/// `n` strings read from the front of `b`.
pub open spec fn strs_of(b: Seq<u8>, n: nat) -> Seq<Str> {
    Seq::new(n, |i: int| Str { off: u32_at(b, 8 * i), len: u32_at(b, 8 * i + 4) })
}

/// `n` `u32`s read from the front of `b`.
pub open spec fn u32s_of(b: Seq<u8>, n: nat) -> Seq<u32> {
    Seq::new(n, |i: int| u32_at(b, 4 * i))
}

/// `n` `u16`s read from the front of `b`.
pub open spec fn u16s_of(b: Seq<u8>, n: nat) -> Seq<u16> {
    Seq::new(n, |i: int| u16_at(b, 2 * i))
}

/// The total size a header with these counts promises.
pub open spec fn expected_len(rows: nat, cats: nat, langs: nat, lics: nat, pkgs: nat, arena: nat) -> nat {
    40 + rows * 38 + (rows + 1) * 4 + (cats + langs + lics) * 8 + pkgs * 9 + arena
}

/// The columns read, in format order, from the bytes after the header.
#[verifier::opaque]
pub open spec fn read_body(
    b: Seq<u8>,
    generated: u64,
    rows: nat,
    cats: nat,
    langs: nat,
    lics: nat,
    pkgs: nat,
) -> CatalogModel {
    let name = strs_of(b, rows);
    let b = b.skip(8 * rows as int);
    let desc = strs_of(b, rows);
    let b = b.skip(8 * rows as int);
    let url = strs_of(b, rows);
    let b = b.skip(8 * rows as int);
    let stars = u32s_of(b, rows);
    let b = b.skip(4 * rows as int);
    let pushed = u32s_of(b, rows);
    let b = b.skip(4 * rows as int);
    let language = u16s_of(b, rows);
    let b = b.skip(2 * rows as int);
    let license = u16s_of(b, rows);
    let b = b.skip(2 * rows as int);
    let category = b.take(rows as int);
    let b = b.skip(rows as int);
    let flags = b.take(rows as int);
    let b = b.skip(rows as int);
    let pkg_start = u32s_of(b, rows + 1);
    let b = b.skip(4 * (rows + 1) as int);
    let categories = strs_of(b, cats);
    let b = b.skip(8 * cats as int);
    let languages = strs_of(b, langs);
    let b = b.skip(8 * langs as int);
    let licenses = strs_of(b, lics);
    let b = b.skip(8 * lics as int);
    let pkg_eco = b.take(pkgs as int);
    let b = b.skip(pkgs as int);
    let pkg_name = strs_of(b, pkgs);
    let arena = b.skip(8 * pkgs as int);
    CatalogModel {
        generated,
        name,
        desc,
        url,
        stars,
        pushed,
        language,
        license,
        category,
        flags,
        pkg_start,
        categories,
        languages,
        licenses,
        pkg_eco,
        pkg_name,
        arena,
    }
}

/// Every string of every column lies inside the arena on character boundaries.
pub open spec fn all_strs_in(m: CatalogModel) -> bool {
    &&& strs_in(m.arena, m.name)
    &&& strs_in(m.arena, m.desc)
    &&& strs_in(m.arena, m.url)
    &&& strs_in(m.arena, m.categories)
    &&& strs_in(m.arena, m.languages)
    &&& strs_in(m.arena, m.licenses)
    &&& strs_in(m.arena, m.pkg_name)
}

pub open spec fn categories_ok(m: CatalogModel) -> bool {
    forall|i: int| 0 <= i < m.category.len() ==> (#[trigger] m.category[i] as int) < m.categories.len()
}

pub open spec fn languages_ok(m: CatalogModel) -> bool {
    forall|i: int| 0 <= i < m.language.len() ==> (#[trigger] m.language[i] as int) < m.languages.len()
}

pub open spec fn licenses_ok(m: CatalogModel) -> bool {
    forall|i: int| 0 <= i < m.license.len() ==> (#[trigger] m.license[i] as int) < m.licenses.len()
}

/// Package ranges start at 0, never go back, and end at the last package.
pub open spec fn ranges_ok(m: CatalogModel) -> bool {
    let n = m.name.len() as int;
    &&& m.pkg_start[0] == 0
    &&& forall|i: int| 0 <= i < n ==> #[trigger] m.pkg_start[i] <= m.pkg_start[i + 1]
    &&& m.pkg_start[n] == m.pkg_eco.len()
}

pub open spec fn urls_ok(m: CatalogModel) -> bool {
    forall|i: int| 0 <= i < m.url.len() ==> spec_valid_url(#[trigger] m.text(m.url[i]))
}

pub open spec fn package_names_ok(m: CatalogModel) -> bool {
    forall|k: int|
        0 <= k < m.pkg_name.len() ==> spec_valid_package_name(#[trigger] m.text(m.pkg_name[k]))
}

/// The first check a catalog read from the wire fails, in the order they run.
#[verifier::opaque]
pub open spec fn validate_spec(m: CatalogModel) -> Result<(), DecodeError> {
    if !no_control(decode_utf8(m.arena)) {
        Err(DecodeError::Corrupt("control character in text"))
    } else if !all_strs_in(m) {
        Err(DecodeError::Corrupt("string out of bounds"))
    } else if !categories_ok(m) {
        Err(DecodeError::Corrupt("category id"))
    } else if !languages_ok(m) {
        Err(DecodeError::Corrupt("language id"))
    } else if !licenses_ok(m) {
        Err(DecodeError::Corrupt("license id"))
    } else if !ranges_ok(m) {
        Err(DecodeError::Corrupt("package ranges"))
    } else if !urls_ok(m) {
        Err(DecodeError::Corrupt("url"))
    } else if !package_names_ok(m) {
        Err(DecodeError::Corrupt("package name"))
    } else {
        Ok(())
    }
}

/// What `decode` makes of `b`.
pub open spec fn decode_spec(b: Seq<u8>) -> Result<CatalogModel, DecodeError> {
    if b.len() < 40 {
        Err(if has_prefix(b, magic()) { DecodeError::BadLength } else { DecodeError::BadMagic })
    } else if !has_prefix(b, magic()) {
        Err(DecodeError::BadMagic)
    } else if u16_at(b, 4) != 1 {
        Err(DecodeError::UnsupportedVersion(u16_at(b, 4)))
    } else {
        let rows = u32_at(b, 16) as nat;
        let cats = u32_at(b, 20) as nat;
        let langs = u32_at(b, 24) as nat;
        let lics = u32_at(b, 28) as nat;
        let pkgs = u32_at(b, 32) as nat;
        let arena = u32_at(b, 36) as nat;
        if expected_len(rows, cats, langs, lics, pkgs, arena) != b.len() {
            Err(DecodeError::BadLength)
        } else if cats > 256 || langs > 65536 || lics > 65536 {
            Err(DecodeError::Corrupt("table too large"))
        } else {
            decode_columns(read_body(b.skip(40), u64_at(b, 8), rows, cats, langs, lics, pkgs))
        }
    }
}

/// What `decode` makes of the columns once the header has passed.
#[verifier::opaque]
pub open spec fn decode_columns(m: CatalogModel) -> Result<CatalogModel, DecodeError> {
    if !valid_utf8(m.arena) {
        Err(DecodeError::Corrupt("arena is not utf-8"))
    } else {
        match validate_spec(m) {
            Ok(()) => Ok(m),
            Err(e) => Err(e),
        }
    }
}

/// The little-endian value of the `w` bytes at `pos`.
fn read_le(b: &[u8], pos: usize, w: usize) -> (r: u64)
    requires
        pos + w <= b@.len(),
        w <= 8,
    ensures
        r == le_val(b@.subrange(pos as int, pos + w)),
{
    let blen = b.len();
    let mut v: u64 = 0;
    let mut k: usize = w;
    while k > 0
        invariant
            blen == b@.len(),
            k <= w <= 8,
            pos + w <= b@.len(),
            v == le_val(b@.subrange(pos + k, pos + w)),
        decreases k,
    {
        k -= 1;
        let ghost tail = b@.subrange(pos + k + 1, pos + w);
        proof {
            lemma_le_val_bound(tail);
            lemma_pow256_mono(tail.len(), 7);
            lemma_pow256_values();
            assert(pow256(8) == 256 * pow256(7));
            assert(v < 0x100_0000_0000_0000);
            assert(v * 256 + 255 <= u64::MAX) by (nonlinear_arith)
                requires
                    v < 0x100_0000_0000_0000,
            ;
            assert(b@.subrange(pos + k, pos + w).drop_first() =~= tail);
        }
        v = v * 256 + b[pos + k] as u64;
    }
    v
}

fn read_u16(b: &[u8], pos: usize) -> (r: u16)
    requires
        pos + 2 <= b@.len(),
    ensures
        r == u16_at(b@, pos as int),
{
    let v = read_le(b, pos, 2);
    proof {
        lemma_le_val_bound(b@.subrange(pos as int, pos + 2));
        lemma_pow256_values();
    }
    v as u16
}

fn read_u32(b: &[u8], pos: usize) -> (r: u32)
    requires
        pos + 4 <= b@.len(),
    ensures
        r == u32_at(b@, pos as int),
{
    let v = read_le(b, pos, 4);
    proof {
        lemma_le_val_bound(b@.subrange(pos as int, pos + 4));
        lemma_pow256_values();
    }
    v as u32
}

fn read_u64(b: &[u8], pos: usize) -> (r: u64)
    requires
        pos + 8 <= b@.len(),
    ensures
        r == u64_at(b@, pos as int),
{
    read_le(b, pos, 8)
}

fn read_strs(b: &[u8], pos: usize, n: usize) -> (r: Vec<Str>)
    requires
        pos + 8 * n <= b@.len(),
    ensures
        r@ == strs_of(b@.skip(pos as int), n as nat),
{
    let ghost rest = b@.skip(pos as int);
    let mut r: Vec<Str> = Vec::new();
    let blen = b.len();
    let mut i: usize = 0;
    while i < n
        invariant
            blen == b@.len(),
            i <= n,
            pos + 8 * n <= b@.len(),
            rest == b@.skip(pos as int),
            r@ =~= strs_of(rest, n as nat).take(i as int),
        decreases n - i,
    {
        let p = pos + 8 * i;
        let off = read_u32(b, p);
        let len = read_u32(b, p + 4);
        assert(rest.subrange(8 * i, 8 * i + 4) =~= b@.subrange(p as int, p + 4));
        assert(rest.subrange(8 * i + 4, 8 * i + 8) =~= b@.subrange(p + 4, p + 8));
        r.push(Str { off, len });
        i += 1;
    }
    r
}

fn read_u32s(b: &[u8], pos: usize, n: usize) -> (r: Vec<u32>)
    requires
        pos + 4 * n <= b@.len(),
    ensures
        r@ == u32s_of(b@.skip(pos as int), n as nat),
{
    let ghost rest = b@.skip(pos as int);
    let mut r: Vec<u32> = Vec::new();
    let blen = b.len();
    let mut i: usize = 0;
    while i < n
        invariant
            blen == b@.len(),
            i <= n,
            pos + 4 * n <= b@.len(),
            rest == b@.skip(pos as int),
            r@ =~= u32s_of(rest, n as nat).take(i as int),
        decreases n - i,
    {
        let p = pos + 4 * i;
        let x = read_u32(b, p);
        assert(rest.subrange(4 * i, 4 * i + 4) =~= b@.subrange(p as int, p + 4));
        r.push(x);
        i += 1;
    }
    r
}

fn read_u16s(b: &[u8], pos: usize, n: usize) -> (r: Vec<u16>)
    requires
        pos + 2 * n <= b@.len(),
    ensures
        r@ == u16s_of(b@.skip(pos as int), n as nat),
{
    let ghost rest = b@.skip(pos as int);
    let mut r: Vec<u16> = Vec::new();
    let blen = b.len();
    let mut i: usize = 0;
    while i < n
        invariant
            blen == b@.len(),
            i <= n,
            pos + 2 * n <= b@.len(),
            rest == b@.skip(pos as int),
            r@ =~= u16s_of(rest, n as nat).take(i as int),
        decreases n - i,
    {
        let p = pos + 2 * i;
        let x = read_u16(b, p);
        assert(rest.subrange(2 * i, 2 * i + 2) =~= b@.subrange(p as int, p + 2));
        r.push(x);
        i += 1;
    }
    r
}

fn read_bytes(b: &[u8], pos: usize, n: usize) -> (r: Vec<u8>)
    requires
        pos + n <= b@.len(),
    ensures
        r@ == b@.skip(pos as int).take(n as int),
{
    let mut r: Vec<u8> = Vec::new();
    let blen = b.len();
    let mut i: usize = 0;
    while i < n
        invariant
            blen == b@.len(),
            i <= n,
            pos + n <= b@.len(),
            r@ =~= b@.skip(pos as int).take(i as int),
        decreases n - i,
    {
        r.push(b[pos + i]);
        i += 1;
    }
    r
}


/// `std::str::from_utf8`: the bytes as text when they are UTF-8, nothing
/// otherwise.
#[verifier::external_body]
fn utf8_text(b: &[u8]) -> (r: Option<&str>)
    ensures
        r is Some <==> valid_utf8(b@),
        r matches Some(t) ==> t.spec_bytes() == b@,
{
    match std::str::from_utf8(b) {
        Ok(t) => Some(t),
        Err(_) => None,
    }
}

/// Whether some character of `t` is a control character.
fn has_control(t: &str) -> (r: bool)
    ensures
        r == !no_control(t@),
{
    for c in it: t.chars()
        invariant
            it.seq() == t@,
            forall|j: int| 0 <= j < it.index() ==> !spec_is_control(#[trigger] t@[j]),
    {
        if is_control(c) {
            return true;
        }
    }
    false
}

/// Whether every string of `col` lies inside `arena` on character boundaries.
fn strs_ok(col: &Vec<Str>, arena: &str) -> (r: bool)
    ensures
        r == strs_in(arena.spec_bytes(), col@),
{
    let alen = arena.as_bytes().len();
    let mut i: usize = 0;
    while i < col.len()
        invariant
            i <= col@.len(),
            alen == arena.spec_bytes().len(),
            forall|j: int| 0 <= j < i ==> str_in(arena.spec_bytes(), #[trigger] col@[j]),
        decreases col@.len() - i,
    {
        let s = col[i];
        let end: u64 = s.off as u64 + s.len as u64;
        if end > alen as u64 || !arena.is_char_boundary(s.off as usize) || !arena.is_char_boundary(
            end as usize,
        ) {
            assert(!str_in(arena.spec_bytes(), col@[i as int]));
            return false;
        }
        i += 1;
    }
    true
}

/// Whether every id in `ids` indexes a table of `n` entries.
fn u8_ids_ok(ids: &Vec<u8>, n: usize) -> (r: bool)
    ensures
        r == forall|i: int| 0 <= i < ids@.len() ==> (#[trigger] ids@[i] as int) < n,
{
    let mut i: usize = 0;
    while i < ids.len()
        invariant
            i <= ids@.len(),
            forall|j: int| 0 <= j < i ==> (#[trigger] ids@[j] as int) < n,
        decreases ids@.len() - i,
    {
        if ids[i] as usize >= n {
            return false;
        }
        i += 1;
    }
    true
}

fn u16_ids_ok(ids: &Vec<u16>, n: usize) -> (r: bool)
    ensures
        r == forall|i: int| 0 <= i < ids@.len() ==> (#[trigger] ids@[i] as int) < n,
{
    let mut i: usize = 0;
    while i < ids.len()
        invariant
            i <= ids@.len(),
            forall|j: int| 0 <= j < i ==> (#[trigger] ids@[j] as int) < n,
        decreases ids@.len() - i,
    {
        if ids[i] as usize >= n {
            return false;
        }
        i += 1;
    }
    true
}

/// Whether package ranges start at 0, never go back and end at `pkgs`.
fn starts_ok(pkg_start: &Vec<u32>, rows: usize, pkgs: usize) -> (r: bool)
    requires
        pkg_start@.len() == rows + 1,
    ensures
        r == (pkg_start@[0] == 0 && (forall|i: int|
            0 <= i < rows ==> #[trigger] pkg_start@[i] <= pkg_start@[i + 1])
            && pkg_start@[rows as int] == pkgs),
{
    if pkg_start[0] != 0 || pkg_start[rows] as usize != pkgs {
        return false;
    }
    let mut i: usize = 0;
    while i < rows
        invariant
            i <= rows,
            pkg_start@.len() == rows + 1,
            forall|j: int| 0 <= j < i ==> #[trigger] pkg_start@[j] <= pkg_start@[j + 1],
        decreases rows - i,
    {
        if pkg_start[i] > pkg_start[i + 1] {
            return false;
        }
        i += 1;
    }
    true
}

/// Whether the text of every string of `col` is a web URL.
fn urls_valid(col: &Vec<Str>, arena: &String) -> (r: bool)
    requires
        strs_in(encode_utf8(arena@), col@),
    ensures
        r == forall|i: int|
            0 <= i < col@.len() ==> spec_valid_url(#[trigger] text_of(encode_utf8(arena@), col@[i])),
{
    let mut i: usize = 0;
    while i < col.len()
        invariant
            i <= col@.len(),
            strs_in(encode_utf8(arena@), col@),
            forall|j: int|
                0 <= j < i ==> spec_valid_url(#[trigger] text_of(encode_utf8(arena@), col@[j])),
        decreases col@.len() - i,
    {
        if !valid_url(arena_str(arena, col[i])) {
            return false;
        }
        i += 1;
    }
    true
}

/// Whether the text of every string of `col` is a valid package name.
fn package_names_valid(col: &Vec<Str>, arena: &String) -> (r: bool)
    requires
        strs_in(encode_utf8(arena@), col@),
    ensures
        r == forall|i: int|
            0 <= i < col@.len() ==> spec_valid_package_name(
                #[trigger] text_of(encode_utf8(arena@), col@[i]),
            ),
{
    let mut i: usize = 0;
    while i < col.len()
        invariant
            i <= col@.len(),
            strs_in(encode_utf8(arena@), col@),
            forall|j: int|
                0 <= j < i ==> spec_valid_package_name(
                    #[trigger] text_of(encode_utf8(arena@), col@[j]),
                ),
        decreases col@.len() - i,
    {
        if !valid_package_name(arena_str(arena, col[i])) {
            return false;
        }
        i += 1;
    }
    true
}

/// Runs the checks of `validate_spec` on columns read from the wire.
#[verifier::rlimit(40)]
fn validate(
    name: &Vec<Str>,
    desc: &Vec<Str>,
    url: &Vec<Str>,
    language: &Vec<u16>,
    license: &Vec<u16>,
    category: &Vec<u8>,
    pkg_start: &Vec<u32>,
    categories: &Vec<Str>,
    languages: &Vec<Str>,
    licenses: &Vec<Str>,
    pkgs: usize,
    pkg_name: &Vec<Str>,
    arena: &String,
    Ghost(m): Ghost<CatalogModel>,
) -> (r: Result<(), DecodeError>)
    requires
        m.name == name@,
        m.desc == desc@,
        m.url == url@,
        m.language == language@,
        m.license == license@,
        m.category == category@,
        m.pkg_start == pkg_start@,
        m.categories == categories@,
        m.languages == languages@,
        m.licenses == licenses@,
        m.pkg_eco.len() == pkgs,
        m.pkg_name == pkg_name@,
        m.arena == encode_utf8(arena@),
        pkg_start@.len() == name@.len() + 1,
    ensures
        r == validate_spec(m),
{
    reveal(validate_spec);
    let text = arena.as_str();
    proof {
        vstd::utf8::encode_utf8_decode_utf8(arena@);
    }
    if has_control(text) {
        return Err(DecodeError::Corrupt("control character in text"));
    }
    let in_bounds = strs_ok(name, text) && strs_ok(desc, text) && strs_ok(url, text) && strs_ok(
        categories,
        text,
    ) && strs_ok(languages, text) && strs_ok(licenses, text) && strs_ok(pkg_name, text);
    assert(in_bounds == all_strs_in(m));
    if !in_bounds {
        return Err(DecodeError::Corrupt("string out of bounds"));
    }
    if !u8_ids_ok(category, categories.len()) {
        return Err(DecodeError::Corrupt("category id"));
    }
    if !u16_ids_ok(language, languages.len()) {
        return Err(DecodeError::Corrupt("language id"));
    }
    if !u16_ids_ok(license, licenses.len()) {
        return Err(DecodeError::Corrupt("license id"));
    }
    if !starts_ok(pkg_start, name.len(), pkgs) {
        return Err(DecodeError::Corrupt("package ranges"));
    }
    let urls = urls_valid(url, arena);
    assert(urls == urls_ok(m)) by {
        assert forall|i: int| 0 <= i < m.url.len() implies m.text(m.url[i]) == text_of(
            encode_utf8(arena@),
            url@[i],
        ) by {}
    }
    if !urls {
        return Err(DecodeError::Corrupt("url"));
    }
    let names = package_names_valid(pkg_name, arena);
    assert(names == package_names_ok(m)) by {
        assert forall|i: int| 0 <= i < m.pkg_name.len() implies m.text(m.pkg_name[i]) == text_of(
            encode_utf8(arena@),
            pkg_name@[i],
        ) by {}
    }
    if !names {
        return Err(DecodeError::Corrupt("package name"));
    }
    Ok(())
}


/// Columns that pass the checks, with lengths as the header gave them, make a
/// well-formed catalog.
proof fn lemma_valid_wf(m: CatalogModel)
    requires
        m.name.len() <= u32::MAX,
        m.desc.len() == m.name.len(),
        m.url.len() == m.name.len(),
        m.stars.len() == m.name.len(),
        m.pushed.len() == m.name.len(),
        m.language.len() == m.name.len(),
        m.license.len() == m.name.len(),
        m.category.len() == m.name.len(),
        m.flags.len() == m.name.len(),
        m.pkg_start.len() == m.name.len() + 1,
        m.pkg_name.len() == m.pkg_eco.len(),
        m.pkg_eco.len() <= u32::MAX,
        m.categories.len() <= u32::MAX,
        m.languages.len() <= u32::MAX,
        m.licenses.len() <= u32::MAX,
        m.arena.len() <= u32::MAX,
        valid_utf8(m.arena),
        validate_spec(m) is Ok,
    ensures
        m.wf(),
{
    reveal(validate_spec);
}

/// The counts a header announces, once it has passed its checks.
struct Header {
    generated: u64,
    rows: usize,
    cats: usize,
    langs: usize,
    lics: usize,
    pkgs: usize,
    arena: usize,
}

/// Checks the header of `bytes`; on success what `decode` returns rests on
/// the columns alone.
fn read_header(bytes: &[u8]) -> (r: Result<Header, DecodeError>)
    ensures
        r matches Err(e) ==> decode_spec(bytes@) == Err::<CatalogModel, DecodeError>(e),
        r matches Ok(h) ==> {
            &&& decode_spec(bytes@) == decode_columns(
                read_body(
                    bytes@.skip(40),
                    h.generated,
                    h.rows as nat,
                    h.cats as nat,
                    h.langs as nat,
                    h.lics as nat,
                    h.pkgs as nat,
                ),
            )
            &&& bytes@.len() == expected_len(
                h.rows as nat,
                h.cats as nat,
                h.langs as nat,
                h.lics as nat,
                h.pkgs as nat,
                h.arena as nat,
            )
            &&& h.rows <= u32::MAX
            &&& h.pkgs <= u32::MAX
            &&& h.arena <= u32::MAX
            &&& h.cats <= 256
            &&& h.langs <= 65536
            &&& h.lics <= 65536
        },
{
    let blen = bytes.len();
    let tag: [u8; 4] = [0x54, 0x55, 0x49, 0x4d];
    assert(tag@ =~= magic());
    if blen < 40 {
        if starts_with(bytes, tag.as_slice()) {
            return Err(DecodeError::BadLength);
        }
        return Err(DecodeError::BadMagic);
    }
    if !starts_with(bytes, tag.as_slice()) {
        return Err(DecodeError::BadMagic);
    }
    let version = read_u16(bytes, 4);
    if version != 1 {
        return Err(DecodeError::UnsupportedVersion(version));
    }
    let generated = read_u64(bytes, 8);
    let rows = read_u32(bytes, 16) as u64;
    let cats = read_u32(bytes, 20) as u64;
    let langs = read_u32(bytes, 24) as u64;
    let lics = read_u32(bytes, 28) as u64;
    let pkgs = read_u32(bytes, 32) as u64;
    let arena = read_u32(bytes, 36) as u64;
    // Counts are below 2^32, so this cannot overflow; checking it against the
    // real length bounds every read that follows by the input size.
    let expected: u64 = 40 + rows * 38 + (rows + 1) * 4 + (cats + langs + lics) * 8 + pkgs * 9
        + arena;
    if expected != blen as u64 {
        return Err(DecodeError::BadLength);
    }
    if cats > 256 || langs > 65536 || lics > 65536 {
        return Err(DecodeError::Corrupt("table too large"));
    }
    Ok(
        Header {
            generated,
            rows: rows as usize,
            cats: cats as usize,
            langs: langs as usize,
            lics: lics as usize,
            pkgs: pkgs as usize,
            arena: arena as usize,
        },
    )
}

/// Reads a catalog back from the index format, checking everything.
#[verifier::rlimit(100)]
pub fn decode(bytes: &[u8]) -> (r: Result<Catalog, DecodeError>)
    ensures
        r matches Ok(c) ==> decode_spec(bytes@) == Ok::<CatalogModel, DecodeError>(c@),
        r matches Err(e) ==> decode_spec(bytes@) == Err::<CatalogModel, DecodeError>(e),
{
    let h = match read_header(bytes) {
        Ok(h) => h,
        Err(e) => {
            return Err(e);
        },
    };
    let generated = h.generated;
    let rows = h.rows;
    let cats = h.cats;
    let langs = h.langs;
    let lics = h.lics;
    let pkgs = h.pkgs;
    let arena_len = h.arena;
    let blen = bytes.len();
    let ghost b = bytes@;
    let ghost m0 = read_body(b.skip(40), generated, rows as nat, cats as nat, langs as nat, lics as nat, pkgs as nat);
    let mut pos: usize = 40;
    let name = read_strs(bytes, pos, rows);
    pos = pos + 8 * rows;
    assert(b.skip(pos as int) =~= b.skip(40).skip(8 * rows as int));
    let ghost b1 = b.skip(pos as int);
    let desc = read_strs(bytes, pos, rows);
    pos = pos + 8 * rows;
    assert(b.skip(pos as int) =~= b1.skip(8 * rows as int));
    let ghost b2 = b.skip(pos as int);
    let url = read_strs(bytes, pos, rows);
    pos = pos + 8 * rows;
    assert(b.skip(pos as int) =~= b2.skip(8 * rows as int));
    let ghost b3 = b.skip(pos as int);
    let stars = read_u32s(bytes, pos, rows);
    pos = pos + 4 * rows;
    assert(b.skip(pos as int) =~= b3.skip(4 * rows as int));
    let ghost b4 = b.skip(pos as int);
    let pushed = read_u32s(bytes, pos, rows);
    pos = pos + 4 * rows;
    assert(b.skip(pos as int) =~= b4.skip(4 * rows as int));
    let ghost b5 = b.skip(pos as int);
    let language = read_u16s(bytes, pos, rows);
    pos = pos + 2 * rows;
    assert(b.skip(pos as int) =~= b5.skip(2 * rows as int));
    let ghost b6 = b.skip(pos as int);
    let license = read_u16s(bytes, pos, rows);
    pos = pos + 2 * rows;
    assert(b.skip(pos as int) =~= b6.skip(2 * rows as int));
    let ghost b7 = b.skip(pos as int);
    let category = read_bytes(bytes, pos, rows);
    pos = pos + rows;
    assert(b.skip(pos as int) =~= b7.skip(rows as int));
    let ghost b8 = b.skip(pos as int);
    let flags = read_bytes(bytes, pos, rows);
    pos = pos + rows;
    assert(b.skip(pos as int) =~= b8.skip(rows as int));
    let ghost b9 = b.skip(pos as int);
    let pkg_start = read_u32s(bytes, pos, rows + 1);
    pos = pos + 4 * (rows + 1);
    assert(b.skip(pos as int) =~= b9.skip(4 * (rows + 1) as int));
    let ghost b10 = b.skip(pos as int);
    let categories = read_strs(bytes, pos, cats);
    pos = pos + 8 * cats;
    assert(b.skip(pos as int) =~= b10.skip(8 * cats as int));
    let ghost b11 = b.skip(pos as int);
    let languages = read_strs(bytes, pos, langs);
    pos = pos + 8 * langs;
    assert(b.skip(pos as int) =~= b11.skip(8 * langs as int));
    let ghost b12 = b.skip(pos as int);
    let licenses = read_strs(bytes, pos, lics);
    pos = pos + 8 * lics;
    assert(b.skip(pos as int) =~= b12.skip(8 * lics as int));
    let ghost b13 = b.skip(pos as int);
    let pkg_eco = read_bytes(bytes, pos, pkgs);
    pos = pos + pkgs;
    assert(b.skip(pos as int) =~= b13.skip(pkgs as int));
    let ghost b14 = b.skip(pos as int);
    let pkg_name = read_strs(bytes, pos, pkgs);
    pos = pos + 8 * pkgs;
    assert(b.skip(pos as int) =~= b14.skip(8 * pkgs as int));
    let raw = vstd::slice::slice_subrange(bytes, pos, pos + arena_len);
    assert(raw@ =~= b.skip(pos as int));
    let ghost model = CatalogModel {
        generated,
        name: name@,
        desc: desc@,
        url: url@,
        stars: stars@,
        pushed: pushed@,
        language: language@,
        license: license@,
        category: category@,
        flags: flags@,
        pkg_start: pkg_start@,
        categories: categories@,
        languages: languages@,
        licenses: licenses@,
        pkg_eco: pkg_eco@,
        pkg_name: pkg_name@,
        arena: raw@,
    };
    assert(model =~= m0) by {
        reveal(read_body);
    }
    let text = match utf8_text(raw) {
        Some(t) => t,
        None => {
            proof {
                reveal(decode_columns);
            }
            return Err(DecodeError::Corrupt("arena is not utf-8"));
        },
    };
    let arena = text.to_owned();
    assert(encode_utf8(arena@) == raw@);
    match validate(
        &name,
        &desc,
        &url,
        &language,
        &license,
        &category,
        &pkg_start,
        &categories,
        &languages,
        &licenses,
        pkgs,
        &pkg_name,
        &arena,
        Ghost(model),
    ) {
        Err(e) => {
            proof {
                reveal(decode_columns);
            }
            return Err(e);
        },
        Ok(()) => {},
    }
    proof {
        assert(model.categories.len() <= u32::MAX && model.languages.len() <= u32::MAX && model.licenses.len() <= u32::MAX);
        lemma_valid_wf(model);
        reveal(decode_columns);
    }
    Ok(
        Catalog::from_columns(
            generated,
            name,
            desc,
            url,
            stars,
            pushed,
            language,
            license,
            category,
            flags,
            pkg_start,
            categories,
            languages,
            licenses,
            pkg_eco,
            pkg_name,
            arena,
        ),
    )
}


/// Parts of one width laid end to end: each sits at its multiple of the width.
proof fn lemma_uniform(parts: Seq<Seq<u8>>, w: nat)
    requires
        forall|i: int| 0 <= i < parts.len() ==> (#[trigger] parts[i]).len() == w,
    ensures
        concat_all(parts).len() == w * parts.len(),
        forall|i: int|
            0 <= i < parts.len() ==> concat_all(parts).subrange(w * i, w * i + w) == #[trigger] parts[i],
    decreases parts.len(),
{
    if parts.len() > 0 {
        let init = parts.drop_last();
        let n = parts.len();
        lemma_uniform(init, w);
        assert(w * (n - 1) + w == w * n) by (nonlinear_arith);
        let c = concat_all(init);
        assert forall|i: int| 0 <= i < n implies concat_all(parts).subrange(w * i, w * i + w)
            == #[trigger] parts[i] by {
            if i < n - 1 {
                assert(w * i + w <= w * (n - 1)) by (nonlinear_arith)
                    requires
                        i < n - 1,
                        0 <= i,
                ;
                assert(0 <= w * i) by (nonlinear_arith)
                    requires
                        0 <= i,
                ;
                assert(init[i] == parts[i]);
                assert(concat_all(parts).subrange(w * i, w * i + w) =~= c.subrange(w * i, w * i + w));
            } else {
                assert(concat_all(parts).subrange(w * i, w * i + w) =~= parts.last());
            }
        }
    }
}

/// Reading back a string column from its encoding, wherever it is followed.
proof fn lemma_strs_back(xs: Seq<Str>, r: Seq<u8>)
    ensures
        strs_bytes(xs).len() == 8 * xs.len(),
        strs_of(strs_bytes(xs) + r, xs.len()) == xs,
        (strs_bytes(xs) + r).skip(8 * xs.len() as int) == r,
{
    let parts = str_parts(xs, xs.len());
    assert forall|i: int| 0 <= i < parts.len() implies (#[trigger] parts[i]).len() == 8 by {
        lemma_le_len(xs[i].off as nat, 4);
        lemma_le_len(xs[i].len as nat, 4);
    }
    lemma_uniform(parts, 8);
    let x = strs_bytes(xs);
    lemma_pow256_values();
    assert forall|i: int| 0 <= i < xs.len() implies #[trigger] strs_of(x + r, xs.len())[i] == xs[i] by {
        assert(parts[i] == str_bytes(xs[i]));
        lemma_le_roundtrip(xs[i].off as nat, 4);
        lemma_le_roundtrip(xs[i].len as nat, 4);
        let piece = x.subrange(8 * i, 8 * i + 8);
        assert(piece == parts[i]);
        lemma_le_len(xs[i].off as nat, 4);
        assert((x + r).subrange(8 * i, 8 * i + 4) =~= piece.subrange(0, 4));
        assert((x + r).subrange(8 * i + 4, 8 * i + 8) =~= piece.subrange(4, 8));
        assert(piece.subrange(0, 4) =~= le(xs[i].off as nat, 4));
        assert(piece.subrange(4, 8) =~= le(xs[i].len as nat, 4));
    }
    assert(strs_of(x + r, xs.len()) =~= xs);
    assert((x + r).skip(8 * xs.len() as int) =~= r);
}

/// Reading back a `u32` column from its encoding, wherever it is followed.
proof fn lemma_u32s_back(xs: Seq<u32>, r: Seq<u8>)
    ensures
        u32s_bytes(xs).len() == 4 * xs.len(),
        u32s_of(u32s_bytes(xs) + r, xs.len()) == xs,
        (u32s_bytes(xs) + r).skip(4 * xs.len() as int) == r,
{
    let parts = u32_parts(xs, xs.len());
    assert forall|i: int| 0 <= i < parts.len() implies (#[trigger] parts[i]).len() == 4 by {
        lemma_le_len(xs[i] as nat, 4);
    }
    lemma_uniform(parts, 4);
    let x = u32s_bytes(xs);
    lemma_pow256_values();
    assert forall|i: int| 0 <= i < xs.len() implies #[trigger] u32s_of(x + r, xs.len())[i] == xs[i] by {
        assert(parts[i] == le(xs[i] as nat, 4));
        lemma_le_roundtrip(xs[i] as nat, 4);
        assert((x + r).subrange(4 * i, 4 * i + 4) =~= le(xs[i] as nat, 4));
    }
    assert(u32s_of(x + r, xs.len()) =~= xs);
    assert((x + r).skip(4 * xs.len() as int) =~= r);
}

/// Reading back a `u16` column from its encoding, wherever it is followed.
proof fn lemma_u16s_back(xs: Seq<u16>, r: Seq<u8>)
    ensures
        u16s_bytes(xs).len() == 2 * xs.len(),
        u16s_of(u16s_bytes(xs) + r, xs.len()) == xs,
        (u16s_bytes(xs) + r).skip(2 * xs.len() as int) == r,
{
    let parts = u16_parts(xs, xs.len());
    assert forall|i: int| 0 <= i < parts.len() implies (#[trigger] parts[i]).len() == 2 by {
        lemma_le_len(xs[i] as nat, 2);
    }
    lemma_uniform(parts, 2);
    let x = u16s_bytes(xs);
    lemma_pow256_values();
    assert forall|i: int| 0 <= i < xs.len() implies #[trigger] u16s_of(x + r, xs.len())[i] == xs[i] by {
        assert(parts[i] == le(xs[i] as nat, 2));
        lemma_le_roundtrip(xs[i] as nat, 2);
        assert((x + r).subrange(2 * i, 2 * i + 2) =~= le(xs[i] as nat, 2));
    }
    assert(u16s_of(x + r, xs.len()) =~= xs);
    assert((x + r).skip(2 * xs.len() as int) =~= r);
}

/// Reading back a byte column from its encoding, wherever it is followed.
proof fn lemma_bytes_back(xs: Seq<u8>, r: Seq<u8>)
    ensures
        (xs + r).take(xs.len() as int) == xs,
        (xs + r).skip(xs.len() as int) == r,
{
    assert((xs + r).take(xs.len() as int) =~= xs);
    assert((xs + r).skip(xs.len() as int) =~= r);
}


/// The columns of a well-formed catalog read back from their encoding.
#[verifier::spinoff_prover]
#[verifier::rlimit(40)]
proof fn lemma_body_back(m: CatalogModel)
    requires
        m.wf(),
    ensures
        read_body(
            body_bytes(m),
            m.generated,
            m.name.len(),
            m.categories.len(),
            m.languages.len(),
            m.licenses.len(),
            m.pkg_eco.len(),
        ) == m,
        body_bytes(m).len() == m.name.len() * 38 + (m.name.len() + 1) * 4 + (m.categories.len()
            + m.languages.len() + m.licenses.len()) * 8 + m.pkg_eco.len() * 9 + m.arena.len(),
{
    reveal(read_body);
    let t16 = m.arena;
    let t15 = strs_bytes(m.pkg_name) + t16;
    let t14 = m.pkg_eco + t15;
    let t13 = strs_bytes(m.licenses) + t14;
    let t12 = strs_bytes(m.languages) + t13;
    let t11 = strs_bytes(m.categories) + t12;
    let t10 = u32s_bytes(m.pkg_start) + t11;
    let t9 = m.flags + t10;
    let t8 = m.category + t9;
    let t7 = u16s_bytes(m.license) + t8;
    let t6 = u16s_bytes(m.language) + t7;
    let t5 = u32s_bytes(m.pushed) + t6;
    let t4 = u32s_bytes(m.stars) + t5;
    let t3 = strs_bytes(m.url) + t4;
    let t2 = strs_bytes(m.desc) + t3;
    let t1 = strs_bytes(m.name) + t2;
    assert(t1 == body_bytes(m));
    lemma_strs_back(m.name, t2);
    lemma_strs_back(m.desc, t3);
    lemma_strs_back(m.url, t4);
    lemma_u32s_back(m.stars, t5);
    lemma_u32s_back(m.pushed, t6);
    lemma_u16s_back(m.language, t7);
    lemma_u16s_back(m.license, t8);
    lemma_bytes_back(m.category, t9);
    lemma_bytes_back(m.flags, t10);
    lemma_u32s_back(m.pkg_start, t11);
    lemma_strs_back(m.categories, t12);
    lemma_strs_back(m.languages, t13);
    lemma_strs_back(m.licenses, t14);
    lemma_bytes_back(m.pkg_eco, t15);
    lemma_strs_back(m.pkg_name, t16);
    let r = read_body(
        t1,
        m.generated,
        m.name.len(),
        m.categories.len(),
        m.languages.len(),
        m.licenses.len(),
        m.pkg_eco.len(),
    );
    assert(r =~= m);
}

/// The header of an encoded catalog reads back as the catalog's counts.
#[verifier::spinoff_prover]
#[verifier::rlimit(60)]
proof fn lemma_header_back(m: CatalogModel)
    requires
        m.name.len() <= u32::MAX,
        m.categories.len() <= u32::MAX,
        m.languages.len() <= u32::MAX,
        m.licenses.len() <= u32::MAX,
        m.pkg_eco.len() <= u32::MAX,
        m.arena.len() <= u32::MAX,
    ensures
        ({
            let b = encode_spec(m);
            &&& b.len() == 40 + body_bytes(m).len()
            &&& has_prefix(b, magic())
            &&& u16_at(b, 4) == 1
            &&& u64_at(b, 8) == m.generated
            &&& u32_at(b, 16) == m.name.len()
            &&& u32_at(b, 20) == m.categories.len()
            &&& u32_at(b, 24) == m.languages.len()
            &&& u32_at(b, 28) == m.licenses.len()
            &&& u32_at(b, 32) == m.pkg_eco.len()
            &&& u32_at(b, 36) == m.arena.len()
            &&& b.skip(40) == body_bytes(m)
        }),
{
    let b = encode_spec(m);
    lemma_pow256_values();
    lemma_le_roundtrip(1, 2);
    lemma_le_roundtrip(0, 2);
    lemma_le_roundtrip(m.generated as nat, 8);
    lemma_le_roundtrip(m.name.len(), 4);
    lemma_le_roundtrip(m.categories.len(), 4);
    lemma_le_roundtrip(m.languages.len(), 4);
    lemma_le_roundtrip(m.licenses.len(), 4);
    lemma_le_roundtrip(m.pkg_eco.len(), 4);
    lemma_le_roundtrip(m.arena.len(), 4);
    assert(b.subrange(0, 4) =~= magic());
    assert(b.subrange(4, 6) =~= le(1, 2));
    assert(b.subrange(8, 16) =~= le(m.generated as nat, 8));
    assert(b.subrange(16, 20) =~= count(m.name.len()));
    assert(b.subrange(20, 24) =~= count(m.categories.len()));
    assert(b.subrange(24, 28) =~= count(m.languages.len()));
    assert(b.subrange(28, 32) =~= count(m.licenses.len()));
    assert(b.subrange(32, 36) =~= count(m.pkg_eco.len()));
    assert(b.subrange(36, 40) =~= count(m.arena.len()));
    assert(b.skip(40) =~= body_bytes(m));
}

/// Decoding what `encode` wrote gives the same catalog back, for every
/// catalog whose URLs are web URLs and whose tables fit their id widths.
pub proof fn law_decode_encode(m: CatalogModel)
    requires
        m.wf(),
        urls_ok(m),
        m.categories.len() <= 256,
        m.languages.len() <= 65536,
        m.licenses.len() <= 65536,
    ensures
        decode_spec(encode_spec(m)) == Ok::<CatalogModel, DecodeError>(m),
{
    lemma_header_back(m);
    lemma_body_back(m);
    let b = encode_spec(m);
    assert(validate_spec(m) is Ok) by {
        reveal(validate_spec);
    }
    reveal(decode_columns);
}


/// Every truncation of an encoded catalog is refused.
pub proof fn law_truncation_rejected(m: CatalogModel, k: int)
    requires
        m.wf(),
        0 <= k < encode_spec(m).len(),
    ensures
        decode_spec(encode_spec(m).take(k)) is Err,
{
    lemma_header_back(m);
    lemma_body_back(m);
    let b = encode_spec(m);
    let t = b.take(k);
    if k >= 40 {
        assert(t.subrange(0, 4) =~= b.subrange(0, 4));
        assert(t.subrange(4, 6) =~= b.subrange(4, 6));
        assert(t.subrange(16, 20) =~= b.subrange(16, 20));
        assert(t.subrange(20, 24) =~= b.subrange(20, 24));
        assert(t.subrange(24, 28) =~= b.subrange(24, 28));
        assert(t.subrange(28, 32) =~= b.subrange(28, 32));
        assert(t.subrange(32, 36) =~= b.subrange(32, 36));
        assert(t.subrange(36, 40) =~= b.subrange(36, 40));
    }
}

/// An encoded catalog followed by anything more is refused as the wrong length.
pub proof fn law_trailing_rejected(m: CatalogModel, extra: Seq<u8>)
    requires
        m.wf(),
        extra.len() > 0,
    ensures
        decode_spec(encode_spec(m) + extra) == Err::<CatalogModel, DecodeError>(DecodeError::BadLength),
{
    lemma_header_back(m);
    lemma_body_back(m);
    let b = encode_spec(m);
    let t = b + extra;
    assert(t.subrange(0, 4) =~= b.subrange(0, 4));
    assert(t.subrange(4, 6) =~= b.subrange(4, 6));
    assert(t.subrange(16, 20) =~= b.subrange(16, 20));
    assert(t.subrange(20, 24) =~= b.subrange(20, 24));
    assert(t.subrange(24, 28) =~= b.subrange(24, 28));
    assert(t.subrange(28, 32) =~= b.subrange(28, 32));
    assert(t.subrange(32, 36) =~= b.subrange(32, 36));
    assert(t.subrange(36, 40) =~= b.subrange(36, 40));
}

} // verus!
