//! Filtering, searching and sorting: turns a [`Query`] into a view, which is
//! just a vector of row ids.

use vstd::prelude::*;
use vstd::utf8::{decode_utf8, encode_utf8_decode_utf8};

use nucleo_matcher::pattern::{CaseMatching, Normalization, Pattern};
use nucleo_matcher::{Config, Matcher, Utf32Str};

use crate::catalog::{spec_is_archived, spec_pushed, spec_stars, Catalog, CatalogModel, Row};
use crate::installed::{Installed, InstalledView};
use crate::text::{chars_of, lower_all, string_of, trim, trim_range};

verus! {

#[derive(Clone, Copy, Debug, PartialEq, Eq, Structural)]
pub enum Sort {
    Stars,
    Name,
    Updated,
}

impl Sort {
    pub fn next(self) -> (r: Sort)
        ensures
            r == match self {
                Sort::Stars => Sort::Updated,
                Sort::Updated => Sort::Name,
                Sort::Name => Sort::Stars,
            },
    {
        match self {
            Sort::Stars => Sort::Updated,
            Sort::Updated => Sort::Name,
            Sort::Name => Sort::Stars,
        }
    }

    pub fn label(self) -> (r: &'static str)
        ensures
            r@ == match self {
                Sort::Stars => "stars"@,
                Sort::Name => "name"@,
                Sort::Updated => "updated"@,
            },
    {
        match self {
            Sort::Stars => "stars",
            Sort::Name => "name",
            Sort::Updated => "updated",
        }
    }
}

impl Default for Sort {
    fn default() -> (r: Sort)
        ensures
            r == Sort::Stars,
    {
        Sort::Stars
    }
}

#[derive(Clone, Debug, PartialEq, Eq)]
pub struct Query {
    pub text: String,
    pub category: Option<u8>,
    pub language: Option<u16>,
    pub min_stars: u32,
    pub installed_only: bool,
    pub installable_only: bool,
    pub show_archived: bool,
    pub sort: Sort,
}

impl Default for Query {
    fn default() -> (r: Query)
        ensures
            r.text@.len() == 0,
            r.category is None,
            r.language is None,
            r.min_stars == 0,
            !r.installed_only,
            !r.installable_only,
            !r.show_archived,
            r.sort == Sort::Stars,
    {
        Query {
            text: String::new(),
            category: None,
            language: None,
            min_stars: 0,
            installed_only: false,
            installable_only: false,
            show_archived: false,
            sort: Sort::Stars,
        }
    }
}

/// The query as plain values.
pub struct QueryModel {
    pub text: Seq<char>,
    pub category: Option<u8>,
    pub language: Option<u16>,
    pub min_stars: u32,
    pub installed_only: bool,
    pub installable_only: bool,
    pub show_archived: bool,
    pub sort: Sort,
}

pub open spec fn query_model(q: Query) -> QueryModel {
    QueryModel {
        text: q.text@,
        category: q.category,
        language: q.language,
        min_stars: q.min_stars,
        installed_only: q.installed_only,
        installable_only: q.installable_only,
        show_archived: q.show_archived,
        sort: q.sort,
    }
}

#[verifier::external_type_specification]
#[verifier::external_body]
pub struct ExMatcher(Matcher);

/// `nucleo_matcher::Matcher::new` with the default configuration.
#[verifier::external_body]
fn new_matcher() -> Matcher {
    Matcher::new(Config::DEFAULT)
}

/// The score `nucleo_matcher::pattern::Pattern::score` gives `text` for
/// `query` parsed with `Pattern::parse`, ignoring case and with smart
/// normalisation; `None` when it does not match.
pub uninterp spec fn fuzzy_score(query: Seq<char>, text: Seq<char>) -> Option<u32>;

/// Parses `query` with `nucleo_matcher::pattern::Pattern::parse` (case
/// ignored, smart normalisation) and scores `text` with `Pattern::score`,
/// using `matcher` as scratch space. The contract names the result as a
/// function of the two texts; what the matcher's scratch space holds
/// afterwards is left unsaid.
#[verifier::external_body]
fn fuzzy(matcher: &mut Matcher, query: &str, text: &str) -> (r: Option<u32>)
    ensures
        r == fuzzy_score(query@, text@),
{
    let pattern = Pattern::parse(query, CaseMatching::Ignore, Normalization::Smart);
    let mut buf = Vec::new();
    pattern.score(Utf32Str::new(text, &mut buf), matcher)
}

/// The text of a catalog string.
pub open spec fn text_chars(m: CatalogModel, s: crate::catalog::Str) -> Seq<char> {
    decode_utf8(m.text(s))
}

pub open spec fn stars_or_zero(m: CatalogModel, row: int) -> u32 {
    match spec_stars(m.stars[row]) {
        Some(s) => s,
        None => 0,
    }
}

pub open spec fn pushed_or_zero(m: CatalogModel, row: int) -> u32 {
    match spec_pushed(m.pushed[row]) {
        Some(d) => d,
        None => 0,
    }
}

/// Whether `row` passes every filter of `q` but the text and the category.
pub open spec fn passes(m: CatalogModel, inst: InstalledView, q: QueryModel, row: int) -> bool {
    &&& q.show_archived || !spec_is_archived(m.flags[row])
    &&& stars_or_zero(m, row) >= q.min_stars
    &&& match q.language {
        Some(l) => l == m.language[row],
        None => true,
    }
    &&& !q.installed_only || inst.installed[row] != 0
    &&& !q.installable_only || inst.available[row] != 0
}

/// `a + b`, saturating at `u32::MAX`.
pub open spec fn saturating(a: u32, b: u32) -> u32 {
    if a + b > u32::MAX {
        u32::MAX
    } else {
        (a + b) as u32
    }
}

/// A hit in the name always outranks a hit in the description.
pub open spec fn text_score(pattern: Seq<char>, name: Seq<char>, desc: Seq<char>) -> Option<u32> {
    match fuzzy_score(pattern, name) {
        Some(s) => Some(saturating(s, 0x10_0000)),
        None => fuzzy_score(pattern, desc),
    }
}

/// The score of `row` under `q`, when it is in the view before the category
/// filter: 0 without search text.
pub open spec fn row_score(m: CatalogModel, inst: InstalledView, q: QueryModel, row: int) -> Option<u32> {
    if !passes(m, inst, q, row) {
        None
    } else if trim(q.text).len() == 0 {
        Some(0)
    } else {
        text_score(trim(q.text), text_chars(m, m.name[row]), text_chars(m, m.desc[row]))
    }
}

pub open spec fn score_of(m: CatalogModel, inst: InstalledView, q: QueryModel, row: int) -> u32 {
    match row_score(m, inst, q, row) {
        Some(s) => s,
        None => 0,
    }
}

/// Whether `row` is in the view of `q`.
pub open spec fn selected(m: CatalogModel, inst: InstalledView, q: QueryModel, row: int) -> bool {
    &&& 0 <= row < m.rows()
    &&& row_score(m, inst, q, row) is Some
    &&& match q.category {
        Some(c) => c == m.category[row],
        None => true,
    }
}

/// Rows `0..n` that match `q` in category `c`, whatever the category filter.
pub open spec fn category_hits(m: CatalogModel, inst: InstalledView, q: QueryModel, c: int, n: int) -> nat
    decreases n,
{
    if n <= 0 {
        0
    } else {
        category_hits(m, inst, q, c, n - 1) + if row_score(m, inst, q, n - 1) is Some
            && m.category[n - 1] == c {
            1nat
        } else {
            0nat
        }
    }
}

/// Byte strings in lexicographic order, a proper prefix first.
pub open spec fn lex_less(a: Seq<u8>, b: Seq<u8>) -> bool
    decreases a.len(),
{
    if a.len() == 0 {
        b.len() > 0
    } else if b.len() == 0 {
        false
    } else if a[0] != b[0] {
        a[0] < b[0]
    } else {
        lex_less(a.drop_first(), b.drop_first())
    }
}

pub proof fn lemma_lex_order(a: Seq<u8>, b: Seq<u8>, c: Seq<u8>)
    ensures
        lex_less(a, b) ==> a != b,
        a != b ==> lex_less(a, b) || lex_less(b, a),
        lex_less(a, b) && lex_less(b, c) ==> lex_less(a, c),
    decreases a.len(),
{
    if a.len() > 0 && b.len() > 0 && c.len() > 0 {
        lemma_lex_order(a.drop_first(), b.drop_first(), c.drop_first());
        if a != b && a[0] == b[0] {
            assert(a.drop_first() != b.drop_first()) by {
                if a.drop_first() == b.drop_first() {
                    assert(a =~= seq![a[0]] + a.drop_first());
                    assert(b =~= seq![b[0]] + b.drop_first());
                }
            }
        }
    } else if a.len() > 0 && b.len() > 0 {
        lemma_lex_order(a.drop_first(), b.drop_first(), seq![]);
        if a != b && a[0] == b[0] {
            assert(a.drop_first() != b.drop_first()) by {
                if a.drop_first() == b.drop_first() {
                    assert(a =~= seq![a[0]] + a.drop_first());
                    assert(b =~= seq![b[0]] + b.drop_first());
                }
            }
        }
    } else if a.len() == 0 && b.len() == 0 {
        assert(a =~= b);
    }
}

/// The lowercase bytes of the name of `row`, which the name sort compares.
pub open spec fn name_key(m: CatalogModel, row: int) -> Seq<u8> {
    lower_all(m.text(m.name[row]))
}

/// Whether `a` comes before `b` in the view: by tier (name hits above
/// description hits), then by the chosen sort, then by fuzzy score, then by
/// row.
pub open spec fn before(m: CatalogModel, q: QueryModel, sa: u32, sb: u32, a: int, b: int) -> bool {
    let ta = sa / 0x10_0000;
    let tb = sb / 0x10_0000;
    if ta != tb {
        ta > tb
    } else if q.sort == Sort::Stars && stars_or_zero(m, a) != stars_or_zero(m, b) {
        stars_or_zero(m, a) > stars_or_zero(m, b)
    } else if q.sort == Sort::Name && name_key(m, a) != name_key(m, b) {
        lex_less(name_key(m, a), name_key(m, b))
    } else if q.sort == Sort::Updated && pushed_or_zero(m, a) != pushed_or_zero(m, b) {
        pushed_or_zero(m, a) > pushed_or_zero(m, b)
    } else if sa != sb {
        sa > sb
    } else {
        a < b
    }
}

pub open spec fn in_order(m: CatalogModel, inst: InstalledView, q: QueryModel, a: int, b: int) -> bool {
    before(m, q, score_of(m, inst, q, a), score_of(m, inst, q, b), a, b)
}

proof fn lemma_before(m: CatalogModel, q: QueryModel, sa: u32, sb: u32, sc: u32, a: int, b: int, c: int)
    ensures
        !before(m, q, sa, sa, a, a),
        a != b ==> before(m, q, sa, sb, a, b) || before(m, q, sb, sa, b, a),
        before(m, q, sa, sb, a, b) && before(m, q, sb, sc, b, c) ==> before(m, q, sa, sc, a, c),
{
    lemma_lex_order(name_key(m, a), name_key(m, b), name_key(m, c));
    lemma_lex_order(name_key(m, b), name_key(m, a), name_key(m, c));
    lemma_lex_order(name_key(m, a), name_key(m, a), name_key(m, a));
    lemma_lex_order(name_key(m, c), name_key(m, a), name_key(m, b));
}

/// The view order is a strict total order on rows: no row comes before
/// itself, of two different rows one comes first, and it is transitive. So
/// ties never depend on the order rows were found in.
pub proof fn law_view_order(m: CatalogModel, inst: InstalledView, q: QueryModel, a: int, b: int, c: int)
    ensures
        !in_order(m, inst, q, a, a),
        a != b ==> in_order(m, inst, q, a, b) || in_order(m, inst, q, b, a),
        in_order(m, inst, q, a, b) && in_order(m, inst, q, b, c) ==> in_order(m, inst, q, a, c),
{
    lemma_before(
        m,
        q,
        score_of(m, inst, q, a),
        score_of(m, inst, q, b),
        score_of(m, inst, q, c),
        a,
        b,
        c,
    );
}

/// Whether `rows` is the view of `q`: exactly the selected rows, in order.
pub open spec fn is_view(m: CatalogModel, inst: InstalledView, q: QueryModel, rows: Seq<Row>) -> bool {
    &&& forall|r: Row| #[trigger] rows.contains(r) <==> selected(m, inst, q, r as int)
    &&& forall|i: int, j: int|
        0 <= i < j < rows.len() ==> in_order(m, inst, q, #[trigger] rows[i] as int, #[trigger] rows[j] as int)
}

/// The result of running a query, plus the scratch space to run the next one.
pub struct Matches {
    pub rows: Vec<Row>,
    /// Matches per category under every filter except the category one, so
    /// the sidebar can show where the current search has hits.
    pub category_counts: Vec<u32>,
    scores: Vec<u32>,
    matcher: Matcher,
}

impl Matches {
    /// The rows in view, in order.
    pub closed spec fn shown(&self) -> Seq<Row> {
        self.rows@
    }

    /// Matches per category.
    pub closed spec fn counts(&self) -> Seq<u32> {
        self.category_counts@
    }
}

impl Matches {
    /// The rows in view, in order.
    pub fn rows_in_view(&self) -> (r: &Vec<Row>)
        ensures
            r@ == self.shown(),
    {
        &self.rows
    }
}

impl Default for Matches {
    fn default() -> (r: Matches)
        ensures
            r.shown().len() == 0,
            r.counts().len() == 0,
    {
        Matches { rows: Vec::new(), category_counts: Vec::new(), scores: Vec::new(), matcher: new_matcher() }
    }
}

/// Whether `a` comes before `b` once both are lowercased, byte by byte.
fn byte_lower_before(a: &[u8], b: &[u8]) -> (r: bool)
    ensures
        r == lex_less(lower_all(a@), lower_all(b@)),
{
    let mut i: usize = 0;
    let n = if a.len() < b.len() {
        a.len()
    } else {
        b.len()
    };
    assert(lower_all(a@).skip(0) =~= lower_all(a@));
    assert(lower_all(b@).skip(0) =~= lower_all(b@));
    while i < n
        invariant
            i <= n <= a@.len(),
            n <= b@.len(),
            n == a@.len() || n == b@.len(),
            lex_less(lower_all(a@), lower_all(b@)) == lex_less(
                lower_all(a@).skip(i as int),
                lower_all(b@).skip(i as int),
            ),
        decreases n - i,
    {
        let x = crate::text::byte_lower(a[i]);
        let y = crate::text::byte_lower(b[i]);
        let ghost ra = lower_all(a@).skip(i as int);
        let ghost rb = lower_all(b@).skip(i as int);
        assert(ra[0] == x && rb[0] == y);
        if x != y {
            return x < y;
        }
        assert(ra.drop_first() =~= lower_all(a@).skip(i + 1));
        assert(rb.drop_first() =~= lower_all(b@).skip(i + 1));
        i += 1;
    }
    a.len() < b.len()
}

/// Whether row `a` comes before row `b` in the view of `query`, given the
/// scores of every row up to both.
fn comes_before(catalog: &Catalog, query: &Query, scores: &Vec<u32>, a: Row, b: Row, Ghost(inst): Ghost<InstalledView>) -> (r: bool)
    requires
        catalog@.wf(),
        (a as int) < scores@.len(),
        (b as int) < scores@.len(),
        scores@.len() <= catalog@.rows(),
        forall|x: int| 0 <= x < scores@.len() ==> #[trigger] scores@[x] == score_of(catalog@, inst, query_model(*query), x),
    ensures
        r == in_order(catalog@, inst, query_model(*query), a as int, b as int),
{
    let sa = scores[a as usize];
    let sb = scores[b as usize];
    let ta = sa / 0x10_0000;
    let tb = sb / 0x10_0000;
    if ta != tb {
        return ta > tb;
    }
    match query.sort {
        Sort::Stars => {
            let xa = match catalog.stars(a) {
                Some(s) => s,
                None => 0,
            };
            let xb = match catalog.stars(b) {
                Some(s) => s,
                None => 0,
            };
            if xa != xb {
                return xa > xb;
            }
        },
        Sort::Name => {
            let na = catalog.name(a).as_bytes();
            let nb = catalog.name(b).as_bytes();
            if byte_lower_before(na, nb) {
                proof {
                    lemma_lex_order(name_key(catalog@, a as int), name_key(catalog@, b as int), seq![]);
                }
                return true;
            }
            if byte_lower_before(nb, na) {
                proof {
                    lemma_lex_order(name_key(catalog@, b as int), name_key(catalog@, a as int), seq![]);
                }
                return false;
            }
            proof {
                lemma_lex_order(name_key(catalog@, a as int), name_key(catalog@, b as int), seq![]);
            }
        },
        Sort::Updated => {
            let xa = match catalog.pushed_days(a) {
                Some(d) => d,
                None => 0,
            };
            let xb = match catalog.pushed_days(b) {
                Some(d) => d,
                None => 0,
            };
            if xa != xb {
                return xa > xb;
            }
        },
    }
    if sa != sb {
        return sa > sb;
    }
    a < b
}

/// Inserts `x` into `rows`, which are in view order, where it belongs.
fn insert_in_order(
    rows: &mut Vec<Row>,
    x: Row,
    catalog: &Catalog,
    query: &Query,
    scores: &Vec<u32>,
    Ghost(inst): Ghost<InstalledView>,
)
    requires
        catalog@.wf(),
        scores@.len() <= catalog@.rows(),
        forall|y: int| 0 <= y < scores@.len() ==> #[trigger] scores@[y] == score_of(catalog@, inst, query_model(*query), y),
        (x as int) < scores@.len(),
        !old(rows)@.contains(x),
        forall|i: int| 0 <= i < old(rows)@.len() ==> (#[trigger] old(rows)@[i] as int) < scores@.len(),
        forall|i: int, j: int|
            0 <= i < j < old(rows)@.len() ==> in_order(catalog@, inst, query_model(*query), #[trigger] old(rows)@[i] as int, #[trigger] old(rows)@[j] as int),
    ensures
        forall|y: Row| #[trigger] final(rows)@.contains(y) <==> (old(rows)@.contains(y) || y == x),
        forall|i: int| 0 <= i < final(rows)@.len() ==> (#[trigger] final(rows)@[i] as int) < scores@.len(),
        forall|i: int, j: int|
            0 <= i < j < final(rows)@.len() ==> in_order(catalog@, inst, query_model(*query), #[trigger] final(rows)@[i] as int, #[trigger] final(rows)@[j] as int),
{
    let ghost m = catalog@;
    let ghost q = query_model(*query);
    let mut p = rows.len();
    while p > 0 && comes_before(catalog, query, scores, x, rows[p - 1], Ghost(inst))
        invariant
            m == catalog@,
            q == query_model(*query),
            m.wf(),
            scores@.len() <= m.rows(),
            forall|y: int| 0 <= y < scores@.len() ==> #[trigger] scores@[y] == score_of(m, inst, q, y),
            (x as int) < scores@.len(),
            p <= rows@.len(),
            forall|i: int| 0 <= i < rows@.len() ==> (#[trigger] rows@[i] as int) < scores@.len(),
            forall|j: int| p <= j < rows@.len() ==> in_order(m, inst, q, x as int, #[trigger] rows@[j] as int),
        decreases p,
    {
        p -= 1;
    }
    let ghost old_rows = rows@;
    proof {
        if p > 0 {
            let y = old_rows[p - 1];
            if !in_order(m, inst, q, x as int, y as int) {
                if x == y {
                    assert(old_rows.contains(x));
                }
                lemma_before(m, q, score_of(m, inst, q, x as int), score_of(m, inst, q, y as int), 0, x as int, y as int, 0);
            }
        }
    }
    rows.insert(p, x);
    proof {
        assert forall|i: int, j: int|
            0 <= i < j < rows@.len() implies in_order(m, inst, q, #[trigger] rows@[i] as int, #[trigger] rows@[j] as int) by {
            let a = rows@[i] as int;
            if i < p && j < p {
                assert(rows@[i] == old_rows[i] && rows@[j] == old_rows[j]);
            } else if i < p && j == p {
                let y = old_rows[p - 1];
                if i < p - 1 {
                    assert(in_order(m, inst, q, a, y as int));
                    lemma_before(m, q, score_of(m, inst, q, a), score_of(m, inst, q, y as int), score_of(m, inst, q, x as int), a, y as int, x as int);
                }
            } else if i < p && j > p {
                assert(rows@[i] == old_rows[i] && rows@[j] == old_rows[j - 1]);
            } else if i == p {
                assert(rows@[j] == old_rows[j - 1]);
            } else {
                assert(rows@[i] == old_rows[i - 1] && rows@[j] == old_rows[j - 1]);
            }
        }
        assert forall|i: int| 0 <= i < rows@.len() implies (#[trigger] rows@[i] as int) < scores@.len() by {
            if i < p {
                assert(rows@[i] == old_rows[i]);
            } else if i > p {
                assert(rows@[i] == old_rows[i - 1]);
            }
        }
        assert forall|y: Row| #[trigger] rows@.contains(y) <==> (old_rows.contains(y) || y == x) by {
            if rows@.contains(y) {
                let i = choose|i: int| 0 <= i < rows@.len() && rows@[i] == y;
                if i < p {
                    assert(old_rows[i] == y);
                } else if i > p {
                    assert(old_rows[i - 1] == y);
                }
            }
            if old_rows.contains(y) {
                let i = choose|i: int| 0 <= i < old_rows.len() && old_rows[i] == y;
                if i < p {
                    assert(rows@[i] == y);
                } else {
                    assert(rows@[i + 1] == y);
                }
            }
            assert(rows@[p as int] == x);
        }
    }
}

impl Matches {
    /// Runs `query` over the catalog: the rows that match, in the order the
    /// query asks for, and per category the matches under every filter but
    /// the category one. The buffers of the previous run are reused.
    pub fn run(&mut self, catalog: &Catalog, installed: &Installed, query: &Query)
        requires
            installed@.available.len() == catalog@.rows(),
            installed@.installed.len() == catalog@.rows(),
        ensures
            is_view(catalog@, installed@, query_model(*query), final(self).shown()),
            final(self).counts().len() == catalog@.categories.len(),
            forall|c: int|
                0 <= c < catalog@.categories.len() ==> #[trigger] final(self).counts()[c]
                    == category_hits(catalog@, installed@, query_model(*query), c, catalog@.rows() as int),
    {
        catalog.check_wf();
        let ghost m = catalog@;
        let ghost inst = installed@;
        let ghost q = query_model(*query);
        let n = catalog.len();
        let qc = chars_of(query.text.as_str());
        let (ta, tb) = trim_range(&qc, 0, qc.len());
        assert(qc@.subrange(0, qc@.len() as int) =~= query.text@);
        let pattern = string_of(&qc, ta, tb);
        let searching = ta < tb;
        let ncat = catalog.category_count();
        let mut rows: Vec<Row> = Vec::new();
        let mut scores: Vec<u32> = Vec::new();
        let mut counts: Vec<u32> = Vec::new();
        std::mem::swap(&mut rows, &mut self.rows);
        std::mem::swap(&mut scores, &mut self.scores);
        std::mem::swap(&mut counts, &mut self.category_counts);
        rows.clear();
        scores.clear();
        counts.clear();
        while counts.len() < ncat
            invariant
                counts@.len() <= ncat,
                forall|c: int| 0 <= c < counts@.len() ==> #[trigger] counts@[c] == 0,
            decreases ncat - counts@.len(),
        {
            counts.push(0);
        }
        let mut row: usize = 0;
        while row < n
            invariant
                m == catalog@,
                inst == installed@,
                q == query_model(*query),
                m.wf(),
                n == m.rows(),
                inst.available.len() == n,
                inst.installed.len() == n,
                pattern@ == trim(q.text),
                searching == (trim(q.text).len() > 0),
                row <= n,
                scores@.len() == row,
                forall|r: int| 0 <= r < row ==> #[trigger] scores@[r] == score_of(m, inst, q, r),
                counts@.len() == ncat == m.categories.len(),
                forall|c: int|
                    0 <= c < ncat ==> #[trigger] counts@[c] == category_hits(m, inst, q, c, row as int),
                forall|c: int| 0 <= c < ncat ==> #[trigger] counts@[c] <= row,
                forall|i: int| 0 <= i < rows@.len() ==> (#[trigger] rows@[i] as int) < row,
                forall|r: Row| #[trigger] rows@.contains(r) <==> ((r as int) < row && selected(m, inst, q, r as int)),
                forall|i: int, j: int|
                    0 <= i < j < rows@.len() ==> in_order(m, inst, q, #[trigger] rows@[i] as int, #[trigger] rows@[j] as int),
            decreases n - row,
        {
            let r = row as Row;
            let keep = (query.show_archived || !catalog.is_archived(r)) && (match catalog.stars(r) {
                Some(s) => s,
                None => 0,
            }) >= query.min_stars && (match query.language {
                Some(l) => l == catalog.language_id(r),
                None => true,
            }) && (!query.installed_only || installed.is_installed(r)) && (!query.installable_only
                || installed.is_available(r));
            assert(keep == passes(m, inst, q, row as int));
            let score: Option<u32> = if !keep {
                None
            } else if !searching {
                Some(0)
            } else {
                let name = catalog.name(r);
                let desc = catalog.desc(r);
                proof {
                    encode_utf8_decode_utf8(name@);
                    encode_utf8_decode_utf8(desc@);
                }
                match fuzzy(&mut self.matcher, pattern.as_str(), name) {
                    Some(s) => Some(s.saturating_add(0x10_0000)),
                    None => fuzzy(&mut self.matcher, pattern.as_str(), desc),
                }
            };
            assert(score == row_score(m, inst, q, row as int));
            let ghost old_counts = counts@;
            let ghost old_rows = rows@;
            match score {
                Some(s) => {
                    scores.push(s);
                    let c = catalog.category_id(r);
                    let v = counts[c as usize];
                    counts.set(c as usize, v + 1);
                    if match query.category {
                        Some(f) => f == c,
                        None => true,
                    } {
                        proof {
                            if old_rows.contains(r) {
                                let k = choose|k: int| 0 <= k < old_rows.len() && old_rows[k] == r;
                                assert((old_rows[k] as int) < row);
                            }
                        }
                        insert_in_order(&mut rows, r, catalog, query, &scores, Ghost(inst));
                    }
                },
                None => {
                    scores.push(0);
                },
            }
            proof {
                assert forall|c: int| 0 <= c < ncat implies #[trigger] counts@[c] == category_hits(
                    m,
                    inst,
                    q,
                    c,
                    row + 1,
                ) && counts@[c] <= row + 1 by {
                    assert(old_counts[c] == category_hits(m, inst, q, c, row as int));
                }
                assert forall|x: Row| #[trigger] rows@.contains(x) <==> ((x as int) < row + 1 && selected(m, inst, q, x as int)) by {
                    if (x as int) < row {
                        assert(old_rows.contains(x) <==> ((x as int) < row && selected(m, inst, q, x as int)));
                    }
                    if old_rows.contains(x) {
                        let k = choose|k: int| 0 <= k < old_rows.len() && old_rows[k] == x;
                        assert((old_rows[k] as int) < row);
                    }
                }
            }
            row += 1;
        }
        self.rows = rows;
        self.scores = scores;
        self.category_counts = counts;
    }
}

} // verus!
