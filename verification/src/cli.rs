//! The decisions behind the non-interactive commands: reading `list` filters
//! from the command line, and finding a TUI by name.

use vstd::prelude::*;
use vstd::string::{StringExecFns, StringSliceAdditionalSpecFns};
use vstd::utf8::encode_utf8;

use crate::catalog::{Catalog, CatalogModel, Row};
use crate::installed::Installed;
use crate::num::{parse_u32, spec_parse_u32};
use crate::query::{is_view, query_model, Matches, Query, QueryModel, Sort};
use crate::text::{eq_ignore_case, lower_all, same_text};

verus! {

/// Why a `list` command line was refused.
#[derive(Clone, Debug, PartialEq, Eq)]
pub enum QueryError {
    /// An option that takes a value came last.
    NeedsValue(String),
    /// `--min-stars` was not followed by a number.
    NotANumber,
    NoCategory(String),
    NoLanguage(String),
    BadSort(String),
    UnknownOption(String),
}

pub open spec fn default_model() -> QueryModel {
    QueryModel {
        text: seq![],
        category: None,
        language: None,
        min_stars: 0,
        installed_only: false,
        installable_only: false,
        show_archived: false,
        sort: Sort::Stars,
    }
}

/// An error as its kind and the text it names.
pub open spec fn error_model(e: QueryError) -> (u8, Seq<char>) {
    match e {
        QueryError::NeedsValue(a) => (0, a@),
        QueryError::NotANumber => (1, seq![]),
        QueryError::NoCategory(a) => (2, a@),
        QueryError::NoLanguage(a) => (3, a@),
        QueryError::BadSort(a) => (4, a@),
        QueryError::UnknownOption(a) => (5, a@),
    }
}

/// Words separated by single spaces.
pub open spec fn spaced(words: Seq<Seq<char>>) -> Seq<char>
    decreases words.len(),
{
    if words.len() == 0 {
        seq![]
    } else if words.len() == 1 {
        words[0]
    } else {
        spaced(words.drop_last()) + seq![' '] + words.last()
    }
}

/// Whether two texts are equal once ASCII letters are lowercased.
pub open spec fn same_ignoring_case(a: Seq<u8>, b: Seq<char>) -> bool {
    lower_all(a) == lower_all(encode_utf8(b))
}

/// How many categories an id can name: every one, up to the 256 a `u8` holds.
pub open spec fn category_ids(c: CatalogModel) -> int {
    if c.categories.len() < 256 {
        c.categories.len() as int
    } else {
        256
    }
}

/// How many languages an id can name: every one, up to the 65536 a `u16` holds.
pub open spec fn language_ids(c: CatalogModel) -> int {
    if c.languages.len() < 65536 {
        c.languages.len() as int
    } else {
        65536
    }
}

/// The first category among ids `id..limit` named `v`, ignoring case.
pub open spec fn category_named(c: CatalogModel, v: Seq<char>, id: int, limit: int) -> Option<u8>
    decreases limit - id,
{
    if id >= limit || id >= c.categories.len() {
        None
    } else if same_ignoring_case(c.text(c.categories[id]), v) {
        Some(id as u8)
    } else {
        category_named(c, v, id + 1, limit)
    }
}

/// The first language among ids `id..limit` named `v`, ignoring case.
pub open spec fn language_named(c: CatalogModel, v: Seq<char>, id: int, limit: int) -> Option<u16>
    decreases limit - id,
{
    if id >= limit || id >= c.languages.len() {
        None
    } else if same_ignoring_case(c.text(c.languages[id]), v) {
        Some(id as u16)
    } else {
        language_named(c, v, id + 1, limit)
    }
}

/// What the arguments from `i` on make of a query under way, with the free
/// words seen so far.
pub open spec fn parse_from(
    c: CatalogModel,
    args: Seq<Seq<char>>,
    i: int,
    q: QueryModel,
    words: Seq<Seq<char>>,
) -> Result<QueryModel, (u8, Seq<char>)>
    decreases args.len() - i,
{
    if i < 0 || i >= args.len() {
        Ok(QueryModel { text: spaced(words), ..q })
    } else {
        let arg = args[i];
        let has_value = i + 1 < args.len();
        let v = args[i + 1];
        if arg == "--installed"@ {
            parse_from(c, args, i + 1, QueryModel { installed_only: true, ..q }, words)
        } else if arg == "--installable"@ {
            parse_from(c, args, i + 1, QueryModel { installable_only: true, ..q }, words)
        } else if arg == "--archived"@ {
            parse_from(c, args, i + 1, QueryModel { show_archived: true, ..q }, words)
        } else if arg == "--min-stars"@ {
            if !has_value {
                Err((0, arg))
            } else {
                match spec_parse_u32(encode_utf8(v)) {
                    Some(n) => parse_from(c, args, i + 2, QueryModel { min_stars: n, ..q }, words),
                    None => Err((1, seq![])),
                }
            }
        } else if arg == "--category"@ {
            if !has_value {
                Err((0, arg))
            } else {
                match category_named(c, v, 0, category_ids(c)) {
                    Some(id) => parse_from(c, args, i + 2, QueryModel { category: Some(id), ..q }, words),
                    None => Err((2, v)),
                }
            }
        } else if arg == "--language"@ {
            if !has_value {
                Err((0, arg))
            } else {
                match language_named(c, v, 0, language_ids(c)) {
                    Some(id) => parse_from(c, args, i + 2, QueryModel { language: Some(id), ..q }, words),
                    None => Err((3, v)),
                }
            }
        } else if arg == "--sort"@ {
            if !has_value {
                Err((0, arg))
            } else if v == "stars"@ {
                parse_from(c, args, i + 2, QueryModel { sort: Sort::Stars, ..q }, words)
            } else if v == "name"@ {
                parse_from(c, args, i + 2, QueryModel { sort: Sort::Name, ..q }, words)
            } else if v == "updated"@ {
                parse_from(c, args, i + 2, QueryModel { sort: Sort::Updated, ..q }, words)
            } else {
                Err((4, v))
            }
        } else if arg.len() > 0 && arg[0] == '-' {
            Err((5, arg))
        } else {
            parse_from(c, args, i + 1, q, words.push(arg))
        }
    }
}

/// `q` with the switch `flag` turned on.
pub open spec fn switched(q: QueryModel, flag: Seq<char>) -> QueryModel {
    if flag == "--installed"@ {
        QueryModel { installed_only: true, ..q }
    } else if flag == "--installable"@ {
        QueryModel { installable_only: true, ..q }
    } else {
        QueryModel { show_archived: true, ..q }
    }
}

proof fn lemma_switch_names()
    ensures
        "--installed"@ != "--installable"@,
        "--installed"@ != "--archived"@,
        "--installable"@ != "--archived"@,
{
    reveal_strlit("--installed");
    reveal_strlit("--installable");
    reveal_strlit("--archived");
    assert("--installed"@.len() == 11);
    assert("--installable"@.len() == 13);
    assert("--archived"@.len() == 10);
}

/// A switch added at the end of arguments that parse acts on the query
/// they make.
proof fn lemma_switch_at_end(
    c: CatalogModel,
    args: Seq<Seq<char>>,
    flag: Seq<char>,
    i: int,
    q: QueryModel,
    words: Seq<Seq<char>>,
)
    requires
        flag == "--installed"@ || flag == "--installable"@ || flag == "--archived"@,
        0 <= i <= args.len(),
        parse_from(c, args, i, q, words) is Ok,
    ensures
        parse_from(c, args.push(flag), i, q, words) == Ok::<QueryModel, (u8, Seq<char>)>(
            switched(parse_from(c, args, i, q, words)->Ok_0, flag),
        ),
    decreases args.len() - i,
{
    lemma_switch_names();
    let a2 = args.push(flag);
    if i == args.len() {
        assert(a2[i] == flag);
        let q2 = switched(q, flag);
        assert(parse_from(c, a2, i + 1, q2, words) == Ok::<QueryModel, (u8, Seq<char>)>(
            QueryModel { text: spaced(words), ..q2 },
        ));
        assert(parse_from(c, a2, i, q, words) == parse_from(c, a2, i + 1, q2, words));
    } else {
        let arg = args[i];
        assert(a2[i] == arg);
        let v = args[i + 1];
        if i + 1 < args.len() {
            assert(a2[i + 1] == v);
        }
        if arg == "--installed"@ {
            lemma_switch_at_end(c, args, flag, i + 1, QueryModel { installed_only: true, ..q }, words);
        } else if arg == "--installable"@ {
            lemma_switch_at_end(c, args, flag, i + 1, QueryModel { installable_only: true, ..q }, words);
        } else if arg == "--archived"@ {
            lemma_switch_at_end(c, args, flag, i + 1, QueryModel { show_archived: true, ..q }, words);
        } else if arg == "--min-stars"@ {
            if let Some(n) = spec_parse_u32(encode_utf8(v)) {
                lemma_switch_at_end(c, args, flag, i + 2, QueryModel { min_stars: n, ..q }, words);
            }
        } else if arg == "--category"@ {
            if let Some(id) = category_named(c, v, 0, category_ids(c)) {
                lemma_switch_at_end(c, args, flag, i + 2, QueryModel { category: Some(id), ..q }, words);
            }
        } else if arg == "--language"@ {
            if let Some(id) = language_named(c, v, 0, language_ids(c)) {
                lemma_switch_at_end(c, args, flag, i + 2, QueryModel { language: Some(id), ..q }, words);
            }
        } else if arg == "--sort"@ {
            if v == "stars"@ {
                lemma_switch_at_end(c, args, flag, i + 2, QueryModel { sort: Sort::Stars, ..q }, words);
            } else if v == "name"@ {
                lemma_switch_at_end(c, args, flag, i + 2, QueryModel { sort: Sort::Name, ..q }, words);
            } else if v == "updated"@ {
                lemma_switch_at_end(c, args, flag, i + 2, QueryModel { sort: Sort::Updated, ..q }, words);
            }
        } else if arg.len() > 0 && arg[0] == '-' {
        } else {
            lemma_switch_at_end(c, args, flag, i + 1, q, words.push(arg));
        }
    }
}

/// Each switch turns on its own filter and nothing else: adding
/// `--installed`, `--installable` or `--archived` to a command line that
/// parses gives the same query with just that filter on.
pub proof fn law_switches_set_their_own_filter(c: CatalogModel, args: Seq<Seq<char>>)
    ensures
        parse_from(c, args, 0, default_model(), seq![]) matches Ok(r) ==> {
            &&& parse_from(c, args.push("--installed"@), 0, default_model(), seq![]) == Ok::<
                QueryModel,
                (u8, Seq<char>),
            >(QueryModel { installed_only: true, ..r })
            &&& parse_from(c, args.push("--installable"@), 0, default_model(), seq![]) == Ok::<
                QueryModel,
                (u8, Seq<char>),
            >(QueryModel { installable_only: true, ..r })
            &&& parse_from(c, args.push("--archived"@), 0, default_model(), seq![]) == Ok::<
                QueryModel,
                (u8, Seq<char>),
            >(QueryModel { show_archived: true, ..r })
        },
{
    if parse_from(c, args, 0, default_model(), seq![]) is Ok {
        lemma_switch_names();
        lemma_switch_at_end(c, args, "--installed"@, 0, default_model(), seq![]);
        lemma_switch_at_end(c, args, "--installable"@, 0, default_model(), seq![]);
        lemma_switch_at_end(c, args, "--archived"@, 0, default_model(), seq![]);
    }
}

/// Parsing reads only the arguments from where it stands on.
proof fn lemma_parse_shift(
    c: CatalogModel,
    x: Seq<Seq<char>>,
    y: Seq<Seq<char>>,
    j: int,
    q: QueryModel,
    words: Seq<Seq<char>>,
)
    requires
        0 <= j <= y.len(),
    ensures
        parse_from(c, x + y, x.len() + j, q, words) == parse_from(c, y, j, q, words),
    decreases y.len() - j,
{
    let s = x + y;
    let i = x.len() + j;
    if j < y.len() {
        let arg = y[j];
        assert(s[i] == arg);
        let v = y[j + 1];
        if j + 1 < y.len() {
            assert(s[i + 1] == v);
        }
        if arg == "--installed"@ {
            lemma_parse_shift(c, x, y, j + 1, QueryModel { installed_only: true, ..q }, words);
        } else if arg == "--installable"@ {
            lemma_parse_shift(c, x, y, j + 1, QueryModel { installable_only: true, ..q }, words);
        } else if arg == "--archived"@ {
            lemma_parse_shift(c, x, y, j + 1, QueryModel { show_archived: true, ..q }, words);
        } else if arg == "--min-stars"@ {
            if j + 1 < y.len() {
                if let Some(n) = spec_parse_u32(encode_utf8(v)) {
                    lemma_parse_shift(c, x, y, j + 2, QueryModel { min_stars: n, ..q }, words);
                }
            }
        } else if arg == "--category"@ {
            if j + 1 < y.len() {
                if let Some(id) = category_named(c, v, 0, category_ids(c)) {
                    lemma_parse_shift(c, x, y, j + 2, QueryModel { category: Some(id), ..q }, words);
                }
            }
        } else if arg == "--language"@ {
            if j + 1 < y.len() {
                if let Some(id) = language_named(c, v, 0, language_ids(c)) {
                    lemma_parse_shift(c, x, y, j + 2, QueryModel { language: Some(id), ..q }, words);
                }
            }
        } else if arg == "--sort"@ {
            if j + 1 < y.len() {
                if v == "stars"@ {
                    lemma_parse_shift(c, x, y, j + 2, QueryModel { sort: Sort::Stars, ..q }, words);
                } else if v == "name"@ {
                    lemma_parse_shift(c, x, y, j + 2, QueryModel { sort: Sort::Name, ..q }, words);
                } else if v == "updated"@ {
                    lemma_parse_shift(c, x, y, j + 2, QueryModel { sort: Sort::Updated, ..q }, words);
                }
            }
        } else if arg.len() > 0 && arg[0] == '-' {
        } else {
            lemma_parse_shift(c, x, y, j + 1, q, words.push(arg));
        }
    }
}

/// Where parsing arguments that parse ends: the query so far and the free
/// words; whatever follows is parsed from there.
proof fn lemma_parse_prefix(
    c: CatalogModel,
    x: Seq<Seq<char>>,
    y: Seq<Seq<char>>,
    i: int,
    q: QueryModel,
    words: Seq<Seq<char>>,
) -> (r: (QueryModel, Seq<Seq<char>>))
    requires
        0 <= i <= x.len(),
        parse_from(c, x, i, q, words) is Ok,
    ensures
        parse_from(c, x, i, q, words) == Ok::<QueryModel, (u8, Seq<char>)>(QueryModel { text: spaced(r.1), ..r.0 }),
        parse_from(c, x + y, i, q, words) == parse_from(c, y, 0, r.0, r.1),
    decreases x.len() - i,
{
    let s = x + y;
    if i == x.len() {
        lemma_parse_shift(c, x, y, 0, q, words);
        (q, words)
    } else {
        let arg = x[i];
        assert(s[i] == arg);
        let v = x[i + 1];
        if i + 1 < x.len() {
            assert(s[i + 1] == v);
        }
        if arg == "--installed"@ {
            lemma_parse_prefix(c, x, y, i + 1, QueryModel { installed_only: true, ..q }, words)
        } else if arg == "--installable"@ {
            lemma_parse_prefix(c, x, y, i + 1, QueryModel { installable_only: true, ..q }, words)
        } else if arg == "--archived"@ {
            lemma_parse_prefix(c, x, y, i + 1, QueryModel { show_archived: true, ..q }, words)
        } else if arg == "--min-stars"@ {
            let n = spec_parse_u32(encode_utf8(v))->Some_0;
            lemma_parse_prefix(c, x, y, i + 2, QueryModel { min_stars: n, ..q }, words)
        } else if arg == "--category"@ {
            let id = category_named(c, v, 0, category_ids(c))->Some_0;
            lemma_parse_prefix(c, x, y, i + 2, QueryModel { category: Some(id), ..q }, words)
        } else if arg == "--language"@ {
            let id = language_named(c, v, 0, language_ids(c))->Some_0;
            lemma_parse_prefix(c, x, y, i + 2, QueryModel { language: Some(id), ..q }, words)
        } else if arg == "--sort"@ {
            if v == "stars"@ {
                lemma_parse_prefix(c, x, y, i + 2, QueryModel { sort: Sort::Stars, ..q }, words)
            } else if v == "name"@ {
                lemma_parse_prefix(c, x, y, i + 2, QueryModel { sort: Sort::Name, ..q }, words)
            } else {
                lemma_parse_prefix(c, x, y, i + 2, QueryModel { sort: Sort::Updated, ..q }, words)
            }
        } else {
            lemma_parse_prefix(c, x, y, i + 1, q, words.push(arg))
        }
    }
}

/// `--sort` orders by the key it names: adding `--sort stars`, `--sort
/// name` or `--sort updated` to a command line that parses gives the same
/// query ordered by stars, by name or by last push.
pub proof fn law_sort_takes_the_named_order(c: CatalogModel, args: Seq<Seq<char>>)
    ensures
        parse_from(c, args, 0, default_model(), seq![]) matches Ok(r) ==> {
            &&& parse_from(c, args + seq!["--sort"@, "stars"@], 0, default_model(), seq![]) == Ok::<
                QueryModel,
                (u8, Seq<char>),
            >(QueryModel { sort: Sort::Stars, ..r })
            &&& parse_from(c, args + seq!["--sort"@, "name"@], 0, default_model(), seq![]) == Ok::<
                QueryModel,
                (u8, Seq<char>),
            >(QueryModel { sort: Sort::Name, ..r })
            &&& parse_from(c, args + seq!["--sort"@, "updated"@], 0, default_model(), seq![]) == Ok::<
                QueryModel,
                (u8, Seq<char>),
            >(QueryModel { sort: Sort::Updated, ..r })
        },
{
    if parse_from(c, args, 0, default_model(), seq![]) is Ok {
        reveal_strlit("--installed");
        reveal_strlit("--installable");
        reveal_strlit("--archived");
        reveal_strlit("--min-stars");
        reveal_strlit("--category");
        reveal_strlit("--language");
        reveal_strlit("--sort");
        reveal_strlit("stars");
        reveal_strlit("name");
        reveal_strlit("updated");
        assert("--sort"@.len() == 6 && "--installed"@.len() == 11 && "--installable"@.len() == 13);
        assert("--archived"@.len() == 10 && "--min-stars"@.len() == 11 && "--category"@.len() == 10);
        assert("--language"@.len() == 10);
        assert("--sort"@ != "--installed"@ && "--sort"@ != "--installable"@ && "--sort"@ != "--archived"@);
        assert("--sort"@ != "--min-stars"@ && "--sort"@ != "--category"@ && "--sort"@ != "--language"@);
        assert("stars"@.len() == 5 && "name"@.len() == 4 && "updated"@.len() == 7);
        let ws = seq!["--sort"@, "stars"@];
        let wn = seq!["--sort"@, "name"@];
        let wu = seq!["--sort"@, "updated"@];
        let p1 = lemma_parse_prefix(c, args, ws, 0, default_model(), seq![]);
        let p2 = lemma_parse_prefix(c, args, wn, 0, default_model(), seq![]);
        let p3 = lemma_parse_prefix(c, args, wu, 0, default_model(), seq![]);
        assert(parse_from(c, ws, 2, QueryModel { sort: Sort::Stars, ..p1.0 }, p1.1) == Ok::<QueryModel, (u8, Seq<char>)>(
            QueryModel { text: spaced(p1.1), sort: Sort::Stars, ..p1.0 },
        ));
        assert(parse_from(c, wn, 2, QueryModel { sort: Sort::Name, ..p2.0 }, p2.1) == Ok::<QueryModel, (u8, Seq<char>)>(
            QueryModel { text: spaced(p2.1), sort: Sort::Name, ..p2.0 },
        ));
        assert(parse_from(c, wu, 2, QueryModel { sort: Sort::Updated, ..p3.0 }, p3.1) == Ok::<QueryModel, (u8, Seq<char>)>(
            QueryModel { text: spaced(p3.1), sort: Sort::Updated, ..p3.0 },
        ));
    }
}

/// The switches stay as they were unless their argument is given.
proof fn lemma_switch_only_when_given(
    c: CatalogModel,
    args: Seq<Seq<char>>,
    i: int,
    q: QueryModel,
    words: Seq<Seq<char>>,
)
    requires
        0 <= i <= args.len(),
    ensures
        parse_from(c, args, i, q, words) matches Ok(r) ==> {
            &&& (forall|j: int| i <= j < args.len() ==> args[j] != "--installed"@) ==> r.installed_only
                == q.installed_only
            &&& (forall|j: int| i <= j < args.len() ==> args[j] != "--installable"@) ==> r.installable_only
                == q.installable_only
            &&& (forall|j: int| i <= j < args.len() ==> args[j] != "--archived"@) ==> r.show_archived
                == q.show_archived
        },
    decreases args.len() - i,
{
    if i < args.len() {
        let arg = args[i];
        let v = args[i + 1];
        if arg == "--installed"@ {
            lemma_switch_only_when_given(c, args, i + 1, QueryModel { installed_only: true, ..q }, words);
        } else if arg == "--installable"@ {
            lemma_switch_only_when_given(c, args, i + 1, QueryModel { installable_only: true, ..q }, words);
        } else if arg == "--archived"@ {
            lemma_switch_only_when_given(c, args, i + 1, QueryModel { show_archived: true, ..q }, words);
        } else if arg == "--min-stars"@ {
            if i + 1 < args.len() {
                if let Some(n) = spec_parse_u32(encode_utf8(v)) {
                    lemma_switch_only_when_given(c, args, i + 2, QueryModel { min_stars: n, ..q }, words);
                }
            }
        } else if arg == "--category"@ {
            if i + 1 < args.len() {
                if let Some(id) = category_named(c, v, 0, category_ids(c)) {
                    lemma_switch_only_when_given(c, args, i + 2, QueryModel { category: Some(id), ..q }, words);
                }
            }
        } else if arg == "--language"@ {
            if i + 1 < args.len() {
                if let Some(id) = language_named(c, v, 0, language_ids(c)) {
                    lemma_switch_only_when_given(c, args, i + 2, QueryModel { language: Some(id), ..q }, words);
                }
            }
        } else if arg == "--sort"@ {
            if i + 1 < args.len() {
                if v == "stars"@ {
                    lemma_switch_only_when_given(c, args, i + 2, QueryModel { sort: Sort::Stars, ..q }, words);
                } else if v == "name"@ {
                    lemma_switch_only_when_given(c, args, i + 2, QueryModel { sort: Sort::Name, ..q }, words);
                } else if v == "updated"@ {
                    lemma_switch_only_when_given(c, args, i + 2, QueryModel { sort: Sort::Updated, ..q }, words);
                }
            }
        } else if arg.len() > 0 && arg[0] == '-' {
        } else {
            lemma_switch_only_when_given(c, args, i + 1, q, words.push(arg));
        }
    }
}

/// A filter is on only when its switch is given: a command line without
/// `--installed` lists installed and uninstalled TUIs alike, one without
/// `--installable` does not narrow to installable ones, and one without
/// `--archived` hides archived ones.
pub proof fn law_filters_need_their_switch(c: CatalogModel, args: Seq<Seq<char>>)
    ensures
        parse_from(c, args, 0, default_model(), seq![]) matches Ok(r) ==> {
            &&& !args.contains("--installed"@) ==> !r.installed_only
            &&& !args.contains("--installable"@) ==> !r.installable_only
            &&& !args.contains("--archived"@) ==> !r.show_archived
        },
{
    lemma_switch_only_when_given(c, args, 0, default_model(), seq![]);
    if !args.contains("--installed"@) {
        assert forall|j: int| 0 <= j < args.len() implies args[j] != "--installed"@ by {
            if args[j] == "--installed"@ {
                assert(args.contains("--installed"@));
            }
        }
    }
    if !args.contains("--installable"@) {
        assert forall|j: int| 0 <= j < args.len() implies args[j] != "--installable"@ by {
            if args[j] == "--installable"@ {
                assert(args.contains("--installable"@));
            }
        }
    }
    if !args.contains("--archived"@) {
        assert forall|j: int| 0 <= j < args.len() implies args[j] != "--archived"@ by {
            if args[j] == "--archived"@ {
                assert(args.contains("--archived"@));
            }
        }
    }
}

/// The first category id of `catalog` among `0..limit` named `v`.
fn find_category(catalog: &Catalog, v: &str, limit: usize) -> (r: Option<u8>)
    requires
        limit <= 256,
    ensures
        r == category_named(catalog@, v@, 0, limit as int),
{
    let count = catalog.category_count();
    let mut id: usize = 0;
    while id < limit && id < count
        invariant
            id <= limit <= 256,
            count == catalog@.categories.len(),
            category_named(catalog@, v@, 0, limit as int) == category_named(
                catalog@,
                v@,
                id as int,
                limit as int,
            ),
        decreases limit - id,
    {
        let name = catalog.category_name(id as u8);
        if eq_ignore_case(name.as_bytes(), v.as_bytes()) {
            return Some(id as u8);
        }
        id += 1;
    }
    None
}

/// The first language id of `catalog` among `0..limit` named `v`.
fn find_language(catalog: &Catalog, v: &str, limit: usize) -> (r: Option<u16>)
    requires
        limit <= 65536,
    ensures
        r == language_named(catalog@, v@, 0, limit as int),
{
    let count = catalog.language_count();
    let mut id: usize = 0;
    while id < limit && id < count
        invariant
            id <= limit <= 65536,
            count == catalog@.languages.len(),
            language_named(catalog@, v@, 0, limit as int) == language_named(
                catalog@,
                v@,
                id as int,
                limit as int,
            ),
        decreases limit - id,
    {
        let name = catalog.language_name(id as u16);
        if eq_ignore_case(name.as_bytes(), v.as_bytes()) {
            return Some(id as u16);
        }
        id += 1;
    }
    None
}

/// The views of a vector of strings.
pub open spec fn arg_views(args: Seq<String>) -> Seq<Seq<char>> {
    args.map_values(|s: String| s@)
}

/// `tuiman list` filters and free text, read into a query.
pub fn parse_query(args: &Vec<String>, catalog: &Catalog) -> (r: Result<Query, QueryError>)
    ensures
        match r {
            Ok(q) => parse_from(catalog@, arg_views(args@), 0, default_model(), seq![]) == Ok::<
                QueryModel,
                (u8, Seq<char>),
            >(query_model(q)),
            Err(e) => parse_from(catalog@, arg_views(args@), 0, default_model(), seq![]) == Err::<
                QueryModel,
                (u8, Seq<char>),
            >(error_model(e)),
        },
{
    let ghost c = catalog@;
    let ghost av = arg_views(args@);
    let mut query = Query::default();
    assert(query.text@ =~= seq![]);
    assert(query_model(query) == default_model());
    let mut text = String::new();
    let mut nwords: usize = 0;
    let ghost mut words: Seq<Seq<char>> = seq![];
    let cat_limit = if catalog.category_count() < 256 {
        catalog.category_count()
    } else {
        256
    };
    let lang_limit = if catalog.language_count() < 65536 {
        catalog.language_count()
    } else {
        65536
    };
    let mut i: usize = 0;
    while i < args.len()
        invariant
            c == catalog@,
            av == arg_views(args@),
            cat_limit == category_ids(c),
            lang_limit == language_ids(c),
            i <= args@.len(),
            text@ == spaced(words),
            nwords == words.len(),
            nwords <= i,
            query.text@.len() == 0,
            parse_from(c, av, 0, default_model(), seq![]) == parse_from(
                c,
                av,
                i as int,
                query_model(query),
                words,
            ),
        decreases args@.len() - i,
    {
        let arg = args[i].as_str();
        let ghost i0 = i as int;
        let ghost q0 = query_model(query);
        let ghost w0 = words;
        let has_value = i + 1 < args.len();
        assert(av[i as int] == arg@);
        if has_value {
            assert(av[i + 1] == args@[i + 1]@);
        }
        if same_text(arg, "--installed") {
            query.installed_only = true;
            i += 1;
            assert(parse_from(c, av, i0, q0, w0) == parse_from(c, av, i as int, query_model(query), words));
        } else if same_text(arg, "--installable") {
            query.installable_only = true;
            i += 1;
            assert(parse_from(c, av, i0, q0, w0) == parse_from(c, av, i as int, query_model(query), words));
        } else if same_text(arg, "--archived") {
            query.show_archived = true;
            i += 1;
            assert(parse_from(c, av, i0, q0, w0) == parse_from(c, av, i as int, query_model(query), words));
        } else if same_text(arg, "--min-stars") {
            if !has_value {
                return Err(QueryError::NeedsValue(String::from_str(arg)));
            }
            match parse_u32(args[i + 1].as_str().as_bytes()) {
                Some(n) => query.min_stars = n,
                None => {
                    return Err(QueryError::NotANumber);
                },
            }
            i += 2;
            assert(parse_from(c, av, i0, q0, w0) == parse_from(c, av, i as int, query_model(query), words));
        } else if same_text(arg, "--category") {
            if !has_value {
                return Err(QueryError::NeedsValue(String::from_str(arg)));
            }
            let v = args[i + 1].as_str();
            match find_category(catalog, v, cat_limit) {
                Some(id) => query.category = Some(id),
                None => {
                    return Err(QueryError::NoCategory(String::from_str(v)));
                },
            }
            i += 2;
            assert(parse_from(c, av, i0, q0, w0) == parse_from(c, av, i as int, query_model(query), words));
        } else if same_text(arg, "--language") {
            if !has_value {
                return Err(QueryError::NeedsValue(String::from_str(arg)));
            }
            let v = args[i + 1].as_str();
            match find_language(catalog, v, lang_limit) {
                Some(id) => query.language = Some(id),
                None => {
                    return Err(QueryError::NoLanguage(String::from_str(v)));
                },
            }
            i += 2;
            assert(parse_from(c, av, i0, q0, w0) == parse_from(c, av, i as int, query_model(query), words));
        } else if same_text(arg, "--sort") {
            if !has_value {
                return Err(QueryError::NeedsValue(String::from_str(arg)));
            }
            let v = args[i + 1].as_str();
            if same_text(v, "stars") {
                query.sort = Sort::Stars;
            } else if same_text(v, "name") {
                query.sort = Sort::Name;
            } else if same_text(v, "updated") {
                query.sort = Sort::Updated;
            } else {
                return Err(QueryError::BadSort(String::from_str(v)));
            }
            i += 2;
            assert(parse_from(c, av, i0, q0, w0) == parse_from(c, av, i as int, query_model(query), words));
        } else if arg.as_bytes().len() > 0 && arg.as_bytes()[0] == 0x2d {
            proof {
                lemma_first_char_dash(arg);
            }
            return Err(QueryError::UnknownOption(String::from_str(arg)));
        } else {
            proof {
                if arg@.len() > 0 {
                    lemma_first_char_dash(arg);
                }
                assert(!(arg@.len() > 0 && arg@[0] == '-'));
                assert(av[i0] == arg@);
                assert(arg@ != "--installed"@ && arg@ != "--installable"@ && arg@ != "--archived"@);
                assert(arg@ != "--min-stars"@ && arg@ != "--category"@ && arg@ != "--language"@ && arg@ != "--sort"@);
                assert(parse_from(c, av, i0, q0, w0) == parse_from(c, av, i0 + 1, q0, w0.push(arg@)));
            }
            if nwords > 0 {
                crate::text::push_char(&mut text, ' ');
            }
            text.append(arg);
            proof {
                let w2 = words.push(arg@);
                assert(w2.drop_last() =~= words);
                if words.len() == 0 {
                    assert(spaced(w2) == arg@);
                }
                words = w2;
            }
            nwords += 1;
            i += 1;
            assert(parse_from(c, av, i0, q0, w0) == parse_from(c, av, i as int, query_model(query), words));
        }
    }
    query.text = text;
    Ok(query)
}

/// A text starts with `-` exactly when its bytes do.
proof fn lemma_first_char_dash(s: &str)
    requires
        s@.len() > 0 || s.spec_bytes().len() > 0,
    ensures
        s@.len() > 0,
        s.spec_bytes().len() > 0,
        (s@[0] == '-') == (s.spec_bytes()[0] == 0x2d),
{
    if s@.len() == 0 {
        assert(s.spec_bytes() =~= seq![]);
    }
    let c = s@[0];
    crate::catalog::lemma_first_byte(c);
    assert(s.spec_bytes() == crate::catalog::encode_scalar_of(c) + encode_utf8(s@.drop_first()));
    let b = s.spec_bytes()[0];
    assert(b == crate::catalog::encode_scalar_of(c)[0]);
    assert(('-' as u32) == 0x2d);
    if (c as u32) < 0x80 {
        assert(b as u32 == c as u32);
        vstd::utf8::char_u32_cast(c, c as u32);
        vstd::utf8::char_u32_cast('-', '-' as u32);
    }
}


/// The query `find` falls back on: fuzzy-match the name, archived included.
pub open spec fn search_model(name: Seq<char>) -> QueryModel {
    QueryModel { text: name, show_archived: true, ..default_model() }
}

/// The first row of `0..n` named `name`, ignoring case.
pub open spec fn first_named(m: CatalogModel, name: Seq<char>, n: int) -> Option<Row>
    decreases n,
{
    if n <= 0 {
        None
    } else {
        match first_named(m, name, n - 1) {
            Some(r) => Some(r),
            None => if same_ignoring_case(m.text(m.name[n - 1]), name) {
                Some((n - 1) as Row)
            } else {
                None
            },
        }
    }
}

/// Exact (case-insensitive) name match; otherwise the names of the first
/// five rows of the fuzzy search for it, best first.
pub fn find(catalog: &Catalog, installed: &Installed, name: &str) -> (r: Result<Row, Vec<String>>)
    requires
        installed@.available.len() == catalog@.rows(),
        installed@.installed.len() == catalog@.rows(),
    ensures
        match r {
            Ok(row) => first_named(catalog@, name@, catalog@.rows() as int) == Some(row),
            Err(names) => first_named(catalog@, name@, catalog@.rows() as int) is None && exists|
                s: Seq<Row>,
            |
                #![trigger is_view(catalog@, installed@, search_model(name@), s)]
                is_view(catalog@, installed@, search_model(name@), s) && names@.len() == if s.len()
                    < 5 {
                    s.len()
                } else {
                    5
                } && forall|i: int|
                    0 <= i < names@.len() ==> #[trigger] names@[i]@ == vstd::utf8::decode_utf8(
                        catalog@.text(catalog@.name[s[i] as int]),
                    ),
        },
{
    catalog.check_wf();
    let n = catalog.len();
    let mut row: usize = 0;
    while row < n
        invariant
            row <= n == catalog@.rows(),
            n <= u32::MAX,
            first_named(catalog@, name@, row as int) is None,
        decreases n - row,
    {
        let candidate = catalog.name(row as Row);
        if eq_ignore_case(candidate.as_bytes(), name.as_bytes()) {
            assert(first_named(catalog@, name@, row + 1) == Some(row as Row));
            proof {
                lemma_first_named_stays(catalog@, name@, row + 1, n as int);
            }
            return Ok(row as Row);
        }
        row += 1;
    }
    let mut query = Query::default();
    query.text = String::from_str(name);
    query.show_archived = true;
    assert(query.text@ == name@);
    assert(query_model(query) == search_model(name@));
    let mut matches = Matches::default();
    matches.run(catalog, installed, &query);
    let shown = matches.rows_in_view();
    proof {
        assert forall|i: int| 0 <= i < shown@.len() implies (#[trigger] shown@[i] as int) < catalog@.rows() by {
            assert(shown@.contains(shown@[i]));
        }
    }
    let mut names: Vec<String> = Vec::new();
    let mut k: usize = 0;
    while k < shown.len() && k < 5
        invariant
            k <= shown@.len(),
            k <= 5,
            names@.len() == k,
            catalog@.wf(),
            forall|i: int| 0 <= i < shown@.len() ==> (#[trigger] shown@[i] as int) < catalog@.rows(),
            forall|i: int|
                0 <= i < k ==> #[trigger] names@[i]@ == vstd::utf8::decode_utf8(
                    catalog@.text(catalog@.name[shown@[i] as int]),
                ),
        decreases shown@.len() - k,
    {
        let t = catalog.name(shown[k]);
        proof {
            vstd::utf8::encode_utf8_decode_utf8(t@);
        }
        names.push(String::from_str(t));
        k += 1;
    }
    assert(is_view(catalog@, installed@, search_model(name@), shown@));
    Err(names)
}

proof fn lemma_first_named_stays(m: CatalogModel, name: Seq<char>, k: int, n: int)
    requires
        0 <= k <= n,
        first_named(m, name, k) is Some,
    ensures
        first_named(m, name, n) == first_named(m, name, k),
    decreases n - k,
{
    if k < n {
        lemma_first_named_stays(m, name, k, n - 1);
    }
}

} // verus!
