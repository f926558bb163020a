//! Movie records, catalog construction, and the three catalog queries.

use vstd::prelude::*;
use crate::list::List;
use crate::parse::{
    split_seq, split_str, strip_brackets, strip_brackets_spec, parse_i32, parse_rating,
    valid_i32_str, valid_rating_str, int_str_val, rating_str_val,
};

verus! {

/// One parsed movie entry. The rating is held as a fixed-point value in
/// millionths (a rating written `7.4` is stored as `7_400_000`), which keeps
/// ordering comparisons exact while staying in integer arithmetic.
pub struct Movie {
    pub title: String,
    pub year: i32,
    pub languages: List<String>,
    pub rating: i64,
}

/// Why a catalog row was rejected. Any of these aborts catalog construction.
#[derive(Clone, Copy, Debug, PartialEq, Eq, Structural)]
pub enum ParseError {
    /// The row does not split into exactly four comma-separated fields.
    WrongFieldCount,
    /// The year field is not a decimal integer in the 32-bit range.
    BadYear,
    /// The rating field is not a decimal number the fixed-point form holds.
    BadRating,
}

impl Movie {
    pub fn new(title: String, year: i32, languages: List<String>, rating: i64) -> (m: Movie)
        ensures
            m.title == title,
            m.year == year,
            m.languages == languages,
            m.rating == rating,
    {
        Movie { title, year, languages, rating }
    }
}

/// The language collection holds exactly the `;`-separated tokens of the
/// source field, bracket markers stripped, in reverse of their field order.
pub open spec fn langs_match(ll: List<String>, field: Seq<char>) -> bool {
    let toks = split_seq(field, ';');
    &&& ll@.len() == toks.len()
    &&& forall|j: int|
        0 <= j < toks.len() ==> #[trigger] ll@[j]@ == strip_brackets_spec(
            toks[toks.len() - 1 - j],
        )
}

impl Movie {
    /// Tokenize a languages field on `;`, strip bracket markers, and prepend
    /// each token, so the collection order is the reverse of the field order.
    pub fn create_lang(languages: &str) -> (ll: List<String>)
        ensures
            ll.wf(),
            langs_match(ll, languages@),
    {
        let tokens = split_str(languages, ';');
        let ghost toks = split_seq(languages@, ';');
        let mut lang_list: List<String> = List::new();
        let mut i: usize = 0;
        while i < tokens.len()
            invariant
                i <= tokens@.len(),
                tokens@.len() == toks.len(),
                forall|j: int| 0 <= j < toks.len() ==> #[trigger] tokens@[j]@ == toks[j],
                lang_list.wf(),
                lang_list@.len() == i,
                forall|j: int|
                    0 <= j < i ==> #[trigger] lang_list@[j]@ == strip_brackets_spec(
                        toks[i - 1 - j],
                    ),
            decreases tokens@.len() - i,
        {
            let language: String = strip_brackets(tokens[i].as_str());
            lang_list.add_list(language);
            i += 1;
        }
        lang_list
    }
}

/// The comma-separated fields of one catalog row.
pub open spec fn line_fields(line: Seq<char>) -> Seq<Seq<char>> {
    split_seq(line, ',')
}

/// A row parses: four fields, a well-formed year, a well-formed rating.
pub open spec fn line_ok(line: Seq<char>) -> bool {
    let f = line_fields(line);
    &&& f.len() == 4
    &&& valid_i32_str(f[1])
    &&& valid_rating_str(f[3])
}

/// The error a malformed row produces, checking fields left to right.
pub open spec fn line_error(line: Seq<char>) -> ParseError {
    let f = line_fields(line);
    if f.len() != 4 {
        ParseError::WrongFieldCount
    } else if !valid_i32_str(f[1]) {
        ParseError::BadYear
    } else {
        ParseError::BadRating
    }
}

/// The record `m` is the parse of `line`: title verbatim, year and rating
/// as their fields denote, languages tokenized in reverse field order.
pub open spec fn movie_matches_line(m: Movie, line: Seq<char>) -> bool {
    let f = line_fields(line);
    &&& m.title@ == f[0]
    &&& m.year as int == int_str_val(f[1])
    &&& m.languages.wf()
    &&& langs_match(m.languages, f[2])
    &&& m.rating as int == rating_str_val(f[3])
}

impl Movie {
    /// Parse one data row `title,year,languages,rating` into a record.
    pub fn create_movie(line: &str) -> (r: Result<Movie, ParseError>)
        ensures
            r is Ok <==> line_ok(line@),
            r matches Ok(m) ==> movie_matches_line(m, line@),
            r matches Err(e) ==> e == line_error(line@),
    {
        let fields = split_str(line, ',');
        if fields.len() != 4 {
            return Err(ParseError::WrongFieldCount);
        }
        let year: i32 = match parse_i32(fields[1].as_str()) {
            None => {
                return Err(ParseError::BadYear);
            },
            Some(y) => y,
        };
        let rating: i64 = match parse_rating(fields[3].as_str()) {
            None => {
                return Err(ParseError::BadRating);
            },
            Some(v) => v,
        };
        let languages = Movie::create_lang(fields[2].as_str());
        let title = fields[0].clone();
        Ok(Movie::new(title, year, languages, rating))
    }
}

/// Build the catalog from the data rows of the source file (header already
/// removed). Each record is prepended, so the catalog order is the exact
/// reverse of the row order; on success the catalog grows by one record per
/// row. The first malformed row aborts construction with its error.
pub fn proccess_file(movies: &mut List<Movie>, lines: &Vec<String>) -> (r: Result<(), ParseError>)
    requires
        old(movies).wf(),
        old(movies)@.len() + lines@.len() <= usize::MAX,
    ensures
        final(movies).wf(),
        r is Ok <==> (forall|i: int| 0 <= i < lines@.len() ==> line_ok(#[trigger] lines@[i]@)),
        r is Ok ==> {
            &&& final(movies)@.len() == old(movies)@.len() + lines@.len()
            &&& forall|i: int|
                0 <= i < lines@.len() ==> movie_matches_line(
                    #[trigger] final(movies)@[lines@.len() - 1 - i],
                    lines@[i]@,
                )
            &&& final(movies)@.skip(lines@.len() as int) == old(movies)@
        },
        r matches Err(e) ==> exists|k: int|
            {
                &&& 0 <= k < lines@.len()
                &&& !line_ok(#[trigger] lines@[k]@)
                &&& forall|m: int| 0 <= m < k ==> line_ok(#[trigger] lines@[m]@)
                &&& e == line_error(lines@[k]@)
            },
{
    let mut i: usize = 0;
    while i < lines.len()
        invariant
            i <= lines@.len(),
            movies.wf(),
            old(movies)@.len() + lines@.len() <= usize::MAX,
            movies@.len() == old(movies)@.len() + i,
            forall|j: int| 0 <= j < i ==> line_ok(#[trigger] lines@[j]@),
            forall|j: int|
                0 <= j < i ==> movie_matches_line(#[trigger] movies@[i - 1 - j], lines@[j]@),
            movies@.skip(i as int) == old(movies)@,
        decreases lines@.len() - i,
    {
        match Movie::create_movie(lines[i].as_str()) {
            Err(e) => {
                proof {
                    assert(!line_ok(lines@[i as int]@));
                }
                return Err(e);
            },
            Ok(m) => {
                let ghost prev = movies@;
                movies.add_list(m);
                proof {
                    assert(movies@.skip(i + 1 as int) =~= prev.skip(i as int));
                    assert forall|j: int| 0 <= j < i + 1 implies movie_matches_line(
                        #[trigger] movies@[i + 1 - 1 - j],
                        lines@[j]@,
                    ) by {
                        if j < i {
                            assert(movies@[i - j] == prev[i - 1 - j]);
                        } else {
                            assert(movies@[0] == m);
                        }
                    }
                }
            },
        }
        i += 1;
    }
    proof {
        assert(movies@.skip(lines@.len() as int) == old(movies)@);
    }
    Ok(())
}

/// Does the exact string `language` stand among the stored tokens?
pub open spec fn seq_contains_string(ss: Seq<String>, lang: Seq<char>) -> bool {
    exists|k: int| 0 <= k < ss.len() && #[trigger] ss[k]@ == lang
}

/// Linear scan of a language collection for an exact, case-sensitive match.
pub fn contains_language(lang_list: &List<String>, language: &String) -> (r: bool)
    ensures
        r == seq_contains_string(lang_list@, language@),
{
    let mut it = lang_list.traverse();
    let ghost mut seen: int = 0;
    loop
        invariant
            0 <= seen <= lang_list@.len(),
            it.remaining() =~= lang_list@.skip(seen),
            forall|m: int| 0 <= m < seen ==> #[trigger] lang_list@[m]@ != language@,
        decreases lang_list@.len() - seen,
    {
        match it.next() {
            None => {
                proof {
                    assert(lang_list@.skip(seen).len() == 0);
                }
                return false;
            },
            Some(v) => {
                proof {
                    assert(*v == lang_list@.skip(seen)[0]);
                    assert(lang_list@[seen] == lang_list@.skip(seen)[0]);
                }
                if v.eq(language) {
                    proof {
                        assert(lang_list@[seen]@ == language@);
                    }
                    return true;
                }
                proof {
                    seen = seen + 1;
                }
            },
        }
    }
}

/// The record carries the exact language `lang` among its tokens.
pub open spec fn movie_has_lang(m: Movie, lang: Seq<char>) -> bool {
    seq_contains_string(m.languages@, lang)
}

/// All records released in `year`, as catalog positions in traversal order:
/// the result lists exactly the matching positions, strictly increasing.
pub fn movies_in_year(movies: &List<Movie>, year: i32) -> (v: Vec<usize>)
    requires
        movies.wf(),
    ensures
        forall|j: int|
            0 <= j < v@.len() ==> #[trigger] v@[j] < movies@.len() && movies@[v@[j] as int].year
                == year,
        forall|j1: int, j2: int| 0 <= j1 < j2 < v@.len() ==> v@[j1] < v@[j2],
        forall|i: int|
            0 <= i < movies@.len() && #[trigger] movies@[i].year == year ==> v@.contains(
                i as usize,
            ),
{
    let n = movies.len();
    let mut it = movies.traverse();
    let mut v: Vec<usize> = Vec::new();
    let mut i: usize = 0;
    while i < n
        invariant
            movies.wf(),
            n == movies@.len(),
            i <= n,
            it.remaining() =~= movies@.skip(i as int),
            forall|j: int|
                0 <= j < v@.len() ==> #[trigger] v@[j] < i && movies@[v@[j] as int].year == year,
            forall|j1: int, j2: int| 0 <= j1 < j2 < v@.len() ==> v@[j1] < v@[j2],
            forall|k: int|
                0 <= k < i && #[trigger] movies@[k].year == year ==> v@.contains(k as usize),
        decreases n - i,
    {
        let m = it.next().unwrap();
        proof {
            assert(*m == movies@.skip(i as int)[0]);
            assert(movies@[i as int] == movies@.skip(i as int)[0]);
        }
        if m.year == year {
            let ghost oldv = v@;
            v.push(i);
            proof {
                assert forall|k: int|
                    0 <= k < i + 1 && #[trigger] movies@[k].year == year implies v@.contains(
                    k as usize,
                ) by {
                    if k == i {
                        assert(v@[v@.len() - 1] == i);
                    } else {
                        let j = choose|j: int| 0 <= j < oldv.len() && oldv[j] == k as usize;
                        assert(v@[j] == oldv[j]);
                    }
                }
            }
        }
        i += 1;
    }
    v
}

/// All records available in the exact language `language`, as catalog
/// positions in traversal order; a record appears at most once however many
/// of its tokens match.
pub fn movies_in_language(movies: &List<Movie>, language: &String) -> (v: Vec<usize>)
    requires
        movies.wf(),
    ensures
        forall|j: int|
            0 <= j < v@.len() ==> #[trigger] v@[j] < movies@.len() && movie_has_lang(
                movies@[v@[j] as int],
                language@,
            ),
        forall|j1: int, j2: int| 0 <= j1 < j2 < v@.len() ==> v@[j1] < v@[j2],
        forall|i: int|
            0 <= i < movies@.len() && movie_has_lang(#[trigger] movies@[i], language@)
                ==> v@.contains(i as usize),
{
    let n = movies.len();
    let mut it = movies.traverse();
    let mut v: Vec<usize> = Vec::new();
    let mut i: usize = 0;
    while i < n
        invariant
            movies.wf(),
            n == movies@.len(),
            i <= n,
            it.remaining() =~= movies@.skip(i as int),
            forall|j: int|
                0 <= j < v@.len() ==> #[trigger] v@[j] < i && movie_has_lang(
                    movies@[v@[j] as int],
                    language@,
                ),
            forall|j1: int, j2: int| 0 <= j1 < j2 < v@.len() ==> v@[j1] < v@[j2],
            forall|k: int|
                0 <= k < i && movie_has_lang(#[trigger] movies@[k], language@) ==> v@.contains(
                    k as usize,
                ),
        decreases n - i,
    {
        let m = it.next().unwrap();
        proof {
            assert(*m == movies@.skip(i as int)[0]);
            assert(movies@[i as int] == movies@.skip(i as int)[0]);
        }
        if contains_language(&m.languages, language) {
            let ghost oldv = v@;
            v.push(i);
            proof {
                assert forall|k: int|
                    0 <= k < i + 1 && movie_has_lang(#[trigger] movies@[k], language@)
                    implies v@.contains(k as usize) by {
                    if k == i {
                        assert(v@[v@.len() - 1] == i);
                    } else {
                        let j = choose|j: int| 0 <= j < oldv.len() && oldv[j] == k as usize;
                        assert(v@[j] == oldv[j]);
                    }
                }
            }
        }
        i += 1;
    }
    v
}

/// Position `i` holds the best record of its year: no record of that year
/// rates strictly higher, and every earlier record of that year rates
/// strictly lower (so ties go to the earliest catalog position).
pub open spec fn is_best_for_year(s: Seq<Movie>, i: int) -> bool {
    &&& 0 <= i < s.len()
    &&& forall|k: int| 0 <= k < s.len() && #[trigger] s[k].year == s[i].year ==> s[k].rating
        <= s[i].rating
    &&& forall|k: int| 0 <= k < i && #[trigger] s[k].year == s[i].year ==> s[k].rating
        < s[i].rating
}

/// The first catalog position whose record is released in `y`
/// (`s.len()` if the year is absent).
pub open spec fn first_index_of_year(s: Seq<Movie>, y: i32) -> int
    decreases s.len(),
{
    if s.len() == 0 {
        0
    } else if s[0].year == y {
        0
    } else {
        1 + first_index_of_year(s.skip(1), y)
    }
}

pub proof fn lemma_first_index_of_year_at(s: Seq<Movie>, y: i32, i: int)
    requires
        0 <= i <= s.len(),
        forall|k: int| 0 <= k < i ==> #[trigger] s[k].year != y,
        i == s.len() || s[i].year == y,
    ensures
        first_index_of_year(s, y) == i,
    decreases i,
{
    if i > 0 {
        assert(s[0].year != y);
        let t = s.skip(1);
        assert forall|k: int| 0 <= k < i - 1 implies #[trigger] t[k].year != y by {
            assert(t[k] == s[k + 1]);
        }
        if i < s.len() {
            assert(t[i - 1] == s[i]);
        }
        lemma_first_index_of_year_at(t, y, i - 1);
    }
}

/// One catalog position per distinct year: the best record of that year,
/// reported in the order in which the years first appear in the catalog.
pub fn movies_highest_rated(movies: &List<Movie>) -> (v: Vec<usize>)
    requires
        movies.wf(),
    ensures
        forall|j: int| 0 <= j < v@.len() ==> is_best_for_year(movies@, #[trigger] v@[j] as int),
        forall|j1: int, j2: int|
            0 <= j1 < j2 < v@.len() ==> first_index_of_year(
                movies@,
                movies@[#[trigger] v@[j1] as int].year,
            ) < first_index_of_year(movies@, movies@[#[trigger] v@[j2] as int].year),
        forall|i: int|
            0 <= i < movies@.len() ==> exists|j: int|
                0 <= j < v@.len() && movies@[#[trigger] v@[j] as int].year
                    == (#[trigger] movies@[i]).year,
{
    let n = movies.len();
    let mut v: Vec<usize> = Vec::new();
    let mut checked_years: List<i32> = List::new();
    let mut it = movies.traverse();
    let mut i: usize = 0;
    while i < n
        invariant
            movies.wf(),
            n == movies@.len(),
            i <= n,
            it.remaining() =~= movies@.skip(i as int),
            checked_years.wf(),
            checked_years@.len() <= i,
            forall|y: i32|
                #[trigger] checked_years@.contains(y) <==> exists|k: int|
                    0 <= k < i && #[trigger] movies@[k].year == y,
            forall|j: int| 0 <= j < v@.len() ==> is_best_for_year(movies@, #[trigger] v@[j] as int),
            forall|j1: int, j2: int|
                0 <= j1 < j2 < v@.len() ==> first_index_of_year(
                    movies@,
                    movies@[#[trigger] v@[j1] as int].year,
                ) < first_index_of_year(movies@, movies@[#[trigger] v@[j2] as int].year),
            forall|j: int|
                0 <= j < v@.len() ==> 0 <= first_index_of_year(
                    movies@,
                    movies@[#[trigger] v@[j] as int].year,
                ) < i,
            forall|k: int|
                0 <= k < i ==> exists|j: int|
                    0 <= j < v@.len() && movies@[#[trigger] v@[j] as int].year
                        == (#[trigger] movies@[k]).year,
        decreases n - i,
    {
        let m = it.next().unwrap();
        proof {
            assert(*m == movies@.skip(i as int)[0]);
            assert(movies@[i as int] == movies@.skip(i as int)[0]);
        }
        let y = m.year;
        if !contains_year(&checked_years, &y) {
            let ghost old_checked = checked_years@;
            checked_years.add_list(y);
            proof {
                assert forall|z: i32| #[trigger] checked_years@.contains(z) implies exists|k: int|
                    0 <= k < i + 1 && #[trigger] movies@[k].year == z by {
                    let idx = choose|idx: int|
                        0 <= idx < checked_years@.len() && checked_years@[idx] == z;
                    if idx == 0 {
                        assert(movies@[i as int].year == z);
                    } else {
                        assert(old_checked[idx - 1] == z);
                        assert(old_checked.contains(z));
                    }
                }
                assert forall|z: i32|
                    (exists|k: int| 0 <= k < i + 1 && #[trigger] movies@[k].year == z)
                    implies #[trigger] checked_years@.contains(z) by {
                    let k = choose|k: int| 0 <= k < i + 1 && #[trigger] movies@[k].year == z;
                    if k < i {
                        assert(old_checked.contains(z));
                        let idx = choose|idx: int|
                            0 <= idx < old_checked.len() && old_checked[idx] == z;
                        assert(checked_years@[idx + 1] == z);
                    } else {
                        assert(checked_years@[0] == z);
                    }
                }
                // `i` is the first catalog position of year `y`.
                assert forall|k: int| 0 <= k < i implies #[trigger] movies@[k].year != y by {
                    if movies@[k].year == y {
                        assert(old_checked.contains(y));
                    }
                }
                lemma_first_index_of_year_at(movies@, y, i as int);
            }
            // Scan the records after position `i` for a strictly higher
            // rating in the same year; ties keep the earlier position.
            let mut best_idx: usize = i;
            let mut best_rating: i64 = m.rating;
            let mut inner = it;
            let mut k: usize = i + 1;
            while k < n
                invariant
                    movies.wf(),
                    n == movies@.len(),
                    i < n,
                    i + 1 <= k <= n,
                    y == movies@[i as int].year,
                    inner.remaining() =~= movies@.skip(k as int),
                    i <= best_idx < k,
                    movies@[best_idx as int].year == movies@[i as int].year,
                    best_rating == movies@[best_idx as int].rating,
                    forall|t: int|
                        i <= t < k && #[trigger] movies@[t].year == movies@[i as int].year
                            ==> movies@[t].rating <= best_rating,
                    forall|t: int|
                        i <= t < best_idx && #[trigger] movies@[t].year == movies@[i as int].year
                            ==> movies@[t].rating < best_rating,
                decreases n - k,
            {
                let c = inner.next().unwrap();
                proof {
                    assert(*c == movies@.skip(k as int)[0]);
                    assert(movies@[k as int] == movies@.skip(k as int)[0]);
                }
                if y == c.year && c.rating > best_rating {
                    best_idx = k;
                    best_rating = c.rating;
                }
                k += 1;
            }
            proof {
                assert(is_best_for_year(movies@, best_idx as int));
            }
            let ghost oldv = v@;
            v.push(best_idx);
            proof {
                assert(v@[v@.len() - 1] == best_idx);
                assert forall|k2: int| 0 <= k2 < i + 1 implies exists|j: int|
                    0 <= j < v@.len() && movies@[#[trigger] v@[j] as int].year
                        == #[trigger] movies@[k2].year by {
                    if k2 == i {
                        assert(movies@[v@[v@.len() - 1] as int].year == movies@[k2].year);
                    } else {
                        let j = choose|j: int|
                            0 <= j < oldv.len() && movies@[oldv[j] as int].year
                                == movies@[k2].year;
                        assert(v@[j] == oldv[j]);
                        assert(movies@[v@[j] as int].year == movies@[k2].year);
                    }
                }
            }
        } else {
            proof {
                assert forall|k2: int| 0 <= k2 < i + 1 implies exists|j: int|
                    0 <= j < v@.len() && movies@[#[trigger] v@[j] as int].year
                        == #[trigger] movies@[k2].year by {
                    if k2 == i {
                        let k3 = choose|k3: int| 0 <= k3 < i && #[trigger] movies@[k3].year == y;
                        let j = choose|j: int|
                            0 <= j < v@.len() && movies@[v@[j] as int].year == movies@[k3].year;
                        assert(movies@[v@[j] as int].year == movies@[k2].year);
                    }
                }
            }
        }
        i += 1;
    }
    v
}

/// Law: a listing whose entries are ordered by the first catalog position of
/// their year names each year at most once — so together with the other
/// guarantees of `movies_highest_rated`, exactly one record is reported per
/// distinct year in the catalog.
pub proof fn lemma_highest_rated_years_distinct(s: Seq<Movie>, v: Seq<usize>)
    requires
        forall|j1: int, j2: int|
            0 <= j1 < j2 < v.len() ==> first_index_of_year(s, s[#[trigger] v[j1] as int].year)
                < first_index_of_year(s, s[#[trigger] v[j2] as int].year),
    ensures
        forall|j1: int, j2: int|
            0 <= j1 < j2 < v.len() ==> s[#[trigger] v[j1] as int].year
                != s[#[trigger] v[j2] as int].year,
{
}

/// Linear scan of the seen-years scratch collection.
pub fn contains_year(years_list: &List<i32>, check_year: &i32) -> (r: bool)
    ensures
        r == years_list@.contains(*check_year),
{
    let mut it = years_list.traverse();
    let ghost mut seen: int = 0;
    loop
        invariant
            0 <= seen <= years_list@.len(),
            it.remaining() =~= years_list@.skip(seen),
            forall|m: int| 0 <= m < seen ==> years_list@[m] != *check_year,
        decreases years_list@.len() - seen,
    {
        match it.next() {
            None => {
                proof {
                    assert(years_list@.skip(seen).len() == 0);
                }
                return false;
            },
            Some(v) => {
                proof {
                    assert(*v == years_list@.skip(seen)[0]);
                    assert(years_list@[seen] == years_list@.skip(seen)[0]);
                }
                if *v == *check_year {
                    return true;
                }
                proof {
                    seen = seen + 1;
                }
            },
        }
    }
}

} // verus!
