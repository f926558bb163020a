use movies_data::list::List;
use movies_data::movies::contains_language;
use movies_data::movies::contains_year;
use movies_data::movies::movies_highest_rated;
use movies_data::movies::movies_in_language;
use movies_data::movies::movies_in_year;
use movies_data::movies::proccess_file;
use movies_data::movies::Movie;
use movies_data::movies::ParseError;
use movies_data::render::render_at;
use movies_data::render::render_movie;

fn example_rows() -> Vec<String> {
    vec![
        String::from("Amélie,2001,[French],7.4"),
        String::from("City of God,2002,[Portuguese],8.6"),
        String::from("Parasite,2019,[Korean],8.5"),
    ]
}

fn example_catalog() -> List<Movie> {
    let mut movies: List<Movie> = List::new();
    proccess_file(&mut movies, &example_rows()).unwrap();
    movies
}

#[test]
fn catalog_length_matches_row_count() {
    let movies = example_catalog();
    assert_eq!(movies.len(), 3);
}

#[test]
fn catalog_order_is_reverse_of_rows() {
    let movies = example_catalog();
    let mut it = movies.traverse();
    assert_eq!(it.next().unwrap().title, "Parasite");
    assert_eq!(it.next().unwrap().title, "City of God");
    assert_eq!(it.next().unwrap().title, "Amélie");
    assert!(it.next().is_none());
}

#[test]
fn create_lang_reverses_and_strips_brackets() {
    let langs = Movie::create_lang("[English;French;German]");
    assert_eq!(langs.len(), 3);
    let mut it = langs.traverse();
    assert_eq!(*it.next().unwrap(), "German");
    assert_eq!(*it.next().unwrap(), "French");
    assert_eq!(*it.next().unwrap(), "English");
    assert!(it.next().is_none());
}

#[test]
fn create_movie_parses_fields() {
    let m = Movie::create_movie("Amélie,2001,[French],7.4").unwrap();
    assert_eq!(m.title, "Amélie");
    assert_eq!(m.year, 2001);
    assert_eq!(m.rating, 7_400_000);
    assert_eq!(m.languages.len(), 1);
    assert!(contains_language(&m.languages, &String::from("French")));
}

#[test]
fn create_movie_reports_each_error() {
    assert!(matches!(
        Movie::create_movie("only,three,fields"),
        Err(ParseError::WrongFieldCount)
    ));
    assert!(matches!(
        Movie::create_movie("a,b,c,d,e"),
        Err(ParseError::WrongFieldCount)
    ));
    assert!(matches!(
        Movie::create_movie("t,notayear,[en],7.0"),
        Err(ParseError::BadYear)
    ));
    assert!(matches!(
        Movie::create_movie("t,2000,[en],bad"),
        Err(ParseError::BadRating)
    ));
}

#[test]
fn proccess_file_stops_on_first_bad_row() {
    let rows = vec![
        String::from("Good,2000,[en],5.0"),
        String::from("Bad,year,[en],5.0"),
        String::from("Also bad,2001,[en],rating"),
    ];
    let mut movies: List<Movie> = List::new();
    assert_eq!(proccess_file(&mut movies, &rows), Err(ParseError::BadYear));
}

#[test]
fn movies_in_year_returns_exact_matches() {
    let movies = example_catalog();
    // Catalog order: Parasite (0), City of God (1), Amélie (2).
    assert_eq!(movies_in_year(&movies, 2001), vec![2]);
    assert_eq!(movies_in_year(&movies, 2019), vec![0]);
    assert_eq!(movies_in_year(&movies, 1990), Vec::<usize>::new());
}

#[test]
fn movies_in_year_keeps_catalog_order() {
    let rows = vec![
        String::from("First,2000,[en],1.0"),
        String::from("Other,2001,[en],2.0"),
        String::from("Second,2000,[en],3.0"),
    ];
    let mut movies: List<Movie> = List::new();
    proccess_file(&mut movies, &rows).unwrap();
    // Catalog order: Second (0), Other (1), First (2).
    assert_eq!(movies_in_year(&movies, 2000), vec![0, 2]);
}

#[test]
fn highest_rated_one_per_distinct_year() {
    let movies = example_catalog();
    let v = movies_highest_rated(&movies);
    assert_eq!(v, vec![0, 1, 2]);
}

#[test]
fn highest_rated_picks_maximum_of_year() {
    let rows = vec![
        String::from("Low,2000,[en],3.5"),
        String::from("High,2000,[en],9.1"),
        String::from("Mid,2000,[en],7.0"),
        String::from("Solo,1999,[en],5.0"),
    ];
    let mut movies: List<Movie> = List::new();
    proccess_file(&mut movies, &rows).unwrap();
    // Catalog order: Solo (0), Mid (1), High (2), Low (3).
    let v = movies_highest_rated(&movies);
    assert_eq!(v.len(), 2);
    // 1999 first appears at position 0; 2000 at position 1; best of 2000 is High.
    assert_eq!(v, vec![0, 2]);
}

#[test]
fn highest_rated_tie_keeps_earliest_in_catalog() {
    let rows = vec![
        String::from("Later,2000,[en],8.0"),
        String::from("Earlier,2000,[en],8.0"),
    ];
    let mut movies: List<Movie> = List::new();
    proccess_file(&mut movies, &rows).unwrap();
    // Catalog order: Earlier (0), Later (1); the tie keeps position 0.
    assert_eq!(movies_highest_rated(&movies), vec![0]);
}

#[test]
fn movies_in_language_exact_match_only() {
    let movies = example_catalog();
    assert_eq!(movies_in_language(&movies, &String::from("French")), vec![2]);
    assert_eq!(
        movies_in_language(&movies, &String::from("french")),
        Vec::<usize>::new()
    );
    assert_eq!(
        movies_in_language(&movies, &String::from("Fren")),
        Vec::<usize>::new()
    );
}

#[test]
fn movies_in_language_duplicate_token_returned_once() {
    let rows = vec![String::from("Twice,2000,[French;French],6.0")];
    let mut movies: List<Movie> = List::new();
    proccess_file(&mut movies, &rows).unwrap();
    assert_eq!(movies_in_language(&movies, &String::from("French")), vec![0]);
}

#[test]
fn contains_checks_scan_whole_collection() {
    let mut years: List<i32> = List::new();
    years.add_list(1999);
    years.add_list(2000);
    assert!(contains_year(&years, &1999));
    assert!(contains_year(&years, &2000));
    assert!(!contains_year(&years, &2001));

    let langs = Movie::create_lang("[English;French]");
    assert!(contains_language(&langs, &String::from("English")));
    assert!(contains_language(&langs, &String::from("French")));
    assert!(!contains_language(&langs, &String::from("German")));
}

#[test]
fn render_movie_format() {
    let m = Movie::new(
        String::from("Amélie"),
        2001,
        Movie::create_lang("[French]"),
        7_400_000,
    );
    assert_eq!(render_movie(&m), "2001 7.4 Amélie\n");
}

#[test]
fn render_movie_trims_fraction() {
    let whole = Movie::new(String::from("W"), 1999, Movie::create_lang("x"), 8_000_000);
    assert_eq!(render_movie(&whole), "1999 8 W\n");
    let small = Movie::new(String::from("S"), 2000, Movie::create_lang("x"), 7_050_000);
    assert_eq!(render_movie(&small), "2000 7.05 S\n");
    let neg = Movie::new(String::from("N"), -44, Movie::create_lang("x"), -1_250_000);
    assert_eq!(render_movie(&neg), "-44 -1.25 N\n");
}

#[test]
fn render_at_walks_to_position() {
    let movies = example_catalog();
    assert_eq!(render_at(&movies, 0), "2019 8.5 Parasite\n");
    assert_eq!(render_at(&movies, 2), "2001 7.4 Amélie\n");
}

#[test]
fn end_to_end_example() {
    let movies = example_catalog();
    assert_eq!(movies.len(), 3);
    let mut it = movies.traverse();
    assert_eq!(it.next().unwrap().title, "Parasite");
    assert_eq!(it.next().unwrap().title, "City of God");
    assert_eq!(it.next().unwrap().title, "Amélie");

    let in_2001 = movies_in_year(&movies, 2001);
    assert_eq!(in_2001.len(), 1);
    assert_eq!(render_at(&movies, in_2001[0]), "2001 7.4 Amélie\n");

    let best = movies_highest_rated(&movies);
    assert_eq!(best, vec![0, 1, 2]);

    let french = movies_in_language(&movies, &String::from("French"));
    assert_eq!(french.len(), 1);
    assert_eq!(render_at(&movies, french[0]), "2001 7.4 Amélie\n");
}
