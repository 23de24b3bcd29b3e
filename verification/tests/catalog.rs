use book_catalog::codec::{read_library, write_library, ParseError};
use book_catalog::record::{book_is_valid, Book};
use book_catalog::store::{add_book, find_book, get_book, remove_book, search_book};

fn book(title: &str, author: &str, isbn: &str, year: &str) -> Book {
    Book {
        title: title.to_string(),
        author: author.to_string(),
        isbn: isbn.to_string(),
        published_year: year.to_string(),
    }
}

fn assert_book_eq(b: &Book, title: &str, author: &str, isbn: &str, year: &str) {
    assert_eq!(b.title, title);
    assert_eq!(b.author, author);
    assert_eq!(b.isbn, isbn);
    assert_eq!(b.published_year, year);
}

const HEADER: &str = "Title,Author,ISBN,Published Year\n";

#[test]
fn empty_library_round_trip() {
    let books: Vec<Book> = Vec::new();
    let text = write_library(&books).unwrap();
    assert_eq!(text, HEADER);
    let loaded = read_library(&text).unwrap();
    assert_eq!(loaded.len(), 0);
}

#[test]
fn scenario_add_duplicate_remove() {
    // An empty file with only the header loads as the empty collection.
    let text = write_library(&Vec::new()).unwrap();
    let mut books = read_library(&text).unwrap();
    assert_eq!(books.len(), 0);

    // Adding a record succeeds and the collection round-trips through the file.
    let r = add_book(&mut books, book("Dune", "Herbert", "123", "1965"));
    assert!(r.is_ok());
    let text = write_library(&books).unwrap();
    let mut books = read_library(&text).unwrap();
    assert_eq!(books.len(), 1);
    assert_book_eq(&books[0], "Dune", "Herbert", "123", "1965");

    // Adding the same title again fails and the collection is unchanged.
    let r = add_book(&mut books, book("Dune", "Somebody", "999", "2000"));
    assert!(r.is_err());
    assert_eq!(books.len(), 1);
    assert_book_eq(&books[0], "Dune", "Herbert", "123", "1965");

    // Removing by isbn empties the collection again.
    let books = remove_book(&books, &"123".to_string());
    assert_eq!(books.len(), 0);
    let text = write_library(&books).unwrap();
    assert_eq!(text, HEADER);
    let loaded = read_library(&text).unwrap();
    assert_eq!(loaded.len(), 0);
}

#[test]
fn exact_file_text() {
    let books = vec![
        book("Dune", "Herbert", "123", "1965"),
        book("Emma", "Austen", "456", "1815"),
    ];
    let text = write_library(&books).unwrap();
    assert_eq!(
        text,
        "Title,Author,ISBN,Published Year\nDune,Herbert,123,1965\nEmma,Austen,456,1815\n"
    );
}

#[test]
fn quoting_round_trip() {
    let books = vec![
        book("A, B and C", "O'Neil", "1-2-3", "1999"),
        book("He said \"hi\"", "X \"Y\" Z", "\"", ","),
        book("", "", "", ""),
        book("plain", "with space", "tab\there", "2020"),
    ];
    let text = write_library(&books).unwrap();
    let loaded = read_library(&text).unwrap();
    assert_eq!(loaded.len(), 4);
    for (a, b) in books.iter().zip(loaded.iter()) {
        assert_eq!(a.title, b.title);
        assert_eq!(a.author, b.author);
        assert_eq!(a.isbn, b.isbn);
        assert_eq!(a.published_year, b.published_year);
    }
}

#[test]
fn quoted_field_file_text() {
    let books = vec![book("A, B", "say \"hi\"", "9", "1999")];
    let text = write_library(&books).unwrap();
    assert_eq!(
        text,
        "Title,Author,ISBN,Published Year\n\"A, B\",\"say \"\"hi\"\"\",9,1999\n"
    );
}

#[test]
fn missing_header_errors() {
    assert_eq!(read_library("").unwrap_err(), ParseError::MissingHeader);
    assert_eq!(
        read_library("Nope,Not,The,Header\n").unwrap_err(),
        ParseError::MissingHeader
    );
    assert_eq!(
        read_library("Dune,Herbert,123,1965\n").unwrap_err(),
        ParseError::MissingHeader
    );
}

#[test]
fn bad_row_errors() {
    // Wrong column count on the first data row.
    let text = format!("{}only,three,columns\n", HEADER);
    assert_eq!(read_library(&text).unwrap_err(), ParseError::BadRow(0));

    // A malformed row after a good one reports the second row's index.
    let text = format!("{}Dune,Herbert,123,1965\ntoo,many,columns,here,now\n", HEADER);
    assert_eq!(read_library(&text).unwrap_err(), ParseError::BadRow(1));

    // An unterminated quoted field is malformed.
    let text = format!("{}\"unterminated,a,b,c\n", HEADER);
    assert_eq!(read_library(&text).unwrap_err(), ParseError::BadRow(0));

    // A stray character after a closing quote is malformed.
    let text = format!("{}\"x\"y,a,b,c\n", HEADER);
    assert_eq!(read_library(&text).unwrap_err(), ParseError::BadRow(0));

    // A blank line is not a four-column row.
    let text = format!("{}\n", HEADER);
    assert_eq!(read_library(&text).unwrap_err(), ParseError::BadRow(0));
}

#[test]
fn search_and_find_agree() {
    let mut books = Vec::new();
    add_book(&mut books, book("Dune", "Herbert", "123", "1965")).unwrap();
    add_book(&mut books, book("Emma", "Austen", "456", "1815")).unwrap();

    for title in ["Dune", "Emma", "Missing", "", " Dune "] {
        let t = title.to_string();
        assert_eq!(search_book(&books, &t), find_book(&books, &t).is_some());
    }
}

#[test]
fn search_trims_both_sides() {
    let mut books = Vec::new();
    add_book(&mut books, book("  Dune  ", "Herbert", "123", "1965")).unwrap();
    assert!(search_book(&books, &"Dune".to_string()));
    assert!(search_book(&books, &" Dune\t".to_string()));
    assert!(!search_book(&books, &"Dun".to_string()));
}

#[test]
fn add_rejects_trimmed_duplicate() {
    let mut books = Vec::new();
    add_book(&mut books, book("Dune", "Herbert", "123", "1965")).unwrap();
    let r = add_book(&mut books, book(" Dune ", "Other", "999", "2000"));
    assert!(r.is_err());
    assert_eq!(books.len(), 1);
}

#[test]
fn get_book_returns_first_match_or_empty() {
    let mut books = Vec::new();
    add_book(&mut books, book("Dune", "Herbert", "123", "1965")).unwrap();
    let found = get_book(&books, &"Dune".to_string());
    assert_book_eq(&found, "Dune", "Herbert", "123", "1965");

    let absent = get_book(&books, &"Missing".to_string());
    assert_book_eq(&absent, "", "", "", "");
}

#[test]
fn remove_matches_title_or_isbn() {
    let base = vec![
        book("Dune", "Herbert", "123", "1965"),
        book("Emma", "Austen", "456", "1815"),
    ];

    // Removing by title deletes the record.
    let left = remove_book(&base, &"Dune".to_string());
    assert_eq!(left.len(), 1);
    assert_eq!(left[0].title, "Emma");

    // Removing by isbn deletes the same record.
    let left = remove_book(&base, &"123".to_string());
    assert_eq!(left.len(), 1);
    assert_eq!(left[0].title, "Emma");

    // Removing by an unrelated key deletes nothing.
    let left = remove_book(&base, &"Herbert".to_string());
    assert_eq!(left.len(), 2);
    assert_eq!(left[0].title, "Dune");
    assert_eq!(left[1].title, "Emma");
}

#[test]
fn remove_absent_key_is_noop() {
    let base = vec![
        book("Dune", "Herbert", "123", "1965"),
        book("Emma", "Austen", "456", "1815"),
    ];
    let before = write_library(&base).unwrap();
    let left = remove_book(&base, &"nothing-here".to_string());
    let after = write_library(&left).unwrap();
    assert_eq!(before, after);
}

#[test]
fn remove_deletes_every_match() {
    let base = vec![
        book("Dune", "Herbert", "123", "1965"),
        book("Dune", "Clone", "999", "1984"),
        book("Emma", "Austen", "456", "1815"),
    ];
    let left = remove_book(&base, &"Dune".to_string());
    assert_eq!(left.len(), 1);
    assert_eq!(left[0].title, "Emma");
}

#[test]
fn remove_trims_the_key() {
    let base = vec![book("Dune", "Herbert", "123", "1965")];
    let left = remove_book(&base, &"  123\t".to_string());
    assert_eq!(left.len(), 0);
    let left = remove_book(&base, &" Dune ".to_string());
    assert_eq!(left.len(), 0);
}

#[test]
fn reader_accepts_optional_quoting() {
    let text = format!("{}\"Dune\",Herbert,\"123\",1965\n", HEADER);
    let books = read_library(&text).unwrap();
    assert_eq!(books.len(), 1);
    assert_book_eq(&books[0], "Dune", "Herbert", "123", "1965");
}

#[test]
fn reader_accepts_missing_final_line_break() {
    let text = format!("{}Dune,Herbert,123,1965", HEADER);
    let books = read_library(&text).unwrap();
    assert_eq!(books.len(), 1);
    assert_book_eq(&books[0], "Dune", "Herbert", "123", "1965");
}

#[test]
fn record_with_line_break_is_rejected() {
    let bad = book("two\nlines", "a", "b", "c");
    assert!(!book_is_valid(&bad));
    let books = vec![bad];
    assert!(write_library(&books).is_none());

    let good = book("one line", "a", "b", "c");
    assert!(book_is_valid(&good));
}
