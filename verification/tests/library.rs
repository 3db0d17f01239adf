use library::Library;
use library::LibraryError;

#[test]
fn new_library_is_empty() {
    let lib = Library::new();
    assert!(!lib.has_book(&0));
    assert_eq!(lib.iter_books().len(), 0);
    assert_eq!(lib.to_json(), "{\"id_counter\":0,\"books\":{}}");
}

#[test]
fn ids_are_consecutive_and_monotonic() {
    let mut lib = Library::new();
    let a = lib.add_book(String::from("A"));
    let b = lib.add_book(String::from("B"));
    let c = lib.add_book(String::from("C"));
    assert_eq!(a, 0);
    assert_eq!(b, 1);
    assert_eq!(c, 2);
    assert!(a < b && b < c);
}

#[test]
fn removed_id_is_never_reused() {
    let mut lib = Library::new();
    let a = lib.add_book(String::from("A"));
    let _b = lib.add_book(String::from("B"));
    let removed = lib.remove_book(&a).unwrap();
    assert_eq!(*removed.id(), a);
    assert_eq!(removed.title().as_str(), "A");
    assert!(!lib.has_book(&a));
    let c = lib.add_book(String::from("C"));
    assert_ne!(c, a);
    assert_eq!(c, 2);
}

#[test]
fn scenario_dune_foundation_neuromancer() {
    let mut lib = Library::new();
    assert_eq!(lib.add_book(String::from("Dune")), 0);
    assert_eq!(lib.add_book(String::from("Foundation")), 1);
    let removed = lib.remove_book(&0).unwrap();
    assert_eq!(*removed.id(), 0);
    assert_eq!(removed.title().as_str(), "Dune");
    assert!(!lib.has_book(&0));
    assert_eq!(lib.add_book(String::from("Neuromancer")), 2);
    let json = lib.to_json();
    assert_eq!(
        json,
        "{\"id_counter\":3,\"books\":{\"1\":{\"id\":1,\"title\":\"Foundation\"},\"2\":{\"id\":2,\"title\":\"Neuromancer\"}}}"
    );
    let mut loaded = Library::from_json(&json).unwrap();
    assert!(!loaded.has_book(&0));
    assert!(loaded.has_book(&1));
    assert!(loaded.has_book(&2));
    assert_eq!(loaded.get_book(&1).unwrap().title().as_str(), "Foundation");
    assert_eq!(loaded.get_book(&2).unwrap().title().as_str(), "Neuromancer");
    // The counter was restored too: the next id is 3, not 0.
    assert_eq!(loaded.add_book(String::from("Excession")), 3);
}

#[test]
fn not_found_errors_name_the_id() {
    let mut lib = Library::new();
    let id = lib.add_book(String::from("A"));
    lib.remove_book(&id).unwrap();
    assert!(!lib.has_book(&id));
    assert!(matches!(lib.get_book(&id), Err(LibraryError::BookNotFound(0))));
    assert!(matches!(lib.get_book_mut(&id), Err(LibraryError::BookNotFound(0))));
    assert!(matches!(lib.remove_book(&id), Err(LibraryError::BookNotFound(0))));
    assert!(matches!(lib.get_book(&7), Err(LibraryError::BookNotFound(7))));
}

#[test]
fn mutation_is_visible_through_get_book() {
    let mut lib = Library::new();
    let id = lib.add_book(String::from("draft"));
    lib.get_book_mut(&id).unwrap().set_title(String::from("final title"));
    assert_eq!(lib.get_book(&id).unwrap().title().as_str(), "final title");
    // The change survives a round trip through the document.
    let loaded = Library::from_json(&lib.to_json()).unwrap();
    assert_eq!(loaded.get_book(&id).unwrap().title().as_str(), "final title");
}

#[test]
fn iter_books_lists_all_books_in_id_order() {
    let mut lib = Library::new();
    lib.add_book(String::from("A"));
    lib.add_book(String::from("B"));
    lib.add_book(String::from("C"));
    lib.remove_book(&1).unwrap();
    let books = lib.iter_books();
    assert_eq!(books.len(), 2);
    assert_eq!(*books[0].id(), 0);
    assert_eq!(*books[1].id(), 2);
    assert_eq!(books[0].title().as_str(), "A");
    assert_eq!(books[1].title().as_str(), "C");
}

#[test]
fn round_trip_keeps_every_title_exactly() {
    let mut lib = Library::new();
    lib.add_book(String::from("plain"));
    lib.add_book(String::from("with \"quotes\" and \\backslash\\"));
    lib.add_book(String::from("tab\there, newline\nthere"));
    lib.add_book(String::from("unicode: crème brûlée 图书馆"));
    lib.add_book(String::from(""));
    let json = lib.to_json();
    let loaded = Library::from_json(&json).unwrap();
    for book in lib.iter_books() {
        let other = loaded.get_book(book.id()).unwrap();
        assert_eq!(other.title(), book.title());
    }
    assert_eq!(loaded.iter_books().len(), lib.iter_books().len());
}

#[test]
fn control_characters_are_written_as_unicode_escapes() {
    let mut lib = Library::new();
    lib.add_book(String::from("a\nb"));
    assert_eq!(
        lib.to_json(),
        "{\"id_counter\":1,\"books\":{\"0\":{\"id\":0,\"title\":\"a\\u000ab\"}}}"
    );
}

#[test]
fn reader_accepts_whitespace_and_any_entry_order() {
    let text = "{ \"id_counter\" : 7 ,\n  \"books\" : {\n    \"5\" : { \"id\" : 5 , \"title\" : \"late\" } ,\n    \"2\" : { \"id\" : 2 , \"title\" : \"early\" }\n  }\n}";
    let lib = Library::from_json(text).unwrap();
    assert_eq!(lib.get_book(&2).unwrap().title().as_str(), "early");
    assert_eq!(lib.get_book(&5).unwrap().title().as_str(), "late");
    let books = lib.iter_books();
    assert_eq!(*books[0].id(), 2);
    assert_eq!(*books[1].id(), 5);
}

#[test]
fn reader_accepts_short_escapes() {
    let text = "{\"id_counter\":1,\"books\":{\"0\":{\"id\":0,\"title\":\"a\\tb\\nc\\\"d\\\\e\\/f\"}}}";
    let lib = Library::from_json(text).unwrap();
    assert_eq!(lib.get_book(&0).unwrap().title().as_str(), "a\tb\nc\"d\\e/f");
}

#[test]
fn invalid_text_fails_with_serialization_error() {
    assert!(matches!(
        Library::from_json("not json"),
        Err(LibraryError::SerializationFailure)
    ));
    assert!(matches!(
        Library::from_json(""),
        Err(LibraryError::SerializationFailure)
    ));
    assert!(matches!(
        Library::from_json("{\"id_counter\":0,\"books\":{}} trailing"),
        Err(LibraryError::SerializationFailure)
    ));
    assert!(matches!(
        Library::from_json("{\"books\":{},\"id_counter\":0}"),
        Err(LibraryError::SerializationFailure)
    ));
}

#[test]
fn corrupt_snapshots_are_refused() {
    // The key must equal the entry's id.
    assert!(matches!(
        Library::from_json("{\"id_counter\":2,\"books\":{\"1\":{\"id\":0,\"title\":\"t\"}}}"),
        Err(LibraryError::SerializationFailure)
    ));
    // A duplicate id cannot stand.
    assert!(matches!(
        Library::from_json(
            "{\"id_counter\":5,\"books\":{\"1\":{\"id\":1,\"title\":\"a\"},\"1\":{\"id\":1,\"title\":\"b\"}}}"
        ),
        Err(LibraryError::SerializationFailure)
    ));
    // An id the counter could not have issued cannot stand.
    assert!(matches!(
        Library::from_json("{\"id_counter\":1,\"books\":{\"1\":{\"id\":1,\"title\":\"t\"}}}"),
        Err(LibraryError::SerializationFailure)
    ));
    // A number beyond usize cannot stand.
    assert!(matches!(
        Library::from_json("{\"id_counter\":99999999999999999999999999,\"books\":{}}"),
        Err(LibraryError::SerializationFailure)
    ));
}

#[test]
fn empty_library_round_trips() {
    let lib = Library::new();
    let loaded = Library::from_json(&lib.to_json()).unwrap();
    assert_eq!(loaded.iter_books().len(), 0);
    assert_eq!(loaded.to_json(), lib.to_json());
}

#[test]
fn set_title_allows_empty_strings() {
    let mut lib = Library::new();
    let id = lib.add_book(String::from("something"));
    lib.get_book_mut(&id).unwrap().set_title(String::new());
    assert_eq!(lib.get_book(&id).unwrap().title().as_str(), "");
}
