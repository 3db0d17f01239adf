//! A minimal personal library (book collection) manager.
//!
//! A [`Library`] owns a set of [`Book`]s keyed by an auto-incrementing id.
//! Ids are unique, never reused, and assigned in strictly increasing order.
//! The whole collection can be rendered to and rebuilt from a single JSON
//! document (see [`Library::to_json`] and [`Library::from_json`]); reading
//! and writing the file itself is left to the caller.

use vstd::prelude::*;

mod error;
pub mod json;
pub mod laws;

pub use error::LibraryError;
pub use error::LibraryResult;

verus! {

/// The identifier a [`Library`] assigns to a book; unique within the
/// library and never reassigned once issued.
pub type BookId = usize;

/// Ghost description of one book: its id and its title.
pub ghost struct BookView {
    pub id: BookId,
    pub title: Seq<char>,
}

/// Ghost description of a whole library: the next id to assign and the
/// mapping from each issued id still present to its book's title.
pub ghost struct LibraryView {
    pub id_counter: BookId,
    pub books: Map<BookId, Seq<char>>,
}

/// A book with an id and a title.
pub struct Book {
    pub(crate) id: BookId,
    pub(crate) title: String,
}

impl View for Book {
    type V = BookView;

    closed spec fn view(&self) -> BookView {
        BookView { id: self.id, title: self.title@ }
    }
}

impl Book {
    /// Returns the book's unique id.
    pub fn id(&self) -> (r: &BookId)
        ensures
            *r == self@.id,
    {
        &self.id
    }

    /// Returns the book's title.
    pub fn title(&self) -> (r: &String)
        ensures
            r@ == self@.title,
    {
        &self.title
    }

    /// Set the title of the book to the given string; the id is unchanged.
    pub fn set_title(&mut self, title: String)
        ensures
            final(self)@.id == old(self)@.id,
            final(self)@.title == title@,
    {
        self.title = title;
    }
}

/// Does some entry of `s` carry the id `id`?
pub open spec fn entries_contain(s: Seq<BookView>, id: BookId) -> bool {
    exists|i: int| 0 <= i < s.len() && s[i].id == id
}

/// The ids of the entries of `s` are pairwise distinct.
pub open spec fn entries_distinct(s: Seq<BookView>) -> bool {
    forall|i: int, j: int| 0 <= i < j < s.len() ==> s[i].id != s[j].id
}

/// The ids of the entries of `s` are strictly increasing.
pub open spec fn entries_sorted(s: Seq<BookView>) -> bool {
    forall|i: int, j: int| 0 <= i < j < s.len() ==> s[i].id < s[j].id
}

/// The id-to-title map described by a sequence of entries; a later entry
/// with the same id would win, though all uses keep ids distinct.
pub open spec fn map_of_entries(s: Seq<BookView>) -> Map<BookId, Seq<char>>
    decreases s.len(),
{
    if s.len() == 0 {
        Map::empty()
    } else {
        map_of_entries(s.drop_last()).insert(s.last().id, s.last().title)
    }
}

/// An id is in the map of `s` exactly when some entry of `s` carries it.
pub proof fn lemma_map_of_entries_dom(s: Seq<BookView>)
    ensures
        forall|id: BookId| #[trigger] map_of_entries(s).dom().contains(id) <==> entries_contain(
            s,
            id,
        ),
    decreases s.len(),
{
    if s.len() > 0 {
        lemma_map_of_entries_dom(s.drop_last());
        assert forall|id: BookId| #[trigger] map_of_entries(s).dom().contains(id) implies
            entries_contain(s, id) by {
            if s.last().id == id {
                assert(s[s.len() - 1].id == id);
            } else {
                assert(map_of_entries(s.drop_last()).dom().contains(id));
                assert(entries_contain(s.drop_last(), id));
                let i = choose|i: int| 0 <= i < s.drop_last().len() && s.drop_last()[i].id == id;
                assert(s[i].id == id);
            }
        }
        assert forall|id: BookId| entries_contain(s, id) implies
            map_of_entries(s).dom().contains(id) by {
            let i = choose|i: int| 0 <= i < s.len() && s[i].id == id;
            if i < s.len() - 1 {
                assert(s.drop_last()[i].id == id);
                assert(entries_contain(s.drop_last(), id));
                assert(map_of_entries(s.drop_last()).dom().contains(id));
            }
        }
    }
}

/// The position of the entry of `s` carrying `id`, where there is one.
pub open spec fn entry_index(s: Seq<BookView>, id: BookId) -> int {
    choose|i: int| 0 <= i < s.len() && s[i].id == id
}

/// With distinct ids, `entry_index` is the one position carrying `id`.
pub proof fn lemma_entry_index(s: Seq<BookView>, k: int)
    requires
        entries_distinct(s),
        0 <= k < s.len(),
    ensures
        entry_index(s, s[k].id) == k,
{
    let id = s[k].id;
    assert(entries_contain(s, id));
    let i = entry_index(s, id);
    assert(0 <= i < s.len() && s[i].id == id);
    if i != k {
        assert(false);
    }
}

/// With distinct ids, the map of `s` sends the id of entry `i` to its title.
pub proof fn lemma_map_of_entries_get(s: Seq<BookView>, i: int)
    requires
        0 <= i < s.len(),
        entries_distinct(s),
    ensures
        map_of_entries(s).dom().contains(s[i].id),
        map_of_entries(s)[s[i].id] == s[i].title,
    decreases s.len(),
{
    if i < s.len() - 1 {
        assert(entries_distinct(s.drop_last()));
        assert(s.drop_last()[i] == s[i]);
        lemma_map_of_entries_get(s.drop_last(), i);
        assert(s[i].id != s.last().id);
    }
}

/// Replacing entry `i` by one with the same id rebinds that id in the map.
pub proof fn lemma_map_of_entries_update(s: Seq<BookView>, i: int, b: BookView)
    requires
        0 <= i < s.len(),
        entries_distinct(s),
        s[i].id == b.id,
    ensures
        map_of_entries(s.update(i, b)) == map_of_entries(s).insert(b.id, b.title),
    decreases s.len(),
{
    if i == s.len() - 1 {
        assert(s.update(i, b).drop_last() =~= s.drop_last());
        assert(s.update(i, b).last() == b);
        assert(map_of_entries(s.update(i, b)) =~= map_of_entries(s).insert(b.id, b.title));
    } else {
        assert(s.update(i, b).drop_last() =~= s.drop_last().update(i, b));
        assert(entries_distinct(s.drop_last()));
        assert(s.drop_last()[i] == s[i]);
        lemma_map_of_entries_update(s.drop_last(), i, b);
        assert(s.update(i, b).last() == s.last());
        assert(s.last().id != b.id);
        assert(map_of_entries(s.update(i, b)) =~= map_of_entries(s).insert(b.id, b.title));
    }
}

/// Replacing entry `i` by one whose id turns out unchanged keeps the
/// entries sorted and rebinds only that id in the map.
pub proof fn lemma_entries_update_same_id(s: Seq<BookView>, i: int, b: BookView)
    requires
        0 <= i < s.len(),
        entries_distinct(s),
    ensures
        b.id == s[i].id ==> map_of_entries(s.update(i, b)) == map_of_entries(s).insert(
            b.id,
            b.title,
        ),
        b.id == s[i].id && entries_sorted(s) ==> entries_sorted(s.update(i, b)),
{
    if b.id == s[i].id {
        lemma_map_of_entries_update(s, i, b);
        if entries_sorted(s) {
            assert forall|p: int, q: int|
                0 <= p < q < s.update(i, b).len() implies s.update(i, b)[p].id < s.update(
                i,
                b,
            )[q].id by {
                assert(s[p].id < s[q].id);
            }
        }
    }
}

/// Inserting an entry with a fresh id, anywhere, adds exactly that id to
/// the map.
pub proof fn lemma_map_of_entries_insert_at(s: Seq<BookView>, m: int, b: BookView)
    requires
        0 <= m <= s.len(),
        !entries_contain(s, b.id),
    ensures
        map_of_entries(s.insert(m, b)) == map_of_entries(s).insert(b.id, b.title),
    decreases s.len(),
{
    if m == s.len() {
        assert(s.insert(m, b) =~= s.push(b));
        assert(s.push(b).drop_last() =~= s);
        assert(s.push(b).last() == b);
    } else {
        assert(s.insert(m, b).drop_last() =~= s.drop_last().insert(m, b));
        assert(s.insert(m, b).last() == s.last());
        assert(s.last().id != b.id) by {
            if s.last().id == b.id {
                assert(s[s.len() - 1].id == b.id);
                assert(entries_contain(s, b.id));
            }
        }
        assert(!entries_contain(s.drop_last(), b.id)) by {
            if entries_contain(s.drop_last(), b.id) {
                let j = choose|j: int|
                    0 <= j < s.drop_last().len() && s.drop_last()[j].id == b.id;
                assert(s[j].id == b.id);
                assert(entries_contain(s, b.id));
            }
        }
        lemma_map_of_entries_insert_at(s.drop_last(), m, b);
        assert(map_of_entries(s.insert(m, b)) =~= map_of_entries(s).insert(b.id, b.title));
    }
}

/// Deleting entry `i` deletes exactly its id from the map.
pub proof fn lemma_map_of_entries_remove(s: Seq<BookView>, i: int)
    requires
        0 <= i < s.len(),
        entries_distinct(s),
    ensures
        map_of_entries(s.remove(i)) == map_of_entries(s).remove(s[i].id),
    decreases s.len(),
{
    if i == s.len() - 1 {
        assert(s.remove(i) =~= s.drop_last());
        lemma_map_of_entries_dom(s.drop_last());
        if entries_contain(s.drop_last(), s[i].id) {
            let j = choose|j: int|
                0 <= j < s.drop_last().len() && s.drop_last()[j].id == s[i].id;
            assert(s[j].id == s[i].id);
            assert(false);
        }
        assert(!map_of_entries(s.drop_last()).dom().contains(s[i].id));
        assert(map_of_entries(s.remove(i)) =~= map_of_entries(s).remove(s[i].id));
    } else {
        assert(s.remove(i).drop_last() =~= s.drop_last().remove(i));
        assert(s.remove(i).last() == s.last());
        assert(entries_distinct(s.drop_last()));
        assert(s.drop_last()[i] == s[i]);
        lemma_map_of_entries_remove(s.drop_last(), i);
        assert(s.last().id != s[i].id);
        assert(map_of_entries(s.remove(i)) =~= map_of_entries(s).remove(s[i].id));
    }
}

/// A collection of books, keyed by an auto-incrementing id.
///
/// The books are stored in ascending id order; every stored id was issued
/// by the counter and is therefore below it.
pub struct Library {
    pub(crate) id_counter: BookId,
    pub(crate) books: Vec<Book>,
}

impl View for Library {
    type V = LibraryView;

    closed spec fn view(&self) -> LibraryView {
        LibraryView { id_counter: self.id_counter, books: map_of_entries(self.canon()) }
    }
}

impl Library {
    /// The stored books, in ascending id order, as ghost entries.
    pub closed spec fn canon(&self) -> Seq<BookView> {
        self.books@.map_values(|b: Book| b@)
    }

    /// Well-formedness: books sorted strictly by id, and every stored id
    /// below the counter (so the counter exceeds every id ever issued).
    pub closed spec fn wf(&self) -> bool {
        &&& entries_sorted(self.canon())
        &&& forall|i: int| 0 <= i < self.canon().len() ==> (#[trigger] self.canon()[i]).id
            < self.id_counter
    }

    /// The map view is the one described by the canonical entries, and a
    /// well-formed library has them sorted, distinct, and below the counter.
    pub proof fn lemma_view_canon(&self)
        ensures
            self@.books == map_of_entries(self.canon()),
            self.wf() ==> entries_sorted(self.canon()) && entries_distinct(self.canon()),
            self.wf() ==> forall|id: BookId| #[trigger] self@.books.dom().contains(id) ==> id
                < self@.id_counter,
    {
        if self.wf() {
            lemma_map_of_entries_dom(self.canon());
            assert forall|id: BookId| #[trigger] self@.books.dom().contains(id) implies id
                < self@.id_counter by {
                let i = choose|i: int|
                    0 <= i < self.canon().len() && self.canon()[i].id == id;
                assert(self.canon()[i].id < self.id_counter);
            }
        }
    }

    /// Create a new, empty library.
    pub fn new() -> (r: Library)
        ensures
            r.wf(),
            r@.id_counter == 0,
            r@.books == Map::<BookId, Seq<char>>::empty(),
    {
        let r = Library { id_counter: 0, books: Vec::new() };
        proof {
            assert(r.canon() =~= Seq::<BookView>::empty());
        }
        r
    }

    /// Add a book to the library (in memory only): the next unused id is
    /// assigned to it and returned, and the counter moves past that id.
    pub fn add_book(&mut self, title: String) -> (id: BookId)
        requires
            old(self).wf(),
            old(self)@.id_counter < usize::MAX,
        ensures
            final(self).wf(),
            id == old(self)@.id_counter,
            !old(self)@.books.dom().contains(id),
            final(self)@.id_counter == id + 1,
            final(self)@.books == old(self)@.books.insert(id, title@),
            (final(self)@, id) == laws::spec_add(old(self)@, title@),
    {
        let id = self.id_counter;
        self.id_counter = self.id_counter + 1;
        let ghost title_view = title@;
        let book = Book { id, title };
        let ghost old_canon = self.canon();
        self.books.push(book);
        proof {
            assert(self.canon() =~= old_canon.push(BookView { id, title: title_view }));
            assert(self.canon().drop_last() =~= old_canon);
            lemma_map_of_entries_dom(old_canon);
        }
        id
    }

    /// Check if the library contains the book with the given id.
    pub fn has_book(&self, id: &BookId) -> (r: bool)
        ensures
            r == self@.books.dom().contains(*id),
    {
        proof {
            lemma_map_of_entries_dom(self.canon());
        }
        match self.find_index(id) {
            Some(i) => {
                proof {
                    assert(entries_contain(self.canon(), *id));
                    assert(map_of_entries(self.canon()).dom().contains(*id));
                }
                true
            },
            None => false,
        }
    }

    /// The position of the book with the given id, if it is present.
    fn find_index(&self, id: &BookId) -> (r: Option<usize>)
        ensures
            match r {
                Some(i) => i < self.canon().len() && self.canon()[i as int].id == *id,
                None => !entries_contain(self.canon(), *id),
            },
    {
        let n = self.books.len();
        let mut i: usize = 0;
        while i < n
            invariant
                n == self.books.len(),
                0 <= i <= n,
                forall|j: int| 0 <= j < i ==> (#[trigger] self.canon()[j]).id != *id,
            decreases n - i,
        {
            if self.books[i].id == *id {
                proof {
                    assert(self.canon()[i as int].id == *id);
                }
                return Some(i);
            }
            i = i + 1;
        }
        None
    }

    /// Returns a read-only view of the book with the given id, or
    /// `BookNotFound` exactly when no book carries it.
    pub fn get_book(&self, id: &BookId) -> (r: LibraryResult<&Book>)
        requires
            self.wf(),
        ensures
            (match r {
                Ok(b) => self@.books.dom().contains(*id) && b@.id == *id && b@.title
                    == self@.books[*id],
                Err(e) => !self@.books.dom().contains(*id) && e == LibraryError::BookNotFound(
                    *id,
                ),
            }),
    {
        proof {
            self.lemma_view_canon();
            lemma_map_of_entries_dom(self.canon());
        }
        match self.find_index(id) {
            Some(i) => {
                proof {
                    lemma_map_of_entries_get(self.canon(), i as int);
                }
                Ok(&self.books[i])
            },
            None => Err(LibraryError::BookNotFound(*id)),
        }
    }

    /// A mutable handle on the book at position `i`; the rest of the
    /// library is untouched.
    fn book_at_mut(&mut self, i: usize) -> (b: &mut Book)
        requires
            i < old(self).books.len(),
        ensures
            *b == old(self).books@[i as int],
            final(self).books@ == old(self).books@.update(i as int, *final(b)),
            final(self).id_counter == old(self).id_counter,
    {
        &mut self.books[i]
    }

    /// Returns a mutable view of the book with the given id, or
    /// `BookNotFound` exactly when no book carries it.  The caller can
    /// change the title through the returned handle; [`Book`] exposes no
    /// way to change an id, and [`lemma_book_replaced`] recovers the
    /// library's map view and well-formedness once the handle is dropped.
    pub fn get_book_mut(&mut self, id: &BookId) -> (r: LibraryResult<&mut Book>)
        requires
            old(self).wf(),
        ensures
            (match r {
                Ok(b) => {
                    &&& old(self)@.books.dom().contains(*id)
                    &&& (*b)@.id == *id
                    &&& (*b)@.title == old(self)@.books[*id]
                    &&& final(self)@.id_counter == old(self)@.id_counter
                    &&& final(self).canon().len() == old(self).canon().len()
                    &&& 0 <= entry_index(old(self).canon(), *id) < old(self).canon().len()
                    &&& final(self).canon()[entry_index(old(self).canon(), *id)] == final(b)@
                    &&& forall|j: int|
                        0 <= j < old(self).canon().len() && j != entry_index(
                            old(self).canon(),
                            *id,
                        ) ==> final(self).canon()[j] == old(self).canon()[j]
                },
                Err(e) => {
                    &&& !old(self)@.books.dom().contains(*id)
                    &&& e == LibraryError::BookNotFound(*id)
                    &&& *final(self) == *old(self)
                },
            }),
    {
        proof {
            self.lemma_view_canon();
            lemma_map_of_entries_dom(self.canon());
        }
        match self.find_index(id) {
            Some(i) => {
                proof {
                    lemma_map_of_entries_get(self.canon(), i as int);
                    lemma_entry_index(self.canon(), i as int);
                }
                let m = self.book_at_mut(i);
                Ok(m)
            },
            None => Err(LibraryError::BookNotFound(*id)),
        }
    }

    /// Removes the book with the given id and hands it to the caller, or
    /// fails with `BookNotFound` exactly when no book carries it; the
    /// counter is untouched, so the id is never reassigned.
    pub fn remove_book(&mut self, id: &BookId) -> (r: LibraryResult<Book>)
        requires
            old(self).wf(),
        ensures
            final(self).wf(),
            final(self)@.id_counter == old(self)@.id_counter,
            (match r {
                Ok(b) => {
                    &&& old(self)@.books.dom().contains(*id)
                    &&& b@.id == *id
                    &&& b@.title == old(self)@.books[*id]
                    &&& final(self)@.books == old(self)@.books.remove(*id)
                },
                Err(e) => {
                    &&& !old(self)@.books.dom().contains(*id)
                    &&& e == LibraryError::BookNotFound(*id)
                    &&& final(self)@.books == old(self)@.books
                },
            }),
    {
        proof {
            self.lemma_view_canon();
            lemma_map_of_entries_dom(self.canon());
        }
        match self.find_index(id) {
            Some(i) => {
                proof {
                    lemma_map_of_entries_get(self.canon(), i as int);
                    lemma_map_of_entries_remove(self.canon(), i as int);
                }
                let ghost old_canon = self.canon();
                let book = self.books.remove(i);
                proof {
                    assert(self.canon() =~= old_canon.remove(i as int));
                }
                Ok(book)
            },
            None => Err(LibraryError::BookNotFound(*id)),
        }
    }

    /// Mutation visibility: when the book carrying `id` has been replaced
    /// in place by one with the same id and the title `b.title` (as after
    /// `get_book_mut` followed by `set_title`), the library is again
    /// well-formed and its map view simply rebinds `id` to the new title —
    /// so `get_book(id)` now returns exactly that title.
    pub proof fn lemma_book_replaced(pre: Library, post: Library, id: BookId, b: BookView)
        requires
            pre.wf(),
            pre@.books.dom().contains(id),
            b.id == id,
            post@.id_counter == pre@.id_counter,
            post.canon().len() == pre.canon().len(),
            post.canon()[entry_index(pre.canon(), id)] == b,
            forall|j: int|
                0 <= j < pre.canon().len() && j != entry_index(pre.canon(), id)
                    ==> post.canon()[j] == pre.canon()[j],
        ensures
            post.wf(),
            post@.books == pre@.books.insert(id, b.title),
    {
        pre.lemma_view_canon();
        lemma_map_of_entries_dom(pre.canon());
        let i = entry_index(pre.canon(), id);
        assert(entries_contain(pre.canon(), id));
        assert(0 <= i < pre.canon().len() && pre.canon()[i].id == id);
        assert(post.canon() =~= pre.canon().update(i, b));
        lemma_entries_update_same_id(pre.canon(), i, b);
        post.lemma_view_canon();
    }

    /// Returns the stored books, in ascending id order; the sequence lists
    /// exactly the entries of the map view.
    pub fn iter_books(&self) -> (r: &Vec<Book>)
        ensures
            r@.map_values(|b: Book| b@) == self.canon(),
    {
        &self.books
    }

    /// Render the whole current state — counter and all books — as one
    /// JSON document, entries in ascending id order.
    pub fn to_json(&self) -> (r: String)
        ensures
            r@ == json::spec_doc(self@.id_counter, self.canon()),
    {
        proof {
            assert(self.books@.map_values(|b: Book| b@) =~= self.canon());
        }
        let chars = json::write_doc(self.id_counter, &self.books);
        json::chars_to_string(&chars)
    }

    /// Rebuild a library from one JSON document.  Exactly the documents
    /// [`json::spec_load`] accepts load, to exactly the snapshot it
    /// gives; anything else — malformed text, a key that differs from its
    /// entry's id, a duplicate id, an id the counter could not have
    /// issued, a number beyond `usize` — fails with
    /// `SerializationFailure`.
    pub fn from_json(s: &str) -> (r: LibraryResult<Library>)
        ensures
            (match r {
                Ok(lib) => json::spec_load(s@) == Some(lib@) && lib.wf(),
                Err(e) => json::spec_load(s@) is None && e == LibraryError::SerializationFailure,
            }),
    {
        let chars = json::str_chars(s);
        let (c, parsed, end) = match json::parse_doc_chars(&chars) {
            Some(x) => x,
            None => {
                return Err(LibraryError::SerializationFailure);
            },
        };
        let ghost es = parsed@.map_values(|b: Book| b@);
        let ghost endg = end as int;
        let mut books: Vec<Book> = Vec::new();
        let mut k: usize = 0;
        proof {
            assert(books@.map_values(|b: Book| b@) =~= Seq::<BookView>::empty());
            assert(es.take(0) =~= Seq::<BookView>::empty());
        }
        while k < parsed.len()
            invariant
                0 <= k <= parsed.len(),
                es == parsed@.map_values(|b: Book| b@),
                json::parse_doc(s@) == Some((c as BookId, es, endg)),
                json::skip_ws(s@, endg) == s@.len(),
                entries_sorted(books@.map_values(|b: Book| b@)),
                entries_distinct(books@.map_values(|b: Book| b@)),
                entries_distinct(es.take(k as int)),
                map_of_entries(books@.map_values(|b: Book| b@)) == map_of_entries(
                    es.take(k as int),
                ),
                forall|q: int| 0 <= q < k ==> (#[trigger] es[q]).id < c,
            decreases parsed.len() - k,
        {
            let ghost bviews = books@.map_values(|b: Book| b@);
            let idk = parsed[k].id;
            proof {
                assert(es[k as int].id == idk);
            }
            if idk >= c {
                proof {
                    assert(!json::valid_entries(es, c as BookId));
                }
                return Err(LibraryError::SerializationFailure);
            }
            let mut m: usize = 0;
            while m < books.len() && books[m].id < idk
                invariant
                    0 <= m <= books.len(),
                    bviews == books@.map_values(|b: Book| b@),
                    idk == es[k as int].id,
                    0 <= k < es.len(),
                    forall|q: int| 0 <= q < m ==> (#[trigger] bviews[q]).id < idk,
                decreases books.len() - m,
            {
                proof {
                    assert(bviews[m as int].id < idk);
                }
                m = m + 1;
            }
            if m < books.len() && books[m].id == idk {
                // A duplicate id: the file is no valid snapshot.
                proof {
                    assert(bviews[m as int].id == idk);
                    assert(entries_contain(bviews, idk));
                    lemma_map_of_entries_dom(bviews);
                    lemma_map_of_entries_dom(es.take(k as int));
                    assert(map_of_entries(bviews).dom().contains(idk));
                    assert(map_of_entries(es.take(k as int)).dom().contains(idk));
                    assert(entries_contain(es.take(k as int), idk));
                    let j = choose|j: int|
                        0 <= j < es.take(k as int).len() && es.take(k as int)[j].id == idk;
                    assert(es[j].id == idk && es[k as int].id == idk && j < k);
                    assert(!entries_distinct(es));
                    assert(!json::valid_entries(es, c as BookId));
                }
                return Err(LibraryError::SerializationFailure);
            }
            let copy = Book { id: idk, title: parsed[k].title.clone() };
            let ghost copyv = copy@;
            proof {
                assert(copyv == es[k as int]);
                assert(!entries_contain(bviews, idk)) by {
                    if entries_contain(bviews, idk) {
                        let q = choose|q: int|
                            0 <= q < bviews.len() && bviews[q].id == idk;
                        if q < m {
                            assert(bviews[q].id < idk);
                        } else {
                            if m < bviews.len() {
                                assert(entries_sorted(bviews));
                                if q > m {
                                    assert(bviews[m as int].id < bviews[q].id);
                                }
                                assert(bviews[m as int].id > idk || bviews[m as int].id == idk
                                    || bviews[m as int].id < idk);
                            }
                        }
                    }
                }
                lemma_map_of_entries_insert_at(bviews, m as int, copyv);
            }
            books.insert(m, copy);
            proof {
                assert(books@.map_values(|b: Book| b@) =~= bviews.insert(m as int, copyv));
                let nv = bviews.insert(m as int, copyv);
                assert forall|p: int, q: int| 0 <= p < q < nv.len() implies nv[p].id
                    < nv[q].id by {
                    if q < m {
                        assert(nv[p] == bviews[p] && nv[q] == bviews[q]);
                    } else if p > m {
                        assert(nv[p] == bviews[p - 1] && nv[q] == bviews[q - 1]);
                    } else if p < m && q == m {
                        assert(nv[p] == bviews[p] && bviews[p].id < idk);
                    } else if p == m && q > m {
                        assert(nv[q] == bviews[q - 1]);
                        assert(bviews[q - 1].id > idk) by {
                            assert(q - 1 >= m);
                            if m < bviews.len() {
                                assert(bviews[m as int].id > idk);
                                if q - 1 > m {
                                    assert(bviews[m as int].id < bviews[q - 1].id);
                                }
                            }
                        }
                    } else {
                        assert(p < m && q > m);
                        assert(nv[p] == bviews[p] && nv[q] == bviews[q - 1]);
                        assert(bviews[p].id < idk);
                        assert(bviews[q - 1].id > idk) by {
                            if m < bviews.len() {
                                assert(bviews[m as int].id > idk);
                                if q - 1 > m {
                                    assert(bviews[m as int].id < bviews[q - 1].id);
                                }
                            }
                        }
                    }
                }
                assert(es.take(k + 1).drop_last() =~= es.take(k as int));
                assert(es.take(k + 1).last() == es[k as int]);
                assert(map_of_entries(es.take(k + 1)) == map_of_entries(es.take(k as int)).insert(
                    es[k as int].id,
                    es[k as int].title,
                ));
                assert(entries_distinct(es.take(k + 1))) by {
                    lemma_map_of_entries_dom(bviews);
                    lemma_map_of_entries_dom(es.take(k as int));
                    assert forall|p: int, q: int|
                        0 <= p < q < es.take(k + 1).len() implies (#[trigger] es.take(k + 1)[p]).id
                        != (#[trigger] es.take(k + 1)[q]).id by {
                        if q < k {
                            assert(es.take(k as int)[p].id != es.take(k as int)[q].id);
                        } else {
                            assert(q == k);
                            if es[p].id == es[k as int].id {
                                assert(es.take(k as int)[p].id == idk);
                                assert(entries_contain(es.take(k as int), idk));
                                assert(map_of_entries(es.take(k as int)).dom().contains(idk));
                                assert(entries_contain(bviews, idk));
                            }
                        }
                    }
                }
            }
            k = k + 1;
        }
        proof {
            assert(es.take(parsed.len() as int) =~= es);
            assert(json::valid_entries(es, c as BookId)) by {
                assert(entries_distinct(es));
                assert forall|q: int| 0 <= q < es.len() implies (#[trigger] es[q]).id < c by {
                    assert(es[q].id < c);
                }
            }
        }
        let lib = Library { id_counter: c, books };
        proof {
            let bviews = lib.canon();
            assert(bviews == books@.map_values(|b: Book| b@));
            assert(map_of_entries(bviews) == map_of_entries(es));
            assert(lib.wf()) by {
                lemma_map_of_entries_dom(bviews);
                lemma_map_of_entries_dom(es);
                assert forall|q: int| 0 <= q < bviews.len() implies (#[trigger] bviews[q]).id
                    < lib.id_counter by {
                    assert(entries_contain(bviews, bviews[q].id));
                    assert(map_of_entries(bviews).dom().contains(bviews[q].id));
                    assert(entries_contain(es, bviews[q].id));
                    let j = choose|j: int| 0 <= j < es.len() && es[j].id == bviews[q].id;
                    assert(es[j].id < c);
                }
            }
        }
        Ok(lib)
    }
}

} // verus!
