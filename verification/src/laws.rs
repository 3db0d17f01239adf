//! Laws of id assignment: ids are issued consecutively, never twice, and
//! never again once their book is removed.

use vstd::prelude::*;

use crate::BookId;
use crate::LibraryView;

verus! {

/// What one `add_book` call does to a snapshot, and the id it returns:
/// the counter's current value is issued, the new book is bound to it,
/// and the counter moves past it.
pub open spec fn spec_add(v: LibraryView, title: Seq<char>) -> (LibraryView, BookId)
    recommends
        v.id_counter < usize::MAX,
{
    (
        LibraryView {
            id_counter: (v.id_counter + 1) as BookId,
            books: v.books.insert(v.id_counter, title),
        },
        v.id_counter,
    )
}

/// The snapshot after a whole sequence of `add_book` calls.
pub open spec fn add_all(v: LibraryView, titles: Seq<Seq<char>>) -> LibraryView
    decreases titles.len(),
{
    if titles.len() == 0 {
        v
    } else {
        add_all(spec_add(v, titles[0]).0, titles.drop_first())
    }
}

/// The ids those calls return, in order.
pub open spec fn ids_returned(v: LibraryView, titles: Seq<Seq<char>>) -> Seq<BookId>
    decreases titles.len(),
{
    if titles.len() == 0 {
        Seq::empty()
    } else {
        seq![spec_add(v, titles[0]).1] + ids_returned(spec_add(v, titles[0]).0, titles.drop_first())
    }
}

/// Id uniqueness and monotonicity: over any sequence of `add_book` calls
/// the returned ids are consecutive from the starting counter, so they
/// are pairwise distinct and each is strictly greater than every earlier
/// one; the counter ends past them all.
pub proof fn lemma_ids_unique_monotonic(v: LibraryView, titles: Seq<Seq<char>>)
    requires
        v.id_counter + titles.len() <= usize::MAX,
    ensures
        ids_returned(v, titles).len() == titles.len(),
        forall|k: int|
            0 <= k < titles.len() ==> ids_returned(v, titles)[k] == v.id_counter + k,
        forall|p: int, q: int|
            0 <= p < q < titles.len() ==> ids_returned(v, titles)[p] < ids_returned(v, titles)[q],
        add_all(v, titles).id_counter == v.id_counter + titles.len(),
    decreases titles.len(),
{
    if titles.len() > 0 {
        let v1 = spec_add(v, titles[0]).0;
        lemma_ids_unique_monotonic(v1, titles.drop_first());
        assert forall|k: int| 0 <= k < titles.len() implies ids_returned(v, titles)[k]
            == v.id_counter + k by {
            if k > 0 {
                assert(ids_returned(v, titles)[k] == ids_returned(v1, titles.drop_first())[k - 1]);
            }
        }
    }
}

/// Id non-reuse: once `remove_book(id)` has succeeded, no later
/// `add_book` call ever returns `id` again.  Removal leaves the counter
/// alone, an id a library held is always below its counter, and every id
/// later returned is at least the counter.
pub proof fn lemma_removed_id_not_reissued(v: LibraryView, id: BookId, titles: Seq<Seq<char>>)
    requires
        id < v.id_counter,
        v.id_counter + titles.len() <= usize::MAX,
    ensures
        forall|k: int|
            0 <= k < titles.len() ==> ids_returned(
                LibraryView { id_counter: v.id_counter, books: v.books.remove(id) },
                titles,
            )[k] != id,
{
    let v2 = LibraryView { id_counter: v.id_counter, books: v.books.remove(id) };
    lemma_ids_unique_monotonic(v2, titles);
}

} // verus!
