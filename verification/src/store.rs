//! The collection operations: querying and mutating an in-memory ordered
//! collection of records. Each operation of the catalog is a load of the
//! backing file, one of these pure steps, and (for mutations) a rewrite.
//!
//! All title and key comparisons are on trimmed text, uniformly across
//! search, lookup, insertion and removal.

use vstd::prelude::*;
use crate::record::Book;
use crate::record::BookView;
use crate::text::trimmed;
use crate::text::trimmed_eq;

verus! {

/// An insertion was rejected because a record with the same (trimmed)
/// title is already present. The file is left untouched.
#[derive(Clone, Copy, PartialEq, Eq, Structural, Debug)]
pub struct DuplicateError;

/// Whether the record's trimmed title equals the trimmed query title.
pub open spec fn title_matches(b: BookView, t: Seq<char>) -> bool {
    trimmed(b.title) == trimmed(t)
}

/// Whether some record of the collection has the given title.
pub open spec fn spec_exists(bs: Seq<BookView>, t: Seq<char>) -> bool {
    exists|i: int| 0 <= i < bs.len() && #[trigger] title_matches(bs[i], t)
}

/// The first record of the collection with the given title, if any.
pub open spec fn spec_find(bs: Seq<BookView>, t: Seq<char>) -> Option<BookView>
    decreases bs.len(),
{
    if bs.len() == 0 {
        None
    } else if title_matches(bs[0], t) {
        Some(bs[0])
    } else {
        spec_find(bs.drop_first(), t)
    }
}

/// The record returned by a lookup that finds nothing: all fields empty.
pub open spec fn empty_book() -> BookView {
    BookView {
        title: Seq::empty(),
        author: Seq::empty(),
        isbn: Seq::empty(),
        published_year: Seq::empty(),
    }
}

/// Whether removal with key `k` keeps the record: both its trimmed title
/// and its trimmed isbn differ from the trimmed key.
pub open spec fn keeps(b: BookView, k: Seq<char>) -> bool {
    trimmed(b.title) != trimmed(k) && trimmed(b.isbn) != trimmed(k)
}

/// The collection with every record matching key `k` (by title or isbn)
/// removed, order preserved.
pub open spec fn spec_remove(bs: Seq<BookView>, k: Seq<char>) -> Seq<BookView>
    decreases bs.len(),
{
    if bs.len() == 0 {
        Seq::empty()
    } else if keeps(bs[0], k) {
        seq![bs[0]] + spec_remove(bs.drop_first(), k)
    } else {
        spec_remove(bs.drop_first(), k)
    }
}

/// Whether some record of the collection has the given title.
pub fn search_book(books: &Vec<Book>, title: &String) -> (r: bool)
    ensures
        r == spec_exists(books.deep_view(), title@),
{
    let mut i: usize = 0;
    while i < books.len()
        invariant
            i <= books@.len(),
            forall|k: int| 0 <= k < i ==> !title_matches(books.deep_view()[k], title@),
        decreases books@.len() - i,
    {
        if trimmed_eq(books[i].title.as_str(), title.as_str()) {
            proof {
                assert(title_matches(books.deep_view()[i as int], title@));
            }
            return true;
        }
        i = i + 1;
    }
    false
}

proof fn lemma_find_skip(bs: Seq<BookView>, t: Seq<char>, i: int)
    requires
        0 <= i <= bs.len(),
        forall|k: int| 0 <= k < i ==> !title_matches(bs[k], t),
    ensures
        spec_find(bs, t) == spec_find(bs.skip(i), t),
    decreases i,
{
    if i == 0 {
        assert(bs.skip(0) =~= bs);
    } else {
        assert(bs.skip(1) =~= bs.drop_first());
        lemma_find_skip(bs.drop_first(), t, i - 1);
        assert(bs.drop_first().skip(i - 1) =~= bs.skip(i));
    }
}

/// The first record with the given title, or `None` when no title matches.
pub fn find_book(books: &Vec<Book>, title: &String) -> (r: Option<Book>)
    ensures
        match r {
            Some(b) => spec_find(books.deep_view(), title@) == Some(b@),
            None => spec_find(books.deep_view(), title@) is None,
        },
{
    let ghost bs = books.deep_view();
    let mut i: usize = 0;
    while i < books.len()
        invariant
            bs == books.deep_view(),
            i <= books@.len(),
            forall|k: int| 0 <= k < i ==> !title_matches(bs[k], title@),
        decreases books@.len() - i,
    {
        if trimmed_eq(books[i].title.as_str(), title.as_str()) {
            proof {
                lemma_find_skip(bs, title@, i as int);
                assert(bs.skip(i as int)[0] == bs[i as int]);
                assert(title_matches(bs[i as int], title@));
            }
            return Some(books[i].clone());
        }
        i = i + 1;
    }
    proof {
        lemma_find_skip(bs, title@, bs.len() as int);
        assert(bs.skip(bs.len() as int) =~= Seq::<BookView>::empty());
    }
    None
}

/// The first record with the given title; a record with all fields empty
/// when no title matches.
pub fn get_book(books: &Vec<Book>, title: &String) -> (r: Book)
    ensures
        match spec_find(books.deep_view(), title@) {
            Some(b) => r@ == b,
            None => r@ == empty_book(),
        },
{
    match find_book(books, title) {
        Some(b) => b,
        None => Book {
            title: String::new(),
            author: String::new(),
            isbn: String::new(),
            published_year: String::new(),
        },
    }
}

/// Appends the record unless a record with the same (trimmed) title is
/// already present; a duplicate leaves the collection unchanged.
pub fn add_book(books: &mut Vec<Book>, book: Book) -> (r: Result<(), DuplicateError>)
    ensures
        spec_exists(old(books).deep_view(), book@.title) ==> r is Err && final(books)@ == old(books)@,
        !spec_exists(old(books).deep_view(), book@.title) ==> r is Ok
            && final(books).deep_view() == old(books).deep_view().push(book@),
{
    if search_book(books, &book.title) {
        Err(DuplicateError)
    } else {
        let ghost prior = books.deep_view();
        books.push(book);
        proof {
            assert(books.deep_view() =~= prior.push(book@));
        }
        Ok(())
    }
}

proof fn lemma_remove_concat(a: Seq<BookView>, b: Seq<BookView>, k: Seq<char>)
    ensures
        spec_remove(a + b, k) == spec_remove(a, k) + spec_remove(b, k),
    decreases a.len(),
{
    if a.len() == 0 {
        assert(a + b =~= b);
        assert(Seq::<BookView>::empty() + spec_remove(b, k) =~= spec_remove(b, k));
    } else {
        assert((a + b).drop_first() =~= a.drop_first() + b);
        lemma_remove_concat(a.drop_first(), b, k);
        if keeps(a[0], k) {
            assert(seq![a[0]] + (spec_remove(a.drop_first(), k) + spec_remove(b, k)) =~= (
            seq![a[0]] + spec_remove(a.drop_first(), k)) + spec_remove(b, k));
        }
    }
}

proof fn lemma_remove_one(b: BookView, k: Seq<char>)
    ensures
        keeps(b, k) ==> spec_remove(seq![b], k) == seq![b],
        !keeps(b, k) ==> spec_remove(seq![b], k) == Seq::<BookView>::empty(),
{
    assert(seq![b].drop_first() =~= Seq::<BookView>::empty());
    assert(spec_remove(Seq::<BookView>::empty(), k) == Seq::<BookView>::empty());
    assert(seq![b].len() == 1 && seq![b][0] == b);
    if keeps(b, k) {
        assert(spec_remove(seq![b], k) == seq![b] + spec_remove(seq![b].drop_first(), k));
        assert(seq![b] + Seq::<BookView>::empty() =~= seq![b]);
    } else {
        assert(spec_remove(seq![b], k) == spec_remove(seq![b].drop_first(), k));
    }
}

/// The collection with every record matching key `k` (by trimmed title or
/// trimmed isbn) removed. Removal of an absent key succeeds and removes
/// nothing: that is deliberate, not an error.
pub fn remove_book(books: &Vec<Book>, key: &String) -> (r: Vec<Book>)
    ensures
        r.deep_view() == spec_remove(books.deep_view(), key@),
{
    let ghost bs = books.deep_view();
    let mut kept: Vec<Book> = Vec::new();
    let mut i: usize = 0;
    while i < books.len()
        invariant
            bs == books.deep_view(),
            i <= books@.len(),
            kept.deep_view() == spec_remove(bs.take(i as int), key@),
        decreases books@.len() - i,
    {
        let keep_title = !trimmed_eq(books[i].title.as_str(), key.as_str());
        let keep_isbn = !trimmed_eq(books[i].isbn.as_str(), key.as_str());
        let ghost prior = kept.deep_view();
        if keep_title && keep_isbn {
            kept.push(books[i].clone());
            proof {
                assert(kept.deep_view() =~= prior.push(bs[i as int]));
                assert(prior.push(bs[i as int]) =~= prior + seq![bs[i as int]]);
            }
        }
        proof {
            assert(bs.take(i + 1) =~= bs.take(i as int) + seq![bs[i as int]]);
            lemma_remove_concat(bs.take(i as int), seq![bs[i as int]], key@);
            lemma_remove_one(bs[i as int], key@);
            if keeps(bs[i as int], key@) {
            } else {
                assert(prior + Seq::<BookView>::empty() =~= prior);
            }
        }
        i = i + 1;
    }
    proof {
        assert(bs.take(bs.len() as int) =~= bs);
    }
    kept
}

/// A title is reported present exactly when a lookup for it returns a
/// record: `spec_exists` and `spec_find` agree on every collection and
/// every title.
pub proof fn lemma_exists_iff_find(bs: Seq<BookView>, t: Seq<char>)
    ensures
        spec_exists(bs, t) <==> spec_find(bs, t) is Some,
    decreases bs.len(),
{
    if bs.len() == 0 {
    } else if title_matches(bs[0], t) {
        assert(spec_exists(bs, t));
    } else {
        lemma_exists_iff_find(bs.drop_first(), t);
        if spec_exists(bs, t) {
            let i = choose|i: int| 0 <= i < bs.len() && #[trigger] title_matches(bs[i], t);
            assert(title_matches(bs.drop_first()[i - 1], t));
        }
        if spec_exists(bs.drop_first(), t) {
            let j = choose|j: int|
                0 <= j < bs.drop_first().len() && #[trigger] title_matches(
                    bs.drop_first()[j],
                    t,
                );
            assert(title_matches(bs[j + 1], t));
        }
    }
}

/// Adding a record makes its title present, so a second insertion of a
/// record with the same title is rejected and, by the contract of
/// `add_book`, leaves the collection unchanged. When the title was absent
/// before the first insertion, the collection holds the new record exactly
/// once: it did not hold it before, and it holds it afterwards, while every
/// older entry is untouched by `push`.
pub proof fn lemma_add_guard(bs: Seq<BookView>, b: BookView, again: BookView)
    requires
        trimmed(again.title) == trimmed(b.title),
    ensures
        spec_exists(bs.push(b), again.title),
        !spec_exists(bs, b.title) ==> !bs.contains(b) && bs.push(b).contains(b),
{
    assert(title_matches(bs.push(b)[bs.len() as int], again.title));
    if bs.contains(b) {
        let i = choose|i: int| 0 <= i < bs.len() && bs[i] == b;
        assert(title_matches(bs[i], b.title));
        assert(spec_exists(bs, b.title));
    }
    assert(bs.push(b)[bs.len() as int] == b);
}

/// Removal keeps exactly the records whose trimmed title and trimmed isbn
/// both differ from the trimmed key: no surviving record matches the key.
pub proof fn lemma_remove_keeps_only(bs: Seq<BookView>, k: Seq<char>)
    ensures
        forall|j: int|
            0 <= j < spec_remove(bs, k).len() ==> keeps(#[trigger] spec_remove(bs, k)[j], k),
    decreases bs.len(),
{
    if bs.len() > 0 {
        lemma_remove_keeps_only(bs.drop_first(), k);
        let r = spec_remove(bs, k);
        let rr = spec_remove(bs.drop_first(), k);
        if keeps(bs[0], k) {
            assert forall|j: int| 0 <= j < r.len() implies keeps(#[trigger] r[j], k) by {
                if j == 0 {
                    assert(r[j] == bs[0]);
                } else {
                    assert(r[j] == rr[j - 1]);
                }
            }
        } else {
            assert forall|j: int| 0 <= j < r.len() implies keeps(#[trigger] r[j], k) by {
                assert(r[j] == rr[j]);
            }
        }
    }
}

/// A record that matches the key — by its title or by its isbn — does not
/// survive removal with that key.
pub proof fn lemma_remove_matches_either_key(bs: Seq<BookView>, b: BookView, k: Seq<char>)
    requires
        trimmed(b.title) == trimmed(k) || trimmed(b.isbn) == trimmed(k),
    ensures
        !spec_remove(bs, k).contains(b),
{
    lemma_remove_keeps_only(bs, k);
    if spec_remove(bs, k).contains(b) {
        let j = choose|j: int| 0 <= j < spec_remove(bs, k).len() && spec_remove(bs, k)[j] == b;
        assert(keeps(spec_remove(bs, k)[j], k));
    }
}

/// Removal with a key that no record matches removes nothing: the
/// collection comes back unchanged.
pub proof fn lemma_remove_absent_key_noop(bs: Seq<BookView>, k: Seq<char>)
    requires
        forall|i: int| 0 <= i < bs.len() ==> keeps(#[trigger] bs[i], k),
    ensures
        spec_remove(bs, k) == bs,
    decreases bs.len(),
{
    if bs.len() == 0 {
        assert(spec_remove(bs, k) =~= bs);
    } else {
        assert(forall|i: int|
            0 <= i < bs.drop_first().len() ==> #[trigger] bs.drop_first()[i] == bs[i + 1]);
        lemma_remove_absent_key_noop(bs.drop_first(), k);
        assert(seq![bs[0]] + bs.drop_first() =~= bs);
    }
}

} // verus!

