//! The book record: four free-text fields.

use vstd::prelude::*;
use crate::text::chars_contain;
use crate::text::string_to_chars;

verus! {

/// One book entry: title, author, isbn and published year, all kept as text.
/// No field is nullable; an unset field is the empty text.
#[derive(Debug)]
pub struct Book {
    pub title: String,
    pub author: String,
    pub isbn: String,
    pub published_year: String,
}

/// The mathematical value of a `Book`: its four fields as character sequences.
#[verifier::ext_equal]
pub struct BookView {
    pub title: Seq<char>,
    pub author: Seq<char>,
    pub isbn: Seq<char>,
    pub published_year: Seq<char>,
}

impl View for Book {
    type V = BookView;

    open spec fn view(&self) -> BookView {
        BookView {
            title: self.title@,
            author: self.author@,
            isbn: self.isbn@,
            published_year: self.published_year@,
        }
    }
}

impl DeepView for Book {
    type V = BookView;

    open spec fn deep_view(&self) -> BookView {
        self.view()
    }
}

impl Clone for Book {
    fn clone(&self) -> (r: Book)
        ensures
            r@ == self@,
    {
        Book {
            title: self.title.clone(),
            author: self.author.clone(),
            isbn: self.isbn.clone(),
            published_year: self.published_year.clone(),
        }
    }
}

/// A field may hold any text except a line break: in the backing file a line
/// break ends a row, so no field can contain one.
pub open spec fn field_valid(f: Seq<char>) -> bool {
    !f.contains('\n')
}

/// Every field of the record is free of line breaks.
pub open spec fn book_valid(b: BookView) -> bool {
    &&& field_valid(b.title)
    &&& field_valid(b.author)
    &&& field_valid(b.isbn)
    &&& field_valid(b.published_year)
}

/// Every record of the collection is free of line breaks.
pub open spec fn books_valid(bs: Seq<BookView>) -> bool {
    forall|i: int| 0 <= i < bs.len() ==> book_valid(#[trigger] bs[i])
}

fn field_valid_exec(f: &str) -> (r: bool)
    ensures
        r == field_valid(f@),
{
    let v = string_to_chars(f);
    !chars_contain(&v, '\n')
}

/// Whether the record can be written to the backing file as it stands.
pub fn book_is_valid(b: &Book) -> (r: bool)
    ensures
        r == book_valid(b@),
{
    field_valid_exec(b.title.as_str()) && field_valid_exec(b.author.as_str())
        && field_valid_exec(b.isbn.as_str()) && field_valid_exec(b.published_year.as_str())
}

} // verus!
