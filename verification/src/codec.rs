//! The codec for the backing file: a delimited-text format with one header
//! row and one four-column row per record.
//!
//! A field is written raw unless it holds a delimiter or a quote, in which
//! case it is written quoted, with each embedded quote doubled. A line break
//! always ends a row, so no field may hold one (see `record::field_valid`).
//! Reading halts on the first malformed row and reports its index; the
//! header row is validated exactly.

use vstd::prelude::*;
use crate::record::Book;
use crate::record::BookView;
use crate::record::book_valid;
use crate::record::books_valid;
use crate::record::field_valid;
use crate::text::chars_contain;
use crate::text::chars_eq;
use crate::text::chars_to_string;
use crate::text::string_to_chars;

verus! {

/// Why a backing file's text was rejected.
#[derive(Clone, Copy, PartialEq, Eq, Structural, Debug)]
pub enum ParseError {
    /// The first line is missing or is not the exact header row.
    MissingHeader,
    /// The data row with this index (counting from zero, the header not
    /// counted) is malformed: bad quoting or not exactly four columns.
    BadRow(usize),
}

/// The fixed header row of the backing file.
pub open spec fn header() -> Seq<char> {
    seq![
        'T', 'i', 't', 'l', 'e', ',', 'A', 'u', 't', 'h', 'o', 'r', ',', 'I', 'S', 'B', 'N', ',',
        'P', 'u', 'b', 'l', 'i', 's', 'h', 'e', 'd', ' ', 'Y', 'e', 'a', 'r',
    ]
}

/// Whether a field must be written quoted: it holds a delimiter or a quote.
pub open spec fn needs_quoting(f: Seq<char>) -> bool {
    f.contains(',') || f.contains('"')
}

/// The field's characters with every quote doubled.
pub open spec fn escape_quotes(f: Seq<char>) -> Seq<char>
    decreases f.len(),
{
    if f.len() == 0 {
        Seq::empty()
    } else if f[0] == '"' {
        seq!['"', '"'] + escape_quotes(f.drop_first())
    } else {
        seq![f[0]] + escape_quotes(f.drop_first())
    }
}

/// One field as it stands in the file: raw, or quoted with doubled quotes.
pub open spec fn encode_field(f: Seq<char>) -> Seq<char> {
    if needs_quoting(f) {
        seq!['"'] + escape_quotes(f) + seq!['"']
    } else {
        f
    }
}

/// One record's row, without its terminating line break.
pub open spec fn encode_row(b: BookView) -> Seq<char> {
    encode_field(b.title) + seq![','] + encode_field(b.author) + seq![','] + encode_field(b.isbn)
        + seq![','] + encode_field(b.published_year)
}

/// The data rows, each terminated by a line break.
pub open spec fn encode_rows(bs: Seq<BookView>) -> Seq<char>
    decreases bs.len(),
{
    if bs.len() == 0 {
        Seq::empty()
    } else {
        encode_row(bs[0]) + seq!['\n'] + encode_rows(bs.drop_first())
    }
}

/// The whole backing file's text for a collection: the header row, then
/// one row per record, in order.
pub open spec fn spec_encode_library(bs: Seq<BookView>) -> Seq<char> {
    header() + seq!['\n'] + encode_rows(bs)
}

/// The state of the field scanner within one row.
#[derive(Clone, Copy, PartialEq, Eq, Structural, Debug)]
pub enum FieldState {
    /// At the start of a field.
    Start,
    /// Inside an unquoted field.
    Raw,
    /// Inside a quoted field.
    Quoted,
    /// Just after a quote inside a quoted field: a second quote means a
    /// literal quote, a delimiter or the end of the row closes the field.
    Closed,
}

/// Splits one row into its fields: `cur` is the field read so far, `acc`
/// the fields already read. `None` means the row's quoting is malformed.
pub open spec fn scan_fields(
    s: Seq<char>,
    cur: Seq<char>,
    acc: Seq<Seq<char>>,
    st: FieldState,
) -> Option<Seq<Seq<char>>>
    decreases s.len(),
{
    if s.len() == 0 {
        match st {
            FieldState::Quoted => None,
            _ => Some(acc.push(cur)),
        }
    } else {
        let c = s[0];
        let rest = s.drop_first();
        match st {
            FieldState::Start => if c == '"' {
                scan_fields(rest, cur, acc, FieldState::Quoted)
            } else if c == ',' {
                scan_fields(rest, Seq::empty(), acc.push(cur), FieldState::Start)
            } else {
                scan_fields(rest, cur.push(c), acc, FieldState::Raw)
            },
            FieldState::Raw => if c == ',' {
                scan_fields(rest, Seq::empty(), acc.push(cur), FieldState::Start)
            } else {
                scan_fields(rest, cur.push(c), acc, FieldState::Raw)
            },
            FieldState::Quoted => if c == '"' {
                scan_fields(rest, cur, acc, FieldState::Closed)
            } else {
                scan_fields(rest, cur.push(c), acc, FieldState::Quoted)
            },
            FieldState::Closed => if c == '"' {
                scan_fields(rest, cur.push('"'), acc, FieldState::Quoted)
            } else if c == ',' {
                scan_fields(rest, Seq::empty(), acc.push(cur), FieldState::Start)
            } else {
                None
            },
        }
    }
}

/// The fields of one row, or `None` when its quoting is malformed.
pub open spec fn parse_fields(line: Seq<char>) -> Option<Seq<Seq<char>>> {
    scan_fields(line, Seq::empty(), Seq::empty(), FieldState::Start)
}

/// The record a row's fields form, or `None` when there are not exactly four.
pub open spec fn row_to_book(fields: Seq<Seq<char>>) -> Option<BookView> {
    if fields.len() == 4 {
        Some(
            BookView {
                title: fields[0],
                author: fields[1],
                isbn: fields[2],
                published_year: fields[3],
            },
        )
    } else {
        None
    }
}

/// The record one row holds, or `None` when the row is malformed.
pub open spec fn parse_row(line: Seq<char>) -> Option<BookView> {
    match parse_fields(line) {
        None => None,
        Some(fs) => row_to_book(fs),
    }
}

/// The lines of `s`: `cur` is the line read so far, `acc` the lines already
/// read. A final line without a terminating line break still counts; a
/// terminating line break opens no further empty line.
pub open spec fn lines_rec(s: Seq<char>, cur: Seq<char>, acc: Seq<Seq<char>>) -> Seq<Seq<char>>
    decreases s.len(),
{
    if s.len() == 0 {
        if cur.len() == 0 {
            acc
        } else {
            acc.push(cur)
        }
    } else if s[0] == '\n' {
        lines_rec(s.drop_first(), Seq::empty(), acc.push(cur))
    } else {
        lines_rec(s.drop_first(), cur.push(s[0]), acc)
    }
}

/// The lines of `s`.
pub open spec fn lines_of(s: Seq<char>) -> Seq<Seq<char>> {
    lines_rec(s, Seq::empty(), Seq::empty())
}

/// The records of the given data rows; `Err(i)` names the first malformed
/// row, counting from `at`.
pub open spec fn parse_rows(ls: Seq<Seq<char>>, at: int) -> Result<Seq<BookView>, int>
    decreases ls.len(),
{
    if ls.len() == 0 {
        Ok(Seq::empty())
    } else {
        match parse_row(ls[0]) {
            None => Err(at),
            Some(b) => match parse_rows(ls.drop_first(), at + 1) {
                Ok(bs) => Ok(seq![b] + bs),
                Err(e) => Err(e),
            },
        }
    }
}

/// What a backing file's text decodes to: the collection it holds, or the
/// reason it was rejected.
pub open spec fn spec_parse_library(s: Seq<char>) -> Result<Seq<BookView>, ParseError> {
    let ls = lines_of(s);
    if ls.len() == 0 || ls[0] != header() {
        Err(ParseError::MissingHeader)
    } else {
        match parse_rows(ls.drop_first(), 0) {
            Ok(bs) => Ok(bs),
            Err(i) => Err(ParseError::BadRow(i as usize)),
        }
    }
}

/// The header row's characters.
fn header_chars() -> (r: Vec<char>)
    ensures
        r@ == header(),
{
    let mut v: Vec<char> = Vec::new();
    v.push('T');
    v.push('i');
    v.push('t');
    v.push('l');
    v.push('e');
    v.push(',');
    v.push('A');
    v.push('u');
    v.push('t');
    v.push('h');
    v.push('o');
    v.push('r');
    v.push(',');
    v.push('I');
    v.push('S');
    v.push('B');
    v.push('N');
    v.push(',');
    v.push('P');
    v.push('u');
    v.push('b');
    v.push('l');
    v.push('i');
    v.push('s');
    v.push('h');
    v.push('e');
    v.push('d');
    v.push(' ');
    v.push('Y');
    v.push('e');
    v.push('a');
    v.push('r');
    proof {
        assert(v@ =~= header());
    }
    v
}

proof fn lemma_escape_concat(a: Seq<char>, b: Seq<char>)
    ensures
        escape_quotes(a + b) == escape_quotes(a) + escape_quotes(b),
    decreases a.len(),
{
    if a.len() == 0 {
        assert(a + b =~= b);
        assert(Seq::<char>::empty() + escape_quotes(b) =~= escape_quotes(b));
    } else {
        assert((a + b).drop_first() =~= a.drop_first() + b);
        lemma_escape_concat(a.drop_first(), b);
        if a[0] == '"' {
            assert(seq!['"', '"'] + (escape_quotes(a.drop_first()) + escape_quotes(b)) =~= (
            seq!['"', '"'] + escape_quotes(a.drop_first())) + escape_quotes(b));
        } else {
            assert(seq![a[0]] + (escape_quotes(a.drop_first()) + escape_quotes(b)) =~= (seq![a[0]]
                + escape_quotes(a.drop_first())) + escape_quotes(b));
        }
    }
}

proof fn lemma_escape_one(c: char)
    ensures
        c == '"' ==> escape_quotes(seq![c]) == seq!['"', '"'],
        c != '"' ==> escape_quotes(seq![c]) == seq![c],
{
    assert(seq![c].drop_first() =~= Seq::<char>::empty());
    assert(escape_quotes(Seq::<char>::empty()) == Seq::<char>::empty());
    assert(seq![c].len() == 1 && seq![c][0] == c);
    if c == '"' {
        assert(escape_quotes(seq![c]) == seq!['"', '"'] + escape_quotes(seq![c].drop_first()));
        assert(seq!['"', '"'] + Seq::<char>::empty() =~= seq!['"', '"']);
    } else {
        assert(escape_quotes(seq![c]) == seq![c] + escape_quotes(seq![c].drop_first()));
        assert(seq![c] + Seq::<char>::empty() =~= seq![c]);
    }
}

fn push_escaped(out: &mut Vec<char>, f: &Vec<char>)
    ensures
        final(out)@ == old(out)@ + escape_quotes(f@),
{
    let ghost base = old(out)@;
    let mut i: usize = 0;
    while i < f.len()
        invariant
            i <= f@.len(),
            out@ == base + escape_quotes(f@.take(i as int)),
        decreases f@.len() - i,
    {
        let c = f[i];
        let ghost before = out@;
        if c == '"' {
            out.push('"');
            out.push('"');
            proof {
                lemma_escape_one(c);
                assert(out@ =~= before + seq!['"', '"']);
            }
        } else {
            out.push(c);
            proof {
                lemma_escape_one(c);
                assert(out@ =~= before + seq![c]);
            }
        }
        proof {
            assert(f@.take(i + 1) =~= f@.take(i as int) + seq![f@[i as int]]);
            lemma_escape_concat(f@.take(i as int), seq![f@[i as int]]);
            assert(out@ =~= base + escape_quotes(f@.take(i + 1)));
        }
        i = i + 1;
    }
    proof {
        assert(f@.take(f@.len() as int) =~= f@);
    }
}

fn push_all(out: &mut Vec<char>, f: &Vec<char>)
    ensures
        final(out)@ == old(out)@ + f@,
{
    let ghost base = old(out)@;
    let mut i: usize = 0;
    while i < f.len()
        invariant
            i <= f@.len(),
            out@ == base + f@.take(i as int),
        decreases f@.len() - i,
    {
        out.push(f[i]);
        proof {
            assert(base + f@.take(i + 1) =~= (base + f@.take(i as int)).push(f@[i as int]));
        }
        i = i + 1;
    }
    proof {
        assert(f@.take(f@.len() as int) =~= f@);
    }
}

fn push_field(out: &mut Vec<char>, f: &Vec<char>)
    ensures
        final(out)@ == old(out)@ + encode_field(f@),
{
    let quote = chars_contain(f, ',') || chars_contain(f, '"');
    if quote {
        let ghost base = out@;
        out.push('"');
        push_escaped(out, f);
        out.push('"');
        proof {
            assert(out@ =~= base + (seq!['"'] + escape_quotes(f@) + seq!['"']));
        }
    } else {
        push_all(out, f);
    }
}

fn push_row(out: &mut Vec<char>, b: &Book)
    ensures
        final(out)@ == old(out)@ + encode_row(b@) + seq!['\n'],
{
    let ghost base = out@;
    let title = string_to_chars(b.title.as_str());
    let author = string_to_chars(b.author.as_str());
    let isbn = string_to_chars(b.isbn.as_str());
    let year = string_to_chars(b.published_year.as_str());
    push_field(out, &title);
    out.push(',');
    push_field(out, &author);
    out.push(',');
    push_field(out, &isbn);
    out.push(',');
    push_field(out, &year);
    out.push('\n');
    proof {
        assert(out@ =~= base + encode_row(b@) + seq!['\n']);
    }
}

/// Renders the collection as the backing file's text: the header row, then
/// one row per record, in the given order. `None` when some record holds a
/// line break, which the backing format cannot carry; nothing is rendered
/// then, and the file is to be left as it stands.
pub fn write_library(books: &Vec<Book>) -> (r: Option<String>)
    ensures
        books_valid(books.deep_view()) ==> (r matches Some(s) && s@ == spec_encode_library(
            books.deep_view(),
        )),
        !books_valid(books.deep_view()) ==> r is None,
{
    let ghost bs = books.deep_view();
    let mut out: Vec<char> = header_chars();
    out.push('\n');
    let mut i: usize = 0;
    while i < books.len()
        invariant
            bs == books.deep_view(),
            i <= books@.len(),
            out@ == header() + seq!['\n'] + encode_rows(bs.take(i as int)),
            forall|k: int| 0 <= k < i ==> book_valid(#[trigger] bs[k]),
        decreases books@.len() - i,
    {
        if !crate::record::book_is_valid(&books[i]) {
            proof {
                assert(!book_valid(bs[i as int]));
            }
            return None;
        }
        let ghost before = out@;
        push_row(&mut out, &books[i]);
        proof {
            assert(bs.take(i + 1) =~= bs.take(i as int) + seq![bs[i as int]]);
            lemma_encode_rows_concat(bs.take(i as int), seq![bs[i as int]]);
            lemma_encode_rows_one(bs[i as int]);
            assert(out@ =~= header() + seq!['\n'] + encode_rows(bs.take(i + 1)));
        }
        i = i + 1;
    }
    proof {
        assert(bs.take(bs.len() as int) =~= bs);
    }
    Some(chars_to_string(&out))
}

fn split_lines(v: &Vec<char>) -> (r: Vec<Vec<char>>)
    ensures
        r.deep_view() == lines_of(v@),
{
    let mut acc: Vec<Vec<char>> = Vec::new();
    let mut cur: Vec<char> = Vec::new();
    let mut i: usize = 0;
    proof {
        assert(v@.skip(0) =~= v@);
        assert(acc.deep_view() =~~= Seq::<Seq<char>>::empty());
    }
    while i < v.len()
        invariant
            i <= v@.len(),
            lines_of(v@) == lines_rec(v@.skip(i as int), cur@, acc.deep_view()),
        decreases v@.len() - i,
    {
        let c = v[i];
        proof {
            assert(v@.skip(i as int)[0] == v@[i as int]);
            assert(v@.skip(i as int).drop_first() =~= v@.skip(i + 1));
        }
        if c == '\n' {
            let ghost a0 = acc.deep_view();
            let ghost c0 = cur@;
            acc.push(cur);
            cur = Vec::new();
            proof {
                assert(acc.deep_view() =~~= a0.push(c0));
            }
        } else {
            cur.push(c);
        }
        i = i + 1;
    }
    proof {
        assert(v@.skip(v@.len() as int) =~= Seq::<char>::empty());
    }
    if cur.len() > 0 {
        let ghost a0 = acc.deep_view();
        let ghost c0 = cur@;
        acc.push(cur);
        proof {
            assert(acc.deep_view() =~~= a0.push(c0));
        }
    }
    acc
}

fn parse_fields_exec(line: &Vec<char>) -> (r: Option<Vec<Vec<char>>>)
    ensures
        r matches Some(fs) ==> parse_fields(line@) == Some(fs.deep_view()),
        r is None ==> parse_fields(line@) is None,
{
    let mut st = FieldState::Start;
    let mut cur: Vec<char> = Vec::new();
    let mut acc: Vec<Vec<char>> = Vec::new();
    let mut i: usize = 0;
    proof {
        assert(line@.skip(0) =~= line@);
        assert(acc.deep_view() =~~= Seq::<Seq<char>>::empty());
    }
    while i < line.len()
        invariant
            i <= line@.len(),
            parse_fields(line@) == scan_fields(line@.skip(i as int), cur@, acc.deep_view(), st),
        decreases line@.len() - i,
    {
        let c = line[i];
        proof {
            assert(line@.skip(i as int)[0] == line@[i as int]);
            assert(line@.skip(i as int).drop_first() =~= line@.skip(i + 1));
        }
        match st {
            FieldState::Start => {
                if c == '"' {
                    st = FieldState::Quoted;
                } else if c == ',' {
                    let ghost a0 = acc.deep_view();
                    let ghost c0 = cur@;
                    acc.push(cur);
                    cur = Vec::new();
                    proof {
                        assert(acc.deep_view() =~~= a0.push(c0));
                    }
                } else {
                    cur.push(c);
                    st = FieldState::Raw;
                }
            },
            FieldState::Raw => {
                if c == ',' {
                    let ghost a0 = acc.deep_view();
                    let ghost c0 = cur@;
                    acc.push(cur);
                    cur = Vec::new();
                    st = FieldState::Start;
                    proof {
                        assert(acc.deep_view() =~~= a0.push(c0));
                    }
                } else {
                    cur.push(c);
                }
            },
            FieldState::Quoted => {
                if c == '"' {
                    st = FieldState::Closed;
                } else {
                    cur.push(c);
                }
            },
            FieldState::Closed => {
                if c == '"' {
                    cur.push('"');
                    st = FieldState::Quoted;
                } else if c == ',' {
                    let ghost a0 = acc.deep_view();
                    let ghost c0 = cur@;
                    acc.push(cur);
                    cur = Vec::new();
                    st = FieldState::Start;
                    proof {
                        assert(acc.deep_view() =~~= a0.push(c0));
                    }
                } else {
                    return None;
                }
            },
        }
        i = i + 1;
    }
    proof {
        assert(line@.skip(line@.len() as int) =~= Seq::<char>::empty());
    }
    match st {
        FieldState::Quoted => None,
        _ => {
            let ghost a0 = acc.deep_view();
            let ghost c0 = cur@;
            acc.push(cur);
            proof {
                assert(acc.deep_view() =~~= a0.push(c0));
            }
            Some(acc)
        },
    }
}

/// Decodes the backing file's text into the ordered collection it holds.
/// An empty file or a wrong first line is `MissingHeader`; the first
/// malformed data row halts the whole read with `BadRow`, so the result
/// is consistent across every operation that loads the file. A file with
/// only the header yields the empty collection.
pub fn read_library(text: &str) -> (r: Result<Vec<Book>, ParseError>)
    ensures
        r matches Ok(bs) ==> spec_parse_library(text@) == Ok::<Seq<BookView>, ParseError>(
            bs.deep_view(),
        ),
        r matches Err(e) ==> spec_parse_library(text@) == Err::<Seq<BookView>, ParseError>(e),
{
    let chars = string_to_chars(text);
    let lines = split_lines(&chars);
    let ghost ls = lines.deep_view();
    if lines.len() == 0 {
        return Err(ParseError::MissingHeader);
    }
    let hdr = header_chars();
    if !chars_eq(&lines[0], &hdr) {
        proof {
            assert(ls[0] =~= lines@[0]@);
        }
        return Err(ParseError::MissingHeader);
    }
    proof {
        assert(ls[0] =~= lines@[0]@);
        assert(ls[0] == header());
    }
    let ghost rows = ls.drop_first();
    let mut books: Vec<Book> = Vec::new();
    let mut j: usize = 1;
    proof {
        assert(rows.skip(0) =~= rows);
        assert(books.deep_view() =~= Seq::<BookView>::empty());
        match parse_rows(rows, 0) {
            Ok(bs) => {
                assert(Seq::<BookView>::empty() + bs =~= bs);
            },
            Err(_) => {},
        }
    }
    while j < lines.len()
        invariant
            1 <= j <= ls.len(),
            ls == lines.deep_view(),
            ls == lines_of(text@),
            ls.len() > 0,
            ls[0] == header(),
            lines@.len() == ls.len(),
            rows == ls.drop_first(),
            parse_rows(rows, 0) == (match parse_rows(rows.skip(j - 1), j - 1) {
                Ok(bs) => Ok::<Seq<BookView>, int>(books.deep_view() + bs),
                Err(e) => Err::<Seq<BookView>, int>(e),
            }),
        decreases ls.len() - j,
    {
        proof {
            assert(rows.skip(j - 1)[0] == rows[j - 1]);
            assert(rows[j - 1] == ls[j as int]);
            assert(ls[j as int] =~= lines@[j as int]@);
            assert(rows.skip(j - 1).drop_first() =~= rows.skip(j as int));
        }
        match parse_fields_exec(&lines[j]) {
            None => {
                return Err(ParseError::BadRow(j - 1));
            },
            Some(fields) => {
                if fields.len() != 4 {
                    return Err(ParseError::BadRow(j - 1));
                }
                let ghost fsv = fields.deep_view();
                let book = Book {
                    title: chars_to_string(&fields[0]),
                    author: chars_to_string(&fields[1]),
                    isbn: chars_to_string(&fields[2]),
                    published_year: chars_to_string(&fields[3]),
                };
                proof {
                    assert(fsv[0] =~= fields@[0]@);
                    assert(fsv[1] =~= fields@[1]@);
                    assert(fsv[2] =~= fields@[2]@);
                    assert(fsv[3] =~= fields@[3]@);
                    assert(row_to_book(fsv) matches Some(bv) && bv =~= book@);
                    assert(parse_row(rows[j - 1]) == Some(book@));
                }
                let ghost b0 = books.deep_view();
                books.push(book);
                proof {
                    assert(books.deep_view() =~= b0.push(book@));
                    match parse_rows(rows.skip(j as int), j as int) {
                        Ok(bs2) => {
                            assert(b0 + (seq![book@] + bs2) =~= b0.push(book@) + bs2);
                        },
                        Err(_) => {},
                    }
                }
            },
        }
        j = j + 1;
    }
    proof {
        assert(rows.skip(ls.len() - 1) =~= Seq::<Seq<char>>::empty());
        assert(parse_rows(rows.skip(ls.len() - 1), ls.len() - 1) == Ok::<Seq<BookView>, int>(
            Seq::empty(),
        ));
        assert(books.deep_view() + Seq::<BookView>::empty() =~= books.deep_view());
    }
    Ok(books)
}

proof fn lemma_encode_rows_concat(a: Seq<BookView>, b: Seq<BookView>)
    ensures
        encode_rows(a + b) == encode_rows(a) + encode_rows(b),
    decreases a.len(),
{
    if a.len() == 0 {
        assert(a + b =~= b);
        assert(Seq::<char>::empty() + encode_rows(b) =~= encode_rows(b));
    } else {
        assert((a + b).drop_first() =~= a.drop_first() + b);
        lemma_encode_rows_concat(a.drop_first(), b);
        assert((encode_row(a[0]) + seq!['\n'] + (encode_rows(a.drop_first()) + encode_rows(b))) =~= (
        encode_row(a[0]) + seq!['\n'] + encode_rows(a.drop_first())) + encode_rows(b));
    }
}

proof fn lemma_encode_rows_one(b: BookView)
    ensures
        encode_rows(seq![b]) == encode_row(b) + seq!['\n'],
{
    assert(seq![b].drop_first() =~= Seq::<BookView>::empty());
    assert(encode_rows(Seq::<BookView>::empty()) == Seq::<char>::empty());
    assert(encode_row(b) + seq!['\n'] + Seq::<char>::empty() =~= encode_row(b) + seq!['\n']);
}

proof fn lemma_contains_concat(a: Seq<char>, b: Seq<char>, c: char)
    ensures
        (a + b).contains(c) <==> (a.contains(c) || b.contains(c)),
{
    if (a + b).contains(c) {
        let i = choose|i: int| 0 <= i < (a + b).len() && (a + b)[i] == c;
        if i < a.len() {
            assert(a[i] == c);
        } else {
            assert(b[i - a.len()] == c);
        }
    }
    if a.contains(c) {
        let i = choose|i: int| 0 <= i < a.len() && a[i] == c;
        assert((a + b)[i] == c);
    }
    if b.contains(c) {
        let i = choose|i: int| 0 <= i < b.len() && b[i] == c;
        assert((a + b)[a.len() + i] == c);
    }
}

proof fn lemma_not_contains_one(x: char, c: char)
    requires
        x != c,
    ensures
        !seq![x].contains(c),
{
    if seq![x].contains(c) {
        let i = choose|i: int| 0 <= i < seq![x].len() && seq![x][i] == c;
        assert(seq![x][0] == x);
    }
}

proof fn lemma_not_contains_two(x: char, y: char, c: char)
    requires
        x != c,
        y != c,
    ensures
        !seq![x, y].contains(c),
{
    if seq![x, y].contains(c) {
        let i = choose|i: int| 0 <= i < seq![x, y].len() && seq![x, y][i] == c;
        assert(seq![x, y][0] == x && seq![x, y][1] == y);
    }
}

proof fn lemma_drop_first_not_contains(f: Seq<char>, c: char)
    requires
        f.len() > 0,
        !f.contains(c),
    ensures
        !f.drop_first().contains(c),
        f[0] != c,
{
    if f.drop_first().contains(c) {
        let i = choose|i: int| 0 <= i < f.drop_first().len() && f.drop_first()[i] == c;
        assert(f[i + 1] == c);
    }
    if f[0] == c {
        assert(f.contains(c));
    }
}

proof fn lemma_escape_no_newline(f: Seq<char>)
    requires
        !f.contains('\n'),
    ensures
        !escape_quotes(f).contains('\n'),
    decreases f.len(),
{
    if f.len() == 0 {
        if escape_quotes(f).contains('\n') {
            let i = choose|i: int|
                0 <= i < escape_quotes(f).len() && escape_quotes(f)[i] == '\n';
        }
    } else {
        lemma_drop_first_not_contains(f, '\n');
        lemma_escape_no_newline(f.drop_first());
        if f[0] == '"' {
            lemma_not_contains_two('"', '"', '\n');
            lemma_contains_concat(seq!['"', '"'], escape_quotes(f.drop_first()), '\n');
        } else {
            lemma_not_contains_one(f[0], '\n');
            lemma_contains_concat(seq![f[0]], escape_quotes(f.drop_first()), '\n');
        }
    }
}

proof fn lemma_encode_field_no_newline(f: Seq<char>)
    requires
        field_valid(f),
    ensures
        !encode_field(f).contains('\n'),
{
    if needs_quoting(f) {
        lemma_escape_no_newline(f);
        lemma_not_contains_one('"', '\n');
        lemma_contains_concat(seq!['"'], escape_quotes(f), '\n');
        lemma_contains_concat(seq!['"'] + escape_quotes(f), seq!['"'], '\n');
    }
}

proof fn lemma_encode_row_no_newline(b: BookView)
    requires
        book_valid(b),
    ensures
        !encode_row(b).contains('\n'),
{
    lemma_encode_field_no_newline(b.title);
    lemma_encode_field_no_newline(b.author);
    lemma_encode_field_no_newline(b.isbn);
    lemma_encode_field_no_newline(b.published_year);
    lemma_not_contains_one(',', '\n');
    let p1 = encode_field(b.title) + seq![','];
    lemma_contains_concat(encode_field(b.title), seq![','], '\n');
    let p2 = p1 + encode_field(b.author);
    lemma_contains_concat(p1, encode_field(b.author), '\n');
    let p3 = p2 + seq![','];
    lemma_contains_concat(p2, seq![','], '\n');
    let p4 = p3 + encode_field(b.isbn);
    lemma_contains_concat(p3, encode_field(b.isbn), '\n');
    let p5 = p4 + seq![','];
    lemma_contains_concat(p4, seq![','], '\n');
    lemma_contains_concat(p5, encode_field(b.published_year), '\n');
}

proof fn lemma_scan_raw(f: Seq<char>, rest: Seq<char>, cur: Seq<char>, acc: Seq<Seq<char>>)
    requires
        !f.contains(','),
    ensures
        scan_fields(f + rest, cur, acc, FieldState::Raw) == scan_fields(
            rest,
            cur + f,
            acc,
            FieldState::Raw,
        ),
    decreases f.len(),
{
    if f.len() == 0 {
        assert(f + rest =~= rest);
        assert(cur + f =~= cur);
    } else {
        let s = f + rest;
        assert(s[0] == f[0]);
        lemma_drop_first_not_contains(f, ',');
        assert(s.drop_first() =~= f.drop_first() + rest);
        lemma_scan_raw(f.drop_first(), rest, cur.push(f[0]), acc);
        assert(cur.push(f[0]) + f.drop_first() =~= cur + f);
    }
}

proof fn lemma_scan_quoted(f: Seq<char>, rest: Seq<char>, cur: Seq<char>, acc: Seq<Seq<char>>)
    ensures
        scan_fields(escape_quotes(f) + seq!['"'] + rest, cur, acc, FieldState::Quoted)
            == scan_fields(rest, cur + f, acc, FieldState::Closed),
    decreases f.len(),
{
    if f.len() == 0 {
        let s = escape_quotes(f) + seq!['"'] + rest;
        assert(escape_quotes(f) == Seq::<char>::empty());
        assert(s =~= seq!['"'] + rest);
        assert(s.len() > 0 && s[0] == '"');
        assert(s.drop_first() =~= rest);
        assert(scan_fields(s, cur, acc, FieldState::Quoted) == scan_fields(
            s.drop_first(),
            cur,
            acc,
            FieldState::Closed,
        ));
        assert(cur + f =~= cur);
    } else if f[0] == '"' {
        let e = escape_quotes(f);
        let s = e + seq!['"'] + rest;
        assert(e == seq!['"', '"'] + escape_quotes(f.drop_first()));
        assert(s[0] == '"');
        let s1 = s.drop_first();
        assert(s1 =~= seq!['"'] + escape_quotes(f.drop_first()) + seq!['"'] + rest);
        assert(scan_fields(s, cur, acc, FieldState::Quoted) == scan_fields(
            s1,
            cur,
            acc,
            FieldState::Closed,
        ));
        assert(s1.len() > 0 && s1[0] == '"');
        let s2 = s1.drop_first();
        assert(s2 =~= escape_quotes(f.drop_first()) + seq!['"'] + rest);
        assert(scan_fields(s1, cur, acc, FieldState::Closed) == scan_fields(
            s2,
            cur.push('"'),
            acc,
            FieldState::Quoted,
        ));
        lemma_scan_quoted(f.drop_first(), rest, cur.push('"'), acc);
        assert(cur.push('"') + f.drop_first() =~= cur + f);
    } else {
        let e = escape_quotes(f);
        let s = e + seq!['"'] + rest;
        assert(e == seq![f[0]] + escape_quotes(f.drop_first()));
        assert(s.len() > 0 && s[0] == f[0]);
        let s1 = s.drop_first();
        assert(s1 =~= escape_quotes(f.drop_first()) + seq!['"'] + rest);
        assert(scan_fields(s, cur, acc, FieldState::Quoted) == scan_fields(
            s1,
            cur.push(f[0]),
            acc,
            FieldState::Quoted,
        ));
        lemma_scan_quoted(f.drop_first(), rest, cur.push(f[0]), acc);
        assert(cur.push(f[0]) + f.drop_first() =~= cur + f);
    }
}

proof fn lemma_scan_field(f: Seq<char>, rest: Seq<char>, acc: Seq<Seq<char>>)
    requires
        rest.len() == 0 || rest[0] == ',',
    ensures
        rest.len() == 0 ==> scan_fields(encode_field(f) + rest, Seq::empty(), acc, FieldState::Start)
            == Some(acc.push(f)),
        rest.len() > 0 ==> scan_fields(encode_field(f) + rest, Seq::empty(), acc, FieldState::Start)
            == scan_fields(rest.drop_first(), Seq::empty(), acc.push(f), FieldState::Start),
{
    if needs_quoting(f) {
        let s = encode_field(f) + rest;
        assert(s[0] == '"');
        assert(s.drop_first() =~= escape_quotes(f) + seq!['"'] + rest);
        lemma_scan_quoted(f, rest, Seq::empty(), acc);
        assert(Seq::<char>::empty() + f =~= f);
        if rest.len() == 0 {
            assert(scan_fields(rest, f, acc, FieldState::Closed) == Some(acc.push(f)));
        } else {
            assert(rest[0] == ',');
        }
    } else {
        if f.len() == 0 {
            assert(encode_field(f) + rest =~= rest);
            assert(f =~= Seq::<char>::empty());
            if rest.len() == 0 {
                assert(scan_fields(rest, f, acc, FieldState::Start) == Some(acc.push(f)));
            } else {
                assert(rest[0] == ',');
            }
        } else {
            let s = encode_field(f) + rest;
            assert(s =~= f + rest);
            assert(s[0] == f[0]);
            lemma_drop_first_not_contains(f, ',');
            lemma_drop_first_not_contains(f, '"');
            assert(s.drop_first() =~= f.drop_first() + rest);
            lemma_scan_raw(f.drop_first(), rest, Seq::<char>::empty().push(f[0]), acc);
            assert(Seq::<char>::empty().push(f[0]) + f.drop_first() =~= f);
        }
    }
}

spec fn row_lines(bs: Seq<BookView>) -> Seq<Seq<char>>
    decreases bs.len(),
{
    if bs.len() == 0 {
        Seq::empty()
    } else {
        seq![encode_row(bs[0])] + row_lines(bs.drop_first())
    }
}

proof fn lemma_parse_encode_row(b: BookView)
    ensures
        parse_row(encode_row(b)) == Some(b),
{
    let t = b.title;
    let a = b.author;
    let i = b.isbn;
    let y = b.published_year;
    let rest3 = seq![','] + encode_field(y);
    let rest2 = seq![','] + encode_field(i) + rest3;
    let rest1 = seq![','] + encode_field(a) + rest2;
    assert(encode_row(b) =~= encode_field(t) + rest1);
    assert(rest1[0] == ',');
    lemma_scan_field(t, rest1, Seq::empty());
    assert(rest1.drop_first() =~= encode_field(a) + rest2);
    assert(rest2[0] == ',');
    lemma_scan_field(a, rest2, Seq::<Seq<char>>::empty().push(t));
    assert(rest2.drop_first() =~= encode_field(i) + rest3);
    assert(rest3[0] == ',');
    lemma_scan_field(i, rest3, Seq::<Seq<char>>::empty().push(t).push(a));
    assert(rest3.drop_first() =~= encode_field(y) + Seq::<char>::empty());
    lemma_scan_field(y, Seq::empty(), Seq::<Seq<char>>::empty().push(t).push(a).push(i));
    let fs = Seq::<Seq<char>>::empty().push(t).push(a).push(i).push(y);
    assert(parse_fields(encode_row(b)) == Some(fs));
    assert(fs.len() == 4 && fs[0] == t && fs[1] == a && fs[2] == i && fs[3] == y);
    assert(row_to_book(fs) matches Some(bv) && bv =~= b);
}

proof fn lemma_parse_rows_encoded(bs: Seq<BookView>, at: int)
    ensures
        parse_rows(row_lines(bs), at) == Ok::<Seq<BookView>, int>(bs),
    decreases bs.len(),
{
    if bs.len() == 0 {
        assert(row_lines(bs).len() == 0);
        assert(bs =~= Seq::<BookView>::empty());
    } else {
        let ls = row_lines(bs);
        assert(ls.len() > 0);
        assert(ls[0] == encode_row(bs[0]));
        lemma_parse_encode_row(bs[0]);
        assert(ls.drop_first() =~= row_lines(bs.drop_first()));
        lemma_parse_rows_encoded(bs.drop_first(), at + 1);
        assert(seq![bs[0]] + bs.drop_first() =~= bs);
    }
}

proof fn lemma_lines_rec_line(l: Seq<char>, rest: Seq<char>, cur: Seq<char>, acc: Seq<Seq<char>>)
    requires
        !l.contains('\n'),
    ensures
        lines_rec(l + seq!['\n'] + rest, cur, acc) == lines_rec(
            rest,
            Seq::empty(),
            acc.push(cur + l),
        ),
    decreases l.len(),
{
    if l.len() == 0 {
        let s = l + seq!['\n'] + rest;
        assert(s =~= seq!['\n'] + rest);
        assert(s[0] == '\n');
        assert(s.drop_first() =~= rest);
        assert(cur + l =~= cur);
    } else {
        let s = l + seq!['\n'] + rest;
        assert(s[0] == l[0]);
        lemma_drop_first_not_contains(l, '\n');
        assert(s.drop_first() =~= l.drop_first() + seq!['\n'] + rest);
        lemma_lines_rec_line(l.drop_first(), rest, cur.push(l[0]), acc);
        assert(cur.push(l[0]) + l.drop_first() =~= cur + l);
    }
}

proof fn lemma_lines_encode_rows(bs: Seq<BookView>, acc: Seq<Seq<char>>)
    requires
        books_valid(bs),
    ensures
        lines_rec(encode_rows(bs), Seq::empty(), acc) == acc + row_lines(bs),
    decreases bs.len(),
{
    if bs.len() == 0 {
        assert(acc + row_lines(bs) =~= acc);
    } else {
        assert(book_valid(bs[0]));
        lemma_encode_row_no_newline(bs[0]);
        lemma_lines_rec_line(encode_row(bs[0]), encode_rows(bs.drop_first()), Seq::empty(), acc);
        assert(Seq::<char>::empty() + encode_row(bs[0]) =~= encode_row(bs[0]));
        assert(books_valid(bs.drop_first())) by {
            assert(forall|i: int|
                0 <= i < bs.drop_first().len() ==> #[trigger] bs.drop_first()[i] == bs[i + 1]);
        }
        lemma_lines_encode_rows(bs.drop_first(), acc.push(encode_row(bs[0])));
        assert(acc.push(encode_row(bs[0])) + row_lines(bs.drop_first()) =~= acc + row_lines(bs));
    }
}

proof fn lemma_header_no_newline()
    ensures
        !header().contains('\n'),
{
    if header().contains('\n') {
        let i = choose|i: int| 0 <= i < header().len() && header()[i] == '\n';
        assert(header().len() == 32);
    }
}

/// Round trip: the backing-file text written for any collection of valid
/// records decodes back to exactly that collection — the same fields in
/// the same order.
pub proof fn lemma_write_read_round_trip(bs: Seq<BookView>)
    requires
        books_valid(bs),
    ensures
        spec_parse_library(spec_encode_library(bs)) == Ok::<Seq<BookView>, ParseError>(bs),
{
    let s = spec_encode_library(bs);
    lemma_header_no_newline();
    lemma_lines_rec_line(header(), encode_rows(bs), Seq::empty(), Seq::empty());
    assert(Seq::<char>::empty() + header() =~= header());
    assert(Seq::<Seq<char>>::empty().push(Seq::<char>::empty() + header())
        =~= Seq::<Seq<char>>::empty().push(header()));
    lemma_lines_encode_rows(bs, Seq::<Seq<char>>::empty().push(header()));
    let ls = lines_of(s);
    assert(ls == Seq::<Seq<char>>::empty().push(header()) + row_lines(bs));
    assert(ls[0] == header());
    assert(ls.drop_first() =~= row_lines(bs));
    lemma_parse_rows_encoded(bs, 0);
}

} // verus!
