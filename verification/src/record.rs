//! The written form of a response: a line of columns separated by tabs, with
//! the time, the contact details and the first three color preferences.
//! Splitting a text into rows and columns, building respondents from them,
//! and joining pieces of text for output.

use crate::respondent::{is_label, remaining_category, Category, Respondent};
use vstd::prelude::*;

verus! {

/// How many columns a response has: time, e-mail, name, phone number and
/// three colors.
pub const COLUMNS: usize = 7;

/// Why a line of columns is not a response.
#[derive(Clone, Copy, Debug, PartialEq, Eq, Structural)]
pub enum RecordError {
    /// There are fewer columns than a response has.
    MissingColumn,
    /// There are more columns than a response has.
    TooManyColumns,
    /// A color column holds none of the four labels.
    UnknownColor,
}

/// The pieces of `text` between occurrences of `separator`. There is one
/// piece more than there are separators; pieces may be empty.
pub open spec fn split_text(text: Seq<char>, separator: char) -> Seq<Seq<char>>
    decreases text.len(),
{
    if text.len() == 0 {
        seq![Seq::empty()]
    } else {
        let before = split_text(text.drop_last(), separator);
        if text.last() == separator {
            before.push(Seq::empty())
        } else {
            before.update(before.len() - 1, before.last().push(text.last()))
        }
    }
}

/// The pieces written one after another with `separator` between them.
pub open spec fn join_text(pieces: Seq<Seq<char>>, separator: char) -> Seq<char>
    decreases pieces.len(),
{
    if pieces.len() == 0 {
        Seq::empty()
    } else if pieces.len() == 1 {
        pieces[0]
    } else {
        join_text(pieces.drop_last(), separator).push(separator) + pieces.last()
    }
}

/// The pieces as texts.
pub open spec fn texts(pieces: Seq<Vec<char>>) -> Seq<Seq<char>> {
    Seq::new(pieces.len(), |i: int| pieces[i]@)
}

/// Splitting gives at least one piece, no piece holds the separator, and the
/// pieces joined by the separator are the text again.
pub proof fn lemma_split_text(text: Seq<char>, separator: char)
    ensures
        split_text(text, separator).len() >= 1,
        forall|i: int, j: int|
            0 <= i < split_text(text, separator).len() && 0 <= j < split_text(
                text,
                separator,
            )[i].len() ==> split_text(text, separator)[i][j] != separator,
        join_text(split_text(text, separator), separator) == text,
    decreases text.len(),
{
    let pieces = split_text(text, separator);
    if text.len() == 0 {
        assert(join_text(pieces, separator) =~= text);
    } else {
        let front = text.drop_last();
        let before = split_text(front, separator);
        lemma_split_text(front, separator);
        assert(front.push(text.last()) =~= text);
        if text.last() == separator {
            assert(pieces.drop_last() =~= before);
            assert(join_text(pieces, separator) =~= text);
        } else if before.len() == 1 {
            assert(join_text(pieces, separator) =~= text);
        } else {
            assert(pieces.drop_last() =~= before.drop_last());
            assert(join_text(pieces, separator) =~= join_text(before, separator).push(text.last()));
        }
    }
}

/// Splits the text at every occurrence of the separator.
pub fn split_on(text: &Vec<char>, separator: char) -> (pieces: Vec<Vec<char>>)
    ensures
        texts(pieces@) == split_text(text@, separator),
{
    let mut pieces: Vec<Vec<char>> = Vec::new();
    let mut current: Vec<char> = Vec::new();
    let n: usize = text.len();
    let mut i: usize = 0;
    proof {
        assert(texts(pieces@).push(current@) =~= split_text(text@.take(0), separator));
    }
    while i < n
        invariant
            i <= n,
            n == text@.len(),
            texts(pieces@).push(current@) == split_text(text@.take(i as int), separator),
        decreases n - i,
    {
        let ghost done = texts(pieces@);
        let ghost open = current@;
        let c = text[i];
        proof {
            assert(text@.take(i + 1).drop_last() =~= text@.take(i as int));
            assert(text@.take(i + 1).last() == c);
        }
        if c == separator {
            pieces.push(current);
            current = Vec::new();
            proof {
                assert(texts(pieces@) =~= done.push(open));
            }
        } else {
            current.push(c);
            proof {
                assert(done.push(current@) =~= done.push(open).update(
                    done.len() as int,
                    open.push(c),
                ));
            }
        }
        i += 1;
    }
    let ghost done = texts(pieces@);
    let ghost open = current@;
    pieces.push(current);
    proof {
        assert(text@.take(n as int) =~= text@);
        assert(texts(pieces@) =~= done.push(open));
    }
    pieces
}

/// Joins the pieces into one text with the separator between them.
pub fn join_on(pieces: &Vec<Vec<char>>, separator: char) -> (out: Vec<char>)
    ensures
        out@ == join_text(texts(pieces@), separator),
{
    let mut out: Vec<char> = Vec::new();
    let n: usize = pieces.len();
    let mut i: usize = 0;
    proof {
        assert(texts(pieces@).take(0).len() == 0);
    }
    while i < n
        invariant
            i <= n,
            n == pieces@.len(),
            out@ == join_text(texts(pieces@).take(i as int), separator),
        decreases n - i,
    {
        let ghost before = out@;
        if i > 0 {
            out.push(separator);
        }
        let ghost base = out@;
        let piece = &pieces[i];
        let m: usize = piece.len();
        let mut j: usize = 0;
        while j < m
            invariant
                j <= m,
                m == piece@.len(),
                out@ == base + piece@.take(j as int),
            decreases m - j,
        {
            out.push(piece[j]);
            proof {
                assert(piece@.take(j + 1) =~= piece@.take(j as int).push(piece@[j as int]));
                assert(out@ =~= base + piece@.take(j + 1));
            }
            j += 1;
        }
        proof {
            let upto = texts(pieces@).take(i + 1);
            assert(piece@.take(m as int) =~= piece@);
            assert(upto.drop_last() =~= texts(pieces@).take(i as int));
            assert(upto.last() == piece@);
            if i == 0 {
                assert(base =~= Seq::<char>::empty());
                assert(out@ =~= piece@);
            }
        }
        i += 1;
    }
    proof {
        assert(texts(pieces@).take(n as int) =~= texts(pieces@));
    }
    out
}

/// The rows of a text and their columns: the lines that end in a line feed,
/// each split at its tabs. What stands behind the last line feed is no row.
pub open spec fn rows_of_text(text: Seq<char>) -> Seq<Seq<Seq<char>>> {
    let lines = split_text(text, '\n');
    Seq::new((lines.len() - 1) as nat, |i: int| split_text(lines[i], '\t'))
}

/// Rows of columns as texts.
pub open spec fn row_texts(rows: Seq<Vec<Vec<char>>>) -> Seq<Seq<Seq<char>>> {
    Seq::new(rows.len(), |i: int| texts(rows[i]@))
}

/// Splits a text into its rows, and every row into its columns.
pub fn split_rows(text: &Vec<char>) -> (rows: Vec<Vec<Vec<char>>>)
    ensures
        row_texts(rows@) == rows_of_text(text@),
{
    let mut lines = split_on(text, '\n');
    proof {
        lemma_split_text(text@, '\n');
    }
    let ghost all_lines = lines@;
    lines.pop();
    let mut rows: Vec<Vec<Vec<char>>> = Vec::new();
    let n: usize = lines.len();
    let mut i: usize = 0;
    while i < n
        invariant
            i <= n,
            n == lines@.len(),
            rows@.len() == i,
            forall|k: int| 0 <= k < i ==> texts(#[trigger] rows@[k]@) == split_text(lines@[k]@, '\t'),
        decreases n - i,
    {
        let columns = split_on(&lines[i], '\t');
        rows.push(columns);
        i += 1;
    }
    proof {
        assert forall|k: int| 0 <= k < n implies texts(all_lines)[k] == lines@[k]@ by {}
        assert(row_texts(rows@) =~= rows_of_text(text@));
    }
    rows
}

/// Why a line of columns is not a response, if it is none.
pub open spec fn row_error(columns: Seq<String>) -> Option<RecordError> {
    if columns.len() < 7 {
        Some(RecordError::MissingColumn)
    } else if columns.len() > 7 {
        Some(RecordError::TooManyColumns)
    } else if !(is_label(columns[4]@) && is_label(columns[5]@) && is_label(columns[6]@)) {
        Some(RecordError::UnknownColor)
    } else {
        None
    }
}

/// The respondent is the one that the seven columns and the time describe:
/// e-mail, name and phone number from the second to fourth column, the first
/// three colors as labelled in the last three, the fourth color the one
/// left over.
pub open spec fn describes(r: Respondent, time: u64, columns: Seq<String>) -> bool {
    &&& r.time() == time
    &&& r.email() == columns[1]@
    &&& r.name() == columns[2]@
    &&& r.phone_number() == columns[3]@
    &&& r.preference(0).label_text() == columns[4]@
    &&& r.preference(1).label_text() == columns[5]@
    &&& r.preference(2).label_text() == columns[6]@
    &&& r.preference(3) == remaining_category(r.preference(0), r.preference(1), r.preference(2))
}

/// Row `k` is the first that is not a response.
pub open spec fn first_bad_row(rows: Seq<Vec<String>>, k: int) -> bool {
    &&& 0 <= k < rows.len()
    &&& row_error(rows[k]@) is Some
    &&& forall|j: int| 0 <= j < k ==> row_error(#[trigger] rows[j]@) is None
}

/// Builds the respondent that a line of columns describes. The first column
/// holds the time as written; `time` is its value in seconds. The next three
/// hold e-mail, name and phone number, the last three the labels of the
/// first, second and third color; the fourth color is the one left over.
pub fn respondent_from_columns(time: u64, columns: &Vec<String>) -> (r: Result<
    Respondent,
    RecordError,
>)
    ensures
        match row_error(columns@) {
            Some(e) => r == Err::<Respondent, RecordError>(e),
            None => r is Ok && describes(r->Ok_0, time, columns@),
        },
{
    if columns.len() < COLUMNS {
        return Err(RecordError::MissingColumn);
    }
    if columns.len() > COLUMNS {
        return Err(RecordError::TooManyColumns);
    }
    let first = Category::from_label(&columns[4]);
    let second = Category::from_label(&columns[5]);
    let third = Category::from_label(&columns[6]);
    match (first, second, third) {
        (Some(color1), Some(color2), Some(color3)) => {
            Ok(
                Respondent::new(
                    time,
                    columns[1].clone(),
                    columns[2].clone(),
                    columns[3].clone(),
                    color1,
                    color2,
                    color3,
                ),
            )
        },
        _ => Err(RecordError::UnknownColor),
    }
}

/// Builds one respondent per row, in the order of the rows; `times` holds
/// the value in seconds of each row's first column. Stops at the first row
/// that is not a response, with that row's error.
pub fn respondents_from_rows(times: &Vec<u64>, rows: &Vec<Vec<String>>) -> (r: Result<
    Vec<Respondent>,
    RecordError,
>)
    requires
        times@.len() == rows@.len(),
    ensures
        (forall|k: int| 0 <= k < rows@.len() ==> row_error(#[trigger] rows@[k]@) is None) ==> {
            &&& r is Ok
            &&& r->Ok_0@.len() == rows@.len()
            &&& forall|k: int|
                0 <= k < rows@.len() ==> describes(#[trigger] r->Ok_0@[k], times@[k], rows@[k]@)
        },
        forall|k: int| #[trigger]
            first_bad_row(rows@, k) ==> r == Err::<Vec<Respondent>, RecordError>(
                row_error(rows@[k]@)->Some_0,
            ),
{
    let mut respondents: Vec<Respondent> = Vec::new();
    let n: usize = rows.len();
    let mut i: usize = 0;
    while i < n
        invariant
            i <= n,
            n == rows@.len(),
            n == times@.len(),
            respondents@.len() == i,
            forall|k: int| 0 <= k < i ==> row_error(#[trigger] rows@[k]@) is None,
            forall|k: int|
                0 <= k < i ==> describes(#[trigger] respondents@[k], times@[k], rows@[k]@),
        decreases n - i,
    {
        match respondent_from_columns(times[i], &rows[i]) {
            Ok(respondent) => {
                respondents.push(respondent);
            },
            Err(e) => {
                proof {
                    assert(first_bad_row(rows@, i as int));
                    assert forall|k: int| #[trigger] first_bad_row(rows@, k) implies k == i by {
                        if k < i {
                            assert(row_error(rows@[k]@) is None);
                        } else if k > i {
                            assert(row_error(rows@[i as int]@) is None);
                        }
                    }
                }
                return Err(e);
            },
        }
        i += 1;
    }
    Ok(respondents)
}

} // verus!
