use color_groups::record::{
    join_on, respondent_from_columns, respondents_from_rows, split_on, split_rows, RecordError,
    COLUMNS,
};
use color_groups::respondent::Category;

fn chars(text: &str) -> Vec<char> {
    text.chars().collect()
}

fn pieces_of(text: &str, separator: char) -> Vec<String> {
    split_on(&chars(text), separator).iter().map(|p| p.iter().collect()).collect()
}

fn columns(line: &str) -> Vec<String> {
    pieces_of(line, '\t')
}

#[test]
fn a_response_has_seven_columns() {
    assert_eq!(COLUMNS, 7);
}

#[test]
fn split_gives_the_pieces_between_separators() {
    assert_eq!(pieces_of("a\tbc\td", '\t'), vec!["a", "bc", "d"]);
    assert_eq!(pieces_of("one\ntwo\n", '\n'), vec!["one", "two", ""]);
}

#[test]
fn split_of_empty_text_is_one_empty_piece() {
    assert_eq!(pieces_of("", '\t'), vec![""]);
}

#[test]
fn split_without_separator_is_the_text() {
    assert_eq!(pieces_of("no tabs here", '\t'), vec!["no tabs here"]);
}

#[test]
fn split_keeps_empty_pieces() {
    assert_eq!(pieces_of("\t\ta\t", '\t'), vec!["", "", "a", ""]);
    assert_eq!(pieces_of("\n", '\n'), vec!["", ""]);
}

#[test]
fn split_agrees_with_the_standard_library() {
    for text in ["", "x", "\t", "a\tb", "\ta\t\tb\t", "a b\tc d\t\t"] {
        let expected: Vec<String> = text.split('\t').map(|s| s.to_string()).collect();
        assert_eq!(pieces_of(text, '\t'), expected);
        let joined = pieces_of(text, '\t').join("\t");
        assert_eq!(joined, text);
    }
}

#[test]
fn seven_columns_make_a_respondent() {
    let line = "3/14/2024 15:09:26\tada@example.org\tAda\t555-0100\tBlues\tPinks + Purples\tGreens";
    let r = respondent_from_columns(99, &columns(line)).unwrap();
    assert_eq!(r.get_time(), 99);
    assert_eq!(r.get_email(), "ada@example.org");
    assert_eq!(r.get_name(), "Ada");
    assert_eq!(r.get_phone_number(), "555-0100");
    assert_eq!(r.get_color1(), Category::Blues);
    assert_eq!(r.get_color2(), Category::Purples);
    assert_eq!(r.get_color3(), Category::Greens);
    assert_eq!(r.get_color4(), Category::Reds);
}

#[test]
fn too_few_columns_are_rejected() {
    let line = "t\tada@example.org\tAda\t555-0100\tBlues\tGreens";
    assert_eq!(respondent_from_columns(1, &columns(line)), Err(RecordError::MissingColumn));
    assert_eq!(respondent_from_columns(1, &columns("")), Err(RecordError::MissingColumn));
    assert_eq!(respondent_from_columns(1, &vec![]), Err(RecordError::MissingColumn));
}

#[test]
fn too_many_columns_are_rejected() {
    let line = "t\tada@example.org\tAda\t555-0100\tBlues\tGreens\tReds + Oranges\textra";
    assert_eq!(respondent_from_columns(1, &columns(line)), Err(RecordError::TooManyColumns));
}

#[test]
fn unknown_color_is_rejected() {
    let line = "t\tada@example.org\tAda\t555-0100\tBlues\tGreen\tReds + Oranges";
    assert_eq!(respondent_from_columns(1, &columns(line)), Err(RecordError::UnknownColor));
    let line = "t\tada@example.org\tAda\t555-0100\t\tGreens\tReds + Oranges";
    assert_eq!(respondent_from_columns(1, &columns(line)), Err(RecordError::UnknownColor));
    let line = "t\tada@example.org\tAda\t555-0100\tBlues\tGreens\tReds";
    assert_eq!(respondent_from_columns(1, &columns(line)), Err(RecordError::UnknownColor));
}

fn joined(pieces: &[&str], separator: char) -> String {
    let pieces: Vec<Vec<char>> = pieces.iter().map(|p| chars(p)).collect();
    join_on(&pieces, separator).iter().collect()
}

fn rows_of(text: &str) -> Vec<Vec<String>> {
    split_rows(&chars(text))
        .iter()
        .map(|row| row.iter().map(|column| column.iter().collect()).collect())
        .collect()
}

#[test]
fn join_puts_the_separator_between_pieces() {
    assert_eq!(joined(&["a", "bc", "d"], ' '), "a bc d");
    assert_eq!(joined(&["one", "two"], '\n'), "one\ntwo");
}

#[test]
fn join_of_nothing_is_empty() {
    assert_eq!(joined(&[], '\n'), "");
}

#[test]
fn join_of_one_piece_is_the_piece() {
    assert_eq!(joined(&["alone"], '\n'), "alone");
    assert_eq!(joined(&[""], '\n'), "");
}

#[test]
fn join_keeps_empty_pieces() {
    assert_eq!(joined(&["", "a", "", ""], '\t'), "\ta\t\t");
}

#[test]
fn join_undoes_split() {
    for text in ["", "x", "\t", "a\tb", "\ta\t\tb\t"] {
        let pieces = split_on(&chars(text), '\t');
        let back: String = join_on(&pieces, '\t').iter().collect();
        assert_eq!(back, text);
    }
}

#[test]
fn rows_end_in_a_line_feed() {
    assert_eq!(rows_of("a\tb\nc\td\te\n"), vec![vec!["a", "b"], vec!["c", "d", "e"]]);
    assert_eq!(rows_of("a\tb\nc\td"), vec![vec!["a", "b"]]);
    assert_eq!(rows_of("\n\n"), vec![vec![""], vec![""]]);
}

#[test]
fn text_without_line_feed_has_no_rows() {
    assert!(rows_of("").is_empty());
    assert!(rows_of("a\tb\tc").is_empty());
}

#[test]
fn rows_become_respondents_in_order() {
    let text = "t1\ta@x\tA\t1\tBlues\tGreens\tReds + Oranges\n\
                t2\tb@x\tB\t2\tGreens\tPinks + Purples\tBlues\n";
    let rows = rows_of(text);
    let respondents = respondents_from_rows(&vec![20, 10], &rows).unwrap();
    assert_eq!(respondents.len(), 2);
    assert_eq!(respondents[0].get_name(), "A");
    assert_eq!(respondents[0].get_time(), 20);
    assert_eq!(respondents[0].get_color1(), Category::Blues);
    assert_eq!(respondents[0].get_color4(), Category::Purples);
    assert_eq!(respondents[1].get_name(), "B");
    assert_eq!(respondents[1].get_time(), 10);
    assert_eq!(respondents[1].get_color2(), Category::Purples);
    assert_eq!(respondents[1].get_color4(), Category::Reds);
}

#[test]
fn no_rows_give_no_respondents() {
    assert_eq!(respondents_from_rows(&vec![], &vec![]), Ok(vec![]));
}

#[test]
fn first_bad_row_decides_the_error() {
    let good = columns("t\ta@x\tA\t1\tBlues\tGreens\tReds + Oranges");
    let short = columns("t\ta@x\tA");
    let long = columns("t\ta@x\tA\t1\tBlues\tGreens\tReds + Oranges\tmore");
    let odd = columns("t\ta@x\tA\t1\tBlue\tGreens\tReds + Oranges");
    assert_eq!(
        respondents_from_rows(&vec![1, 2, 3], &vec![good.clone(), long.clone(), short.clone()]),
        Err(RecordError::TooManyColumns)
    );
    assert_eq!(
        respondents_from_rows(&vec![1, 2, 3], &vec![good.clone(), short, long]),
        Err(RecordError::MissingColumn)
    );
    assert_eq!(
        respondents_from_rows(&vec![1, 2], &vec![good.clone(), odd]),
        Err(RecordError::UnknownColor)
    );
}
