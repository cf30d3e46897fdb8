use ssam::data::check_data;
use ssam::options::{
    fill_names, read_sizes, split_list, DEFAULT_EXTENSION, DEFAULT_SIZES, STDIN_STEM,
};
use ssam::sizes::SizeText;
use ssam::error::{ErrorKind, SampleError};
use ssam::exclude::{apply_exclude, mark_rows};
use ssam::segment::index_units;

fn column(raw: &[&str]) -> Vec<String> {
    raw.iter().map(|s| s.to_string()).collect()
}

#[test]
fn matching_units_are_removed() {
    let mut data = vec![column(&["a", "b", "c", "b"])];
    let exclude = vec![index_units(&column(&["b", "z"]))];
    assert_eq!(apply_exclude(&mut data, &exclude), Ok(()));
    assert_eq!(data, vec![column(&["a", "c"])]);
}

#[test]
fn a_match_in_one_column_removes_the_row_from_all() {
    let mut data = vec![column(&["a1", "a2", "a3", "a4"]), column(&["b1", "b2", "b3", "b4"])];
    let exclude = vec![index_units(&column(&["a2"])), index_units(&column(&["b4", "a1"]))];
    assert_eq!(apply_exclude(&mut data, &exclude), Ok(()));
    assert_eq!(data, vec![column(&["a1", "a3"]), column(&["b1", "b3"])]);
}

#[test]
fn references_match_their_own_column_only() {
    let mut data = vec![column(&["x", "y"]), column(&["y", "x"])];
    let exclude = vec![index_units(&column(&["q"])), index_units(&column(&["y"]))];
    let marks = mark_rows(&data, &exclude);
    assert_eq!(marks, vec![true, false]);
    assert_eq!(apply_exclude(&mut data, &exclude), Ok(()));
    assert_eq!(data, vec![column(&["y"]), column(&["x"])]);
}

#[test]
fn columns_of_unequal_length_lose_the_same_rows() {
    let mut data = vec![column(&["a", "b"]), column(&["c", "d", "e"])];
    let exclude = vec![index_units(&column(&["a"])), index_units(&column(&["e"]))];
    assert_eq!(apply_exclude(&mut data, &exclude), Ok(()));
    assert_eq!(data, vec![column(&["b"]), column(&["d"])]);
}

#[test]
fn nothing_matches_nothing_goes() {
    let mut data = vec![column(&["a", "b"])];
    let exclude = vec![index_units(&column(&[]))];
    assert_eq!(apply_exclude(&mut data, &exclude), Ok(()));
    assert_eq!(data, vec![column(&["a", "b"])]);
}

#[test]
fn reference_count_must_match_column_count() {
    let mut data = vec![column(&["a", "b"]), column(&["c", "d"])];
    let exclude = vec![index_units(&column(&["a"]))];
    let err = apply_exclude(&mut data, &exclude).unwrap_err();
    assert_eq!(err, SampleError::ExcludeCount { columns: 2, references: 1 });
    assert_eq!(err.kind(), ErrorKind::Config);
    assert_eq!(err.exit_code(), 1);
    assert_eq!(data, vec![column(&["a", "b"]), column(&["c", "d"])]);
}

#[test]
fn empty_data_is_refused() {
    assert_eq!(check_data(&vec![]), Err(SampleError::EmptyData));
    assert_eq!(check_data(&vec![column(&[])]), Err(SampleError::EmptyData));
    assert_eq!(check_data(&vec![column(&[]), column(&["a"])]), Err(SampleError::EmptyData));
    assert_eq!(SampleError::EmptyData.kind(), ErrorKind::Consistency);
    assert_eq!(SampleError::EmptyData.exit_code(), 1);
}

#[test]
fn columns_must_be_of_one_length() {
    let data = vec![column(&["a", "b"]), column(&["c", "d"]), column(&["e"]), column(&[])];
    let err = check_data(&data).unwrap_err();
    assert_eq!(err, SampleError::ColumnMismatch { column: 3 });
    assert_eq!(err.kind(), ErrorKind::Consistency);
    assert_eq!(err.exit_code(), 1);
}

#[test]
fn aligned_columns_give_their_length() {
    let data = vec![column(&["a", "b", "c"]), column(&["d", "e", "f"])];
    assert_eq!(check_data(&data), Ok(3));
    assert_eq!(check_data(&vec![column(&["a"])]), Ok(1));
}

#[test]
fn missing_names_are_numbered() {
    let mut names = column(&["train"]);
    assert!(!fill_names(&mut names, 3));
    assert_eq!(names, column(&["train", "set2", "set3"]));
}

#[test]
fn names_are_numbered_in_decimal() {
    let mut names: Vec<String> = Vec::new();
    assert!(!fill_names(&mut names, 12));
    assert_eq!(names[0], "set1");
    assert_eq!(names[9], "set10");
    assert_eq!(names[11], "set12");
}

#[test]
fn surplus_names_are_kept_and_reported() {
    let mut names = column(&["a", "b", "c"]);
    assert!(fill_names(&mut names, 2));
    assert_eq!(names, column(&["a", "b", "c"]));
    let mut exact = column(&["a", "b"]);
    assert!(!fill_names(&mut exact, 2));
    assert_eq!(exact, column(&["a", "b"]));
}

#[test]
fn lists_are_cut_at_commas() {
    assert_eq!(split_list("train,test,dev"), column(&["train", "test", "dev"]));
    assert_eq!(split_list("train"), column(&["train"]));
    assert_eq!(split_list(""), column(&[""]));
    assert_eq!(split_list(","), column(&["", ""]));
    assert_eq!(split_list("a,,b,"), column(&["a", "", "b", ""]));
    assert_eq!(split_list("\u{e9}t\u{e9},na\u{ef}ve"), column(&["\u{e9}t\u{e9}", "na\u{ef}ve"]));
}

#[test]
fn lists_are_cut_as_the_standard_library_cuts_them() {
    for text in ["", ",", "a", "a,b", ",a,,b,", "*,1000,0.5"] {
        let expected: Vec<String> = text.split(',').map(|s| s.to_string()).collect();
        assert_eq!(split_list(text), expected);
    }
}

#[test]
fn sizes_are_read_entry_by_entry() {
    assert_eq!(
        read_sizes("*,1000,0.5,+3"),
        Ok(vec![SizeText::Remainder, SizeText::Count(1000), SizeText::Fraction, SizeText::Count(3)])
    );
    assert_eq!(read_sizes("*"), Ok(vec![SizeText::Remainder]));
    assert_eq!(read_sizes("*,*"), Ok(vec![SizeText::Remainder, SizeText::Remainder]));
}

#[test]
fn one_bad_size_spoils_the_list() {
    assert_eq!(read_sizes(""), Err(SampleError::BadSize));
    assert_eq!(read_sizes("10,"), Err(SampleError::BadSize));
    assert_eq!(read_sizes("10,x,0.5"), Err(SampleError::BadSize));
    assert_eq!(read_sizes("10, 20"), Err(SampleError::BadSize));
}

#[test]
fn defaults_are_one_remainder_set_in_text_files() {
    assert_eq!(read_sizes(DEFAULT_SIZES), Ok(vec![SizeText::Remainder]));
    assert_eq!(DEFAULT_EXTENSION, "txt");
    assert_eq!(STDIN_STEM, "out");
}
