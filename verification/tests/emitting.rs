use ssam::assign::assign;
use ssam::emit::{
    emission_order, emit, emit_in_order, file_name, files_in_order, find_missing, output_to_files,
    output_to_stdout, render, select, stream_in_order, Output,
};
use ssam::error::{ErrorKind, SampleError};
use ssam::random::generator;
use ssam::segment::parse_lines;
use ssam::sizes::SetSize;

fn column(raw: &[&str]) -> Vec<String> {
    raw.iter().map(|s| s.to_string()).collect()
}

#[test]
fn units_end_their_lines() {
    assert_eq!(render(&column(&["a", "b"]), None), "a\nb\n");
    assert_eq!(render(&column(&[]), None), "");
    assert_eq!(render(&column(&[]), Some("--")), "");
}

#[test]
fn delimiter_stands_between_units_only() {
    assert_eq!(render(&column(&["a", "b\nc", "d"]), Some("--")), "a\n--\nb\nc\n--\nd\n");
    assert_eq!(render(&column(&["a"]), Some("--")), "a\n");
    assert_eq!(render(&column(&["a", ""]), Some("")), "a\n\n\n");
}

#[test]
fn written_units_are_read_back_as_they_were() {
    let input: Vec<Option<String>> =
        ["a", "b", "--", "c", " -- ", "", "d", "--"].iter().map(|s| Some(s.to_string())).collect();
    let units = parse_lines(&input, Some("--")).unwrap();
    assert_eq!(units, column(&["a\nb", "c", "d", ""]));
    let text = render(&units, Some("--"));
    assert_eq!(text, "a\nb\n--\nc\n--\nd\n--\n\n");
    let again: Vec<Option<String>> = text.lines().map(|s| Some(s.to_string())).collect();
    assert_eq!(parse_lines(&again, Some("--")).unwrap(), units);
}

#[test]
fn units_of_one_set_are_selected_in_order() {
    let data = column(&["a", "b", "c", "d"]);
    let assignment = vec![vec![0], vec![1, 0, 0], vec![], vec![1]];
    let order = vec![0, 1, 2, 3];
    assert_eq!(select(&data, &assignment, &order, Some(0)), column(&["a", "b", "b"]));
    assert_eq!(select(&data, &assignment, &order, Some(1)), column(&["b", "d"]));
    assert_eq!(select(&data, &assignment, &order, Some(2)), column(&[]));
    assert_eq!(select(&data, &assignment, &order, None), column(&["a", "b", "b", "b", "d"]));
    let order = vec![3, 1, 0];
    assert_eq!(select(&data, &assignment, &order, Some(0)), column(&["b", "b", "a"]));
}

#[test]
fn destinations_are_named_by_prefix_set_and_extension() {
    assert_eq!(file_name("out", "train", "txt"), "out.train.txt");
    assert_eq!(file_name("dir/corpus", "set1", "tsv"), "dir/corpus.set1.tsv");
}

#[test]
fn unshuffled_order_is_the_order_of_the_input() {
    let mut rng = generator(Some(1)).unwrap();
    assert_eq!(emission_order(5, false, &mut rng), vec![0, 1, 2, 3, 4]);
    assert_eq!(emission_order(0, true, &mut rng), Vec::<usize>::new());
}

#[test]
fn shuffled_order_visits_each_row_once() {
    let mut rng = generator(Some(1)).unwrap();
    let order = emission_order(100, true, &mut rng);
    let ascending: Vec<usize> = (0..100).collect();
    assert_ne!(order, ascending);
    let mut sorted = order.clone();
    sorted.sort();
    assert_eq!(sorted, ascending);
}

#[test]
fn single_stream_receives_every_assigned_unit() {
    let data = column(&["a", "b", "c"]);
    let assignment = vec![vec![0], vec![], vec![0, 0]];
    assert_eq!(stream_in_order(&data, &assignment, None, &vec![0, 1, 2]), "a\nc\nc\n");
    assert_eq!(stream_in_order(&data, &assignment, Some("#"), &vec![2, 0]), "c\n#\nc\n#\na\n");
    let mut rng = generator(Some(1)).unwrap();
    assert_eq!(output_to_stdout(&data, &assignment, Some("#"), false, &mut rng), "a\n#\nc\n#\nc\n");
}

#[test]
fn each_column_and_set_has_its_destination() {
    let data = vec![column(&["a", "b", "c"]), column(&["x", "y", "z"])];
    let assignment = vec![vec![1], vec![0], vec![1]];
    let prefixes = column(&["left", "dir/right"]);
    let names = column(&["train", "rest"]);
    let files =
        files_in_order(&data, &assignment, &prefixes, &names, None, "txt", &vec![0, 1, 2]).unwrap();
    assert_eq!(files.len(), 2);
    assert_eq!(files[0].len(), 2);
    assert_eq!(files[0][0].name, "left.train.txt");
    assert_eq!(files[0][0].text, "b\n");
    assert_eq!(files[0][0].count, 1);
    assert_eq!(files[0][1].name, "left.rest.txt");
    assert_eq!(files[0][1].text, "a\nc\n");
    assert_eq!(files[0][1].count, 2);
    assert_eq!(files[1][0].name, "dir/right.train.txt");
    assert_eq!(files[1][0].text, "y\n");
    assert_eq!(files[1][1].name, "dir/right.rest.txt");
    assert_eq!(files[1][1].text, "x\nz\n");
    assert_eq!(files[1][1].count, 2);
}

#[test]
fn surplus_names_get_empty_destinations() {
    let data = vec![column(&["a", "b"])];
    let assignment = vec![vec![0], vec![0]];
    let files = files_in_order(
        &data,
        &assignment,
        &column(&["out"]),
        &column(&["one", "two"]),
        Some("--"),
        "txt",
        &vec![1, 0],
    )
    .unwrap();
    assert_eq!(files[0][0].text, "b\n--\na\n");
    assert_eq!(files[0][0].count, 2);
    assert_eq!(files[0][1].name, "out.two.txt");
    assert_eq!(files[0][1].text, "");
    assert_eq!(files[0][1].count, 0);
}

#[test]
fn a_set_without_a_name_has_no_destination() {
    let data = vec![column(&["a", "b"])];
    let assignment = vec![vec![0], vec![2]];
    let names = column(&["one", "two"]);
    let order = vec![0, 1];
    assert!(find_missing(1, 1, 2, &assignment, &order));
    assert!(!find_missing(1, 1, 3, &assignment, &order));
    assert!(!find_missing(0, 0, 2, &assignment, &order));
    assert!(!find_missing(1, 1, 2, &assignment, &vec![0]));
    let err = files_in_order(&data, &assignment, &column(&["out"]), &names, None, "txt", &order)
        .unwrap_err();
    assert_eq!(err, SampleError::MissingDestination);
    assert_eq!(err.kind(), ErrorKind::Internal);
    assert_eq!(err.exit_code(), 2);
}

#[test]
fn a_column_without_a_prefix_has_no_destination() {
    let data = vec![column(&["a"]), column(&["b"])];
    let names = column(&["one"]);
    let prefixes = column(&["out"]);
    let order = vec![0];
    assert!(find_missing(2, 1, 1, &vec![vec![0]], &order));
    assert!(!find_missing(2, 1, 1, &vec![vec![]], &order));
    let r = files_in_order(&data, &vec![vec![0]], &prefixes, &names, None, "txt", &order);
    assert_eq!(r.unwrap_err(), SampleError::MissingDestination);
    let r = files_in_order(&data, &vec![vec![]], &prefixes, &names, None, "txt", &order);
    assert_eq!(r.unwrap()[0][0].text, "");
}

#[test]
fn one_column_and_one_set_go_to_the_single_stream() {
    let data = vec![column(&["a", "b", "c"])];
    let assignment = vec![vec![0], vec![], vec![0]];
    let prefixes = column(&["out"]);
    let names = column(&["set1"]);
    let order = vec![0, 1, 2];
    match emit_in_order(&data, &assignment, &prefixes, &names, 1, None, "txt", &order).unwrap() {
        Output::Stream(text) => assert_eq!(text, "a\nc\n"),
        Output::Files(_) => panic!("expected the single stream"),
    }
    match emit_in_order(&data, &assignment, &prefixes, &names, 2, None, "txt", &order).unwrap() {
        Output::Stream(_) => panic!("expected destinations"),
        Output::Files(files) => {
            assert_eq!(files.len(), 1);
            assert_eq!(files[0][0].name, "out.set1.txt");
            assert_eq!(files[0][0].text, "a\nc\n");
        },
    }
}

#[test]
fn two_of_four_units_go_to_train_and_the_rest_to_rest() {
    let data = vec![column(&["a", "b", "c", "d"])];
    let sizes = vec![SetSize::Absolute(2), SetSize::Remainder];
    let names = column(&["train", "rest"]);
    let mut rng = generator(Some(12345)).unwrap();
    let assignment = assign(&sizes, 4, false, &mut rng).unwrap();
    let out = emit(&data, &assignment, &column(&["out"]), &names, 2, None, "txt", false, &mut rng)
        .unwrap();
    let files = match out {
        Output::Files(files) => files,
        Output::Stream(_) => panic!("expected destinations"),
    };
    assert_eq!(files[0][0].name, "out.train.txt");
    assert_eq!(files[0][1].name, "out.rest.txt");
    let train: Vec<String> = files[0][0].text.lines().map(|s| s.to_string()).collect();
    let rest: Vec<String> = files[0][1].text.lines().map(|s| s.to_string()).collect();
    assert_eq!(train.len(), 2);
    assert_eq!(rest.len(), 2);
    assert_eq!(files[0][0].count, 2);
    assert_eq!(files[0][1].count, 2);
    assert_ne!(train[0], train[1]);
    let mut all: Vec<String> = train.iter().chain(rest.iter()).cloned().collect();
    all.sort();
    assert_eq!(all, column(&["a", "b", "c", "d"]));
}

#[test]
fn same_seed_same_output() {
    let data = vec![
        (0..50).map(|i| format!("left {}", i)).collect::<Vec<String>>(),
        (0..50).map(|i| format!("right {}", i)).collect::<Vec<String>>(),
    ];
    let sizes = vec![SetSize::Absolute(10), SetSize::Remainder, SetSize::Absolute(5)];
    let names = column(&["train", "rest", "dev"]);
    let prefixes = column(&["l", "r"]);
    let mut texts: Vec<Vec<String>> = Vec::new();
    for _ in 0..2 {
        let mut rng = generator(Some(99)).unwrap();
        let assignment = assign(&sizes, 50, false, &mut rng).unwrap();
        let files = output_to_files(
            &data,
            &assignment,
            &prefixes,
            &names,
            Some("--"),
            "txt",
            true,
            &mut rng,
        )
        .unwrap();
        texts.push(files.iter().flatten().map(|d| d.text.clone()).collect());
    }
    assert_eq!(texts[0], texts[1]);
    assert_eq!(texts[0].len(), 6);
}

#[test]
fn columns_stay_aligned_in_shuffled_output() {
    let data = vec![
        (0..20).map(|i| format!("l{}", i)).collect::<Vec<String>>(),
        (0..20).map(|i| format!("r{}", i)).collect::<Vec<String>>(),
    ];
    let sizes = vec![SetSize::Absolute(8), SetSize::Remainder];
    let mut rng = generator(Some(4)).unwrap();
    let assignment = assign(&sizes, 20, false, &mut rng).unwrap();
    let files = output_to_files(
        &data,
        &assignment,
        &column(&["l", "r"]),
        &column(&["a", "b"]),
        None,
        "txt",
        true,
        &mut rng,
    )
    .unwrap();
    for set in 0..2 {
        let left: Vec<&str> = files[0][set].text.lines().collect();
        let right: Vec<&str> = files[1][set].text.lines().collect();
        assert_eq!(left.len(), right.len());
        for (l, r) in left.iter().zip(right.iter()) {
            assert_eq!(l[1..], r[1..]);
        }
    }
    assert_eq!(files[0][0].count, 8);
    assert_eq!(files[0][1].count, 12);
}
