use ssam::emit::{output_prefix, render, Output};
use ssam::error::SampleError;
use ssam::pipeline::run;
use ssam::random::generator;
use ssam::segment::{index_units, parse_lines};
use ssam::sizes::SetSize;

fn column(raw: &[&str]) -> Vec<String> {
    raw.iter().map(|s| s.to_string()).collect()
}

#[test]
fn prefix_stands_inside_the_output_directory() {
    assert_eq!(output_prefix(Some("target/dir"), "corpus"), "target/dir/corpus");
    assert_eq!(output_prefix(None, "out"), "out");
    assert_eq!(output_prefix(Some(""), "out"), "/out");
}

#[test]
fn run_splits_a_column_into_named_sets() {
    let data = vec![column(&["a", "b", "c", "d", "e", "f"])];
    let sizes = vec![SetSize::Absolute(2), SetSize::Remainder, SetSize::Absolute(1)];
    let mut rng = generator(Some(8)).unwrap();
    let report = run(
        data,
        None,
        &sizes,
        column(&["train"]),
        &column(&["out"]),
        None,
        "txt",
        false,
        false,
        &mut rng,
    )
    .unwrap();
    assert_eq!(report.unassigned, 0);
    assert!(!report.surplus_names);
    let files = match report.output {
        Output::Files(files) => files,
        Output::Stream(_) => panic!("expected destinations"),
    };
    assert_eq!(files.len(), 1);
    assert_eq!(files[0].len(), 3);
    assert_eq!(files[0][0].name, "out.train.txt");
    assert_eq!(files[0][1].name, "out.set2.txt");
    assert_eq!(files[0][2].name, "out.set3.txt");
    assert_eq!(files[0][0].count, 2);
    assert_eq!(files[0][1].count, 3);
    assert_eq!(files[0][2].count, 1);
    let mut all: Vec<String> =
        files[0].iter().flat_map(|d| d.text.lines().map(|s| s.to_string())).collect();
    all.sort();
    assert_eq!(all, column(&["a", "b", "c", "d", "e", "f"]));
    for dest in files[0].iter() {
        let mut lines: Vec<&str> = dest.text.lines().collect();
        let written = lines.clone();
        lines.sort();
        assert_eq!(lines, written);
    }
}

#[test]
fn run_writes_one_column_and_one_set_to_the_stream() {
    let data = vec![column(&["a", "b", "c", "d"])];
    let sizes = vec![SetSize::Absolute(3)];
    let mut rng = generator(Some(8)).unwrap();
    let report = run(
        data,
        None,
        &sizes,
        column(&["x", "y"]),
        &column(&["out"]),
        Some("--"),
        "txt",
        false,
        false,
        &mut rng,
    )
    .unwrap();
    assert_eq!(report.unassigned, 1);
    assert!(report.surplus_names);
    match report.output {
        Output::Stream(text) => {
            let lines: Vec<&str> = text.lines().collect();
            assert_eq!(lines.len(), 5);
            assert_eq!(lines[1], "--");
            assert_eq!(lines[3], "--");
            assert!(lines[0] < lines[2] && lines[2] < lines[4]);
        },
        Output::Files(_) => panic!("expected the single stream"),
    }
}

#[test]
fn run_excludes_before_it_counts() {
    let data = vec![column(&["a", "b", "c"]), column(&["x", "y", "z"])];
    let exclude = vec![index_units(&column(&["b"])), index_units(&column(&["x"]))];
    let sizes = vec![SetSize::Absolute(1), SetSize::Absolute(1)];
    let mut rng = generator(Some(1)).unwrap();
    let r = run(
        data.clone(),
        Some(exclude),
        &sizes,
        vec![],
        &column(&["l", "r"]),
        None,
        "txt",
        false,
        false,
        &mut rng,
    );
    assert_eq!(r.unwrap_err(), SampleError::Capacity { available: 1 });
    let exclude = vec![index_units(&column(&["b"])), index_units(&column(&["x"]))];
    let sizes = vec![SetSize::Remainder, SetSize::Absolute(0)];
    let report = run(
        data,
        Some(exclude),
        &sizes,
        vec![],
        &column(&["l", "r"]),
        None,
        "txt",
        false,
        false,
        &mut rng,
    )
    .unwrap();
    match report.output {
        Output::Files(files) => {
            assert_eq!(files[0][0].name, "l.set1.txt");
            assert_eq!(files[0][0].text, "c\n");
            assert_eq!(files[1][0].text, "z\n");
            assert_eq!(files[1][1].name, "r.set2.txt");
            assert_eq!(files[1][1].text, "");
        },
        Output::Stream(_) => panic!("expected destinations"),
    }
}

#[test]
fn run_fails_in_a_fixed_order() {
    let mut rng = generator(Some(1)).unwrap();
    let two = vec![SetSize::Remainder, SetSize::Remainder];
    let r = run(
        vec![column(&["a"]), column(&["b"])],
        Some(vec![index_units(&column(&["a"]))]),
        &two,
        vec![],
        &column(&["l", "r"]),
        None,
        "txt",
        false,
        false,
        &mut rng,
    );
    assert_eq!(r.unwrap_err(), SampleError::ExcludeCount { columns: 2, references: 1 });
    let r = run(
        vec![column(&["a"])],
        Some(vec![index_units(&column(&["a"]))]),
        &two,
        vec![],
        &column(&["l"]),
        None,
        "txt",
        false,
        false,
        &mut rng,
    );
    assert_eq!(r.unwrap_err(), SampleError::EmptyData);
    let r = run(
        vec![column(&["a", "b"]), column(&["c"])],
        None,
        &two,
        vec![],
        &column(&["l", "r"]),
        None,
        "txt",
        false,
        false,
        &mut rng,
    );
    assert_eq!(r.unwrap_err(), SampleError::ColumnMismatch { column: 2 });
    let many = vec![SetSize::Remainder, SetSize::Absolute(3), SetSize::Remainder];
    let r = run(
        vec![column(&["a", "b"])],
        None,
        &many,
        vec![],
        &column(&["l"]),
        None,
        "txt",
        false,
        false,
        &mut rng,
    );
    assert_eq!(r.unwrap_err(), SampleError::Capacity { available: 2 });
    let r = run(
        vec![column(&["a", "b"])],
        None,
        &two,
        vec![],
        &column(&["l"]),
        None,
        "txt",
        false,
        false,
        &mut rng,
    );
    assert_eq!(r.unwrap_err(), SampleError::DuplicateRemainder);
    let r = run(
        vec![column(&["a", "b"]), column(&["c", "d"])],
        None,
        &vec![SetSize::Remainder],
        vec![],
        &column(&["l"]),
        None,
        "txt",
        false,
        false,
        &mut rng,
    );
    assert_eq!(r.unwrap_err(), SampleError::MissingDestination);
}

#[test]
fn same_seed_same_run() {
    let data: Vec<Vec<String>> = vec![(0..40).map(|i| format!("unit {}", i)).collect()];
    let sizes = vec![SetSize::Absolute(15), SetSize::Absolute(30)];
    let mut outputs: Vec<Vec<String>> = Vec::new();
    for seed in [5u64, 5u64, 6u64] {
        let mut rng = generator(Some(seed)).unwrap();
        let report = run(
            data.clone(),
            None,
            &sizes,
            vec![],
            &column(&["out"]),
            None,
            "txt",
            true,
            true,
            &mut rng,
        )
        .unwrap();
        match report.output {
            Output::Files(files) => outputs.push(files[0].iter().map(|d| d.text.clone()).collect()),
            Output::Stream(_) => panic!("expected destinations"),
        }
    }
    assert_eq!(outputs[0], outputs[1]);
    assert_ne!(outputs[0], outputs[2]);
    assert_eq!(outputs[0][0].lines().count(), 15);
    assert_eq!(outputs[0][1].lines().count(), 30);
}

#[test]
fn empty_unit_under_the_empty_delimiter_is_not_read_back() {
    let lines: Vec<Option<String>> = ["a", ""].iter().map(|s| Some(s.to_string())).collect();
    let units = parse_lines(&lines, Some("")).unwrap();
    assert_eq!(units, column(&["a", ""]));
    let text = render(&units, Some(""));
    assert_eq!(text, "a\n\n\n");
    let again: Vec<Option<String>> = text.lines().map(|s| Some(s.to_string())).collect();
    assert_eq!(parse_lines(&again, Some("")).unwrap(), column(&["a", "", ""]));
}

#[test]
fn lines_are_read_back_without_delimiter() {
    let units = column(&["a", "", "b c", " d"]);
    let text = render(&units, None);
    assert_eq!(text, "a\n\nb c\n d\n");
    let again: Vec<Option<String>> = text.lines().map(|s| Some(s.to_string())).collect();
    assert_eq!(parse_lines(&again, None).unwrap(), units);
}
