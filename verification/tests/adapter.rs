use intiterator::{CorrectLines, CorrectLinesIterator, FailurePolicy, ParseFailure};

fn lines(texts: &[&str]) -> Vec<String> {
    texts.iter().map(|t| t.to_string()).collect()
}

#[test]
fn test_int_adapter_with_vector() {
    let a = vec![String::from("1"), String::from("1.2")];
    let mut int_iter = a.to_int();
    let next = int_iter.next();
    match next {
        None => panic!(),
        Some(res) => match res {
            Ok(el) => {
                assert_eq!(el, 1)
            }
            Err(_) => panic!(),
        },
    }
    let next = int_iter.next();
    match next {
        None => panic!(),
        Some(res) => {
            assert_eq!(res.is_err(), true)
        }
    }
    let next = int_iter.next();
    assert_eq!(next, None)
}

#[test]
fn it_handles_empty_files() {
    let mut int_iter = lines(&[]).to_int();
    let result = int_iter.next_numbered();
    assert_eq!(result, None);
}

#[test]
fn it_handles_file_with_one_line() {
    let mut int_reader = lines(&["1234", ""]).to_int();
    assert_eq!(int_reader.next_numbered(), Some((0, Ok(1234))));
    match int_reader.next_numbered() {
        None => {
            panic!()
        }
        Some((line, el)) => {
            assert_eq!(line, 1);
            assert_eq!(el.is_err(), true)
        }
    }
    assert_eq!(int_reader.next_numbered(), None)
}

#[test]
fn test_with_odd_lines_files() {
    let int_reader = lines(&["10", "a", "20", "b", "30", "c", "40"]).to_int();
    let mut index = 0;
    for el in int_reader.enumerate() {
        let (line, res) = el;
        assert_eq!(line, index);
        if index % 2 == 0 {
            assert_eq!(res.is_ok(), true)
        } else {
            assert_eq!(res.is_err(), true)
        }

        index = index + 1;
    }
    assert_eq!(index, 7);
}

#[test]
fn strict_adapter_emits_value_then_failure() {
    let adapter = CorrectLines::new(lines(&["1", "1.2"]));
    assert_eq!(
        adapter.enumerate(),
        vec![(0, Ok(1)), (1, Err(ParseFailure::InvalidDigit))]
    );
}

#[test]
fn strict_adapter_goes_on_after_a_failure() {
    let adapter = CorrectLines::with_policy(lines(&["x", "", "7"]), FailurePolicy::Surface);
    assert_eq!(
        adapter.enumerate(),
        vec![
            (0, Err(ParseFailure::InvalidDigit)),
            (1, Err(ParseFailure::Empty)),
            (2, Ok(7))
        ]
    );
}

#[test]
fn lenient_adapter_emits_single_value() {
    let mut adapter = CorrectLines::with_policy(lines(&["1", "1.2"]), FailurePolicy::Skip);
    assert_eq!(adapter.next(), Some(Ok(1)));
    assert_eq!(adapter.next(), None);
    assert_eq!(adapter.next(), None);
}

#[test]
fn lenient_adapter_does_not_stop_at_a_failure() {
    let mut adapter = CorrectLines::with_policy(lines(&["1.2", "", "5", "x"]), FailurePolicy::Skip);
    assert_eq!(adapter.next(), Some(Ok(5)));
    assert_eq!(adapter.next(), None);
}

#[test]
fn lenient_adapter_keeps_line_positions() {
    let adapter = CorrectLines::with_policy(lines(&["x", "1", "y", "z", "2"]), FailurePolicy::Skip);
    assert_eq!(adapter.enumerate(), vec![(1, Ok(1)), (4, Ok(2))]);
}

#[test]
fn lenient_adapter_over_failures_only_is_empty() {
    let adapter = CorrectLines::with_policy(lines(&["a", "b", ""]), FailurePolicy::Skip);
    assert_eq!(adapter.enumerate(), vec![]);
}

#[test]
fn enumerate_returns_what_is_left() {
    let mut adapter = lines(&["1", "2", "3"]).to_int();
    assert_eq!(adapter.next_numbered(), Some((0, Ok(1))));
    assert_eq!(adapter.enumerate(), vec![(1, Ok(2)), (2, Ok(3))]);
}

#[test]
fn adapter_drops_line_terminators() {
    let adapter = lines(&["12\n", "13\r\n", "14\r", "\n"]).to_int();
    assert_eq!(
        adapter.enumerate(),
        vec![
            (0, Ok(12)),
            (1, Ok(13)),
            (2, Err(ParseFailure::InvalidDigit)),
            (3, Err(ParseFailure::Empty))
        ]
    );
}

#[test]
fn reads_without_failure_become_lines() {
    let reads = vec![Some(String::from("1")), Some(String::from("x")), Some(String::new())];
    assert_eq!(
        intiterator::lines_read(&reads),
        Ok(vec![String::from("1"), String::from("x"), String::new()])
    );
    assert_eq!(intiterator::lines_read(&[]), Ok(vec![]));
}

#[test]
fn first_failed_read_is_reported() {
    let reads = vec![Some(String::from("1")), None, Some(String::from("2")), None];
    assert_eq!(
        intiterator::lines_read(&reads),
        Err(intiterator::SourceReadFailure { position: 1 })
    );
}
