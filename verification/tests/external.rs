use recalc::external::wants_argument;
use recalc::{
    CalcResult, CellReferenceIndex, Error, ExternalValue, Model, RecalcAction, RecalcEvent,
    EXTERNAL_KEY_SEP,
};

fn cell(column: i32) -> CellReferenceIndex {
    CellReferenceIndex { sheet: 0, row: 1, column }
}

fn ok(parts: &[&str]) -> Vec<Result<String, CalcResult>> {
    parts.iter().map(|part| Ok(part.to_string())).collect()
}

fn waiting(column: i32) -> CalcResult {
    CalcResult::Error {
        error: Error::NA,
        origin: cell(column),
        message: "waiting for the API".to_string(),
    }
}

fn strings(keys: &[&str]) -> Vec<String> {
    keys.iter().map(|key| key.to_string()).collect()
}

#[test]
fn a_call_without_arguments_is_an_error() {
    let mut model = Model::new();
    assert_eq!(model.fn_api(vec![], cell(1)), CalcResult::ArgsNumberError { origin: cell(1) });
    assert_eq!(model.external_requests(), strings(&[]));
}

#[test]
fn the_first_argument_in_error_is_returned() {
    let mut model = Model::new();
    let fail = |error: Error| CalcResult::Error { error, origin: cell(9), message: "m".to_string() };
    let args = vec![Ok("a".to_string()), Err(fail(Error::DIV)), Err(fail(Error::REF))];
    assert_eq!(model.fn_api(args, cell(1)), fail(Error::DIV));
    assert_eq!(model.external_requests(), strings(&[]));
    assert_eq!(model.cell_external_keys(0, 1, 1), strings(&[]));
}

#[test]
fn arguments_are_evaluated_up_to_the_first_error() {
    let fail = || CalcResult::ArgsNumberError { origin: cell(9) };
    let mut args = vec![];
    assert!(!wants_argument(&args, 0));
    assert!(wants_argument(&args, 1));
    args.push(Ok("a".to_string()));
    assert!(wants_argument(&args, 2));
    assert!(!wants_argument(&args, 1));
    args.push(Err(fail()));
    assert!(!wants_argument(&args, 3));
    args.push(Ok("b".to_string()));
    assert!(!wants_argument(&args, 4));
}

#[test]
fn values_are_equal_as_floating_point_numbers_are() {
    let numbers = [
        0.0,
        -0.0,
        1.0,
        -1.0,
        f64::MIN_POSITIVE,
        f64::from_bits(1),
        f64::from_bits(1 | 1 << 63),
        f64::MAX,
        f64::INFINITY,
        f64::NEG_INFINITY,
        f64::NAN,
        -f64::NAN,
        f64::from_bits(0x7ff0_0000_0000_0001),
        f64::from_bits(u64::MAX),
    ];
    for a in numbers {
        for b in numbers {
            let (x, y) = (a.to_bits(), b.to_bits());
            assert_eq!(ExternalValue::Number(x) == ExternalValue::Number(y), a == b);
            assert_eq!(CalcResult::Number(x) == CalcResult::Number(y), a == b);
        }
    }
}

#[test]
fn values_of_different_sorts_differ() {
    let text = |t: &str| t.to_string();
    let values = [
        ExternalValue::Number(0),
        ExternalValue::Text(text("")),
        ExternalValue::Text(text("a")),
        ExternalValue::Boolean(false),
        ExternalValue::Boolean(true),
        ExternalValue::Failed(text("")),
        ExternalValue::Failed(text("a")),
    ];
    for (i, a) in values.iter().enumerate() {
        for (j, b) in values.iter().enumerate() {
            assert_eq!(a == b, i == j);
            assert_eq!(a == &b.clone(), i == j);
        }
    }
    let error = |error: Error, column: i32, message: &str| CalcResult::Error {
        error,
        origin: cell(column),
        message: message.to_string(),
    };
    let results = [
        CalcResult::Number(0),
        CalcResult::String(text("")),
        CalcResult::String(text("a")),
        CalcResult::Boolean(false),
        CalcResult::Boolean(true),
        error(Error::NA, 1, "m"),
        error(Error::REF, 1, "m"),
        error(Error::NA, 2, "m"),
        error(Error::NA, 1, "n"),
        CalcResult::ArgsNumberError { origin: cell(1) },
        CalcResult::ArgsNumberError { origin: cell(2) },
    ];
    for (i, a) in results.iter().enumerate() {
        for (j, b) in results.iter().enumerate() {
            assert_eq!(a == b, i == j);
        }
    }
}

#[test]
fn a_missing_value_is_waited_for() {
    let mut model = Model::new();
    assert_eq!(model.fn_api(ok(&["rates", "usd", "mid"]), cell(1)), waiting(1));
    assert_eq!(model.external_requests(), strings(&["rates\u{1}usd\u{1}mid"]));
    assert_eq!(model.cell_external_keys(0, 1, 1), strings(&["rates\u{1}usd\u{1}mid"]));
    assert!(model.external_value("rates\u{1}usd\u{1}mid").is_none());
}

#[test]
fn arrived_values_are_returned() {
    let mut model = Model::new();
    let bits = 1.5f64.to_bits();
    model.set_external("n", ExternalValue::Number(bits));
    model.set_external("t", ExternalValue::Text("text".to_string()));
    model.set_external("b", ExternalValue::Boolean(true));
    model.set_external("f", ExternalValue::Failed("no route".to_string()));
    assert_eq!(model.fn_api(ok(&["n"]), cell(1)), CalcResult::Number(bits));
    assert_eq!(model.fn_api(ok(&["t"]), cell(2)), CalcResult::String("text".to_string()));
    assert_eq!(model.fn_api(ok(&["b"]), cell(3)), CalcResult::Boolean(true));
    assert_eq!(
        model.fn_api(ok(&["f"]), cell(4)),
        CalcResult::Error { error: Error::NA, origin: cell(4), message: "no route".to_string() }
    );
    assert_eq!(model.external_requests(), strings(&[]));
}

#[test]
fn a_value_marks_its_readers_and_is_waited_for_no_more() {
    let mut model = Model::new();
    model.fn_api(ok(&["k"]), cell(1));
    model.fn_api(ok(&["k"]), cell(2));
    model.fn_api(ok(&["k"]), cell(2));
    model.fn_api(ok(&["other"]), cell(3));
    model.mark_dirty(5, 5, 5);
    assert_eq!(model.set_external("k", ExternalValue::Boolean(false)), 2);
    assert_eq!(model.dirty[0], (5, 5, 5));
    let mut marked = model.dirty[1..].to_vec();
    marked.sort();
    assert_eq!(marked, vec![(0, 1, 1), (0, 1, 2)]);
    assert_eq!(model.external_requests(), strings(&["other"]));
    assert_eq!(model.external_value("k"), Some(&ExternalValue::Boolean(false)));
    assert_eq!(model.fn_api(ok(&["k"]), cell(1)), CalcResult::Boolean(false));
    assert_eq!(model.set_external("nobody", ExternalValue::Boolean(true)), 0);
}

#[test]
fn a_forgotten_value_is_asked_for_again() {
    let mut model = Model::new();
    model.fn_api(ok(&["k"]), cell(1));
    model.set_external("k", ExternalValue::Number(3));
    model.dirty.clear();
    model.forget_external("k");
    assert!(model.external_value("k").is_none());
    assert_eq!(model.external_requests(), strings(&["k"]));
    assert!(model.dirty.is_empty());
    assert_eq!(model.set_external("k", ExternalValue::Number(4)), 1);
    assert_eq!(model.dirty, vec![(0, 1, 1)]);
    assert_eq!(model.external_requests(), strings(&[]));
    assert_eq!(model.fn_api(ok(&["k"]), cell(1)), CalcResult::Number(4));
}

#[test]
fn a_forgotten_value_is_shown_until_the_new_one_arrives() {
    let mut model = Model::new();
    model.build_dependency_index();
    model.set_external("k", ExternalValue::Text("old".to_string()));
    let old = CalcResult::String("old".to_string());
    assert_eq!(model.fn_api(ok(&["k"]), cell(1)), old);
    // Forgetting it again, and forgetting what never came, changes nothing that is shown.
    for _ in 0..2 {
        model.forget_external("k");
        model.forget_external("never");
        model.mark_dirty(0, 1, 1);
        match model.evaluate_dirty(RecalcEvent::Begin) {
            RecalcAction::EvaluateCells { visited } => assert_eq!(visited, vec![(0, 1, 1)]),
            other => panic!("{:?}", other),
        }
        assert_eq!(model.fn_api(ok(&["k"]), cell(1)), old);
        assert_eq!(model.fn_api(ok(&["never"]), cell(2)), waiting(2));
        assert_eq!(model.external_requests(), strings(&["k", "never"]));
        assert_eq!(model.external_value("k"), None);
        assert_eq!(model.externals(), vec![]);
        assert_eq!(model.external_keys_of("k"), strings(&["k"]));
    }
    assert_eq!(model.set_external("k", ExternalValue::Failed("gone".to_string())), 1);
    let gone = CalcResult::Error {
        error: Error::NA,
        origin: cell(1),
        message: "gone".to_string(),
    };
    assert_eq!(model.fn_api(ok(&["k"]), cell(1)), gone);
    // The old value does not come back.
    model.forget_external("k");
    assert_eq!(model.fn_api(ok(&["k"]), cell(1)), gone);
}

#[test]
fn a_value_set_twice_is_the_last_one() {
    let mut model = Model::new();
    model.set_external("k", ExternalValue::Number(1));
    model.set_external("k", ExternalValue::Number(2));
    assert_eq!(model.externals(), vec![("k".to_string(), ExternalValue::Number(2))]);
}

#[test]
fn cached_keys_come_in_order_with_their_values() {
    let mut model = Model::new();
    for (i, key) in ["b", "é", "a", "ab", "", "B", "\u{10000}", "\u{ffff}"].iter().enumerate() {
        model.set_external(key, ExternalValue::Number(i as u64));
    }
    let keys: Vec<String> = model.externals().into_iter().map(|entry| entry.0).collect();
    let mut expected = keys.clone();
    expected.sort();
    assert_eq!(keys, expected);
    assert_eq!(keys, strings(&["", "B", "a", "ab", "b", "é", "\u{ffff}", "\u{10000}"]));
    for (key, value) in model.externals() {
        assert_eq!(model.external_value(&key), Some(&value));
    }
    assert_eq!(model.external_value("ab"), Some(&ExternalValue::Number(3)));
}

#[test]
fn requests_come_in_order_without_what_has_arrived() {
    let mut model = Model::new();
    for key in ["c", "a", "b", "a"] {
        model.fn_api(ok(&[key]), cell(1));
    }
    assert_eq!(model.external_requests(), strings(&["a", "b", "c"]));
    model.externals.insert("b", ExternalValue::Boolean(true));
    assert_eq!(model.external_requests(), strings(&["a", "c"]));
}

#[test]
fn keys_are_found_by_their_connection() {
    let mut model = Model::new();
    model.set_external("rates\u{1}usd", ExternalValue::Number(1));
    model.set_external("rates", ExternalValue::Number(2));
    model.set_external("rates2\u{1}usd", ExternalValue::Number(3));
    model.set_external("\u{1}x", ExternalValue::Number(4));
    model.fn_api(ok(&["rates", "eur"]), cell(1));
    model.fn_api(ok(&["rate", "rates"]), cell(1));
    model.forget_external("rates\u{1}usd");
    model.externals.insert("rates\u{1}usd", ExternalValue::Number(5));
    assert_eq!(
        model.external_keys_of("rates"),
        strings(&["rates", "rates\u{1}eur", "rates\u{1}usd"])
    );
    assert_eq!(model.external_keys_of("rate"), strings(&["rate\u{1}rates"]));
    assert_eq!(model.external_keys_of(""), strings(&["\u{1}x"]));
    assert_eq!(model.external_keys_of("rates\u{1}usd"), strings(&[]));
    assert_eq!(model.external_keys_of("ra"), strings(&[]));
}

#[test]
fn the_connection_test_is_that_of_the_first_part_split_off() {
    for key in ["", "a", "ab", "a\u{1}b", "\u{1}", "\u{1}a", "a\u{1}", "a\u{1}b\u{1}c"] {
        for connection in ["", "a", "ab", "b", "a\u{1}b", "\u{1}"] {
            assert_eq!(
                recalc::external::has_connection(key, connection),
                key.split(EXTERNAL_KEY_SEP).next() == Some(connection)
            );
        }
    }
}

#[test]
fn different_arguments_have_different_keys() {
    let mut model = Model::new();
    model.fn_api(ok(&["a", "b"]), cell(1));
    model.fn_api(ok(&["ab"]), cell(1));
    model.fn_api(ok(&["a", "", "b"]), cell(1));
    model.fn_api(ok(&["a", "b", ""]), cell(1));
    assert_eq!(
        model.cell_external_keys(0, 1, 1),
        strings(&["a\u{1}\u{1}b", "a\u{1}b", "a\u{1}b\u{1}", "ab"])
    );
}

#[test]
fn keys_of_a_cell_are_its_own() {
    let mut model = Model::new();
    model.fn_api(ok(&["x"]), cell(1));
    model.fn_api(ok(&["a"]), cell(1));
    model.fn_api(ok(&["b"]), cell(2));
    assert_eq!(model.cell_external_keys(0, 1, 1), strings(&["a", "x"]));
    assert_eq!(model.cell_external_keys(0, 1, 2), strings(&["b"]));
    model.forget_external_user((0, 1, 1));
    assert_eq!(model.cell_external_keys(0, 1, 1), strings(&[]));
    assert_eq!(model.cell_external_keys(0, 1, 2), strings(&["b"]));
    // The keys themselves are still asked for.
    assert_eq!(model.external_requests(), strings(&["a", "b", "x"]));
    assert_eq!(model.set_external("a", ExternalValue::Boolean(true)), 0);
    model.clear_external_users();
    assert_eq!(model.cell_external_keys(0, 1, 2), strings(&[]));
}
