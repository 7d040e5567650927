use recalc::{
    is_volatile, ArrayKind, Cell, CellOrRange, CellReferenceIndex, CellState, ExternalValue,
    Function, Key, Model, Node, RecalcAction, RecalcEvent, RecalcReport, Spill, StaticResult,
};

/// Puts a formula into a cell, with what it reads.
fn put_formula(model: &mut Model, at: Key, node: Node, result: StaticResult, reads: Vec<CellOrRange>) {
    while model.parsed_formulas.len() <= at.0 as usize {
        model.parsed_formulas.push(Vec::new());
    }
    let sheet = &mut model.parsed_formulas[at.0 as usize];
    sheet.push((node, result));
    let f = sheet.len() as i32 - 1;
    model.sheets.insert(at, Cell::Formula { f });
    evaluate(model, at, reads);
}

/// Records an evaluation of a formula cell.
fn evaluate(model: &mut Model, at: Key, reads: Vec<CellOrRange>) {
    model.cells.insert(at, CellState::Evaluated);
    model.support.insert(at, reads);
}

/// A model with these plain formulas, evaluated and indexed.
fn indexed(formulas: Vec<(Key, Vec<CellOrRange>)>) -> Model {
    let mut model = Model::new();
    for (at, reads) in formulas {
        put_formula(&mut model, at, Node::Other, StaticResult::Scalar, reads);
    }
    model.build_dependency_index();
    model
}

fn reads(c: Key) -> CellOrRange {
    CellOrRange::Cell(c)
}

fn sorted(mut keys: Vec<Key>) -> Vec<Key> {
    keys.sort();
    keys
}

/// Begins a recalculation that has to be incremental, and gives the cells it visits.
fn begin(model: &mut Model) -> Vec<Key> {
    match model.evaluate_dirty(RecalcEvent::Begin) {
        RecalcAction::EvaluateCells { visited } => visited,
        other => panic!("not incremental: {:?}", other),
    }
}

/// The reason of a full evaluation.
fn reason(action: RecalcAction) -> &'static str {
    match action {
        RecalcAction::EvaluateAll { reason } => reason,
        other => panic!("not a full evaluation: {:?}", other),
    }
}

fn report(action: RecalcAction) -> RecalcReport {
    match action {
        RecalcAction::Done { report } => report,
        other => panic!("not done: {:?}", other),
    }
}

const A1: Key = (0, 1, 1);
const A2: Key = (0, 2, 1);
const A4: Key = (0, 4, 1);
const B1: Key = (0, 1, 2);
const C1: Key = (0, 1, 3);
const D1: Key = (0, 1, 4);
const E1: Key = (0, 1, 5);
const OTHER_SHEET: Key = (1, 1, 1);

#[test]
fn without_an_index_everything_is_evaluated() {
    let mut model = Model::new();
    model.mark_dirty(0, 1, 1);
    assert_eq!(reason(model.evaluate_dirty(RecalcEvent::Begin)), "index not ready");
    assert_eq!(model.dirty, vec![A1]);
}

#[test]
fn building_the_index_makes_it_ready_and_clears_the_marks() {
    let mut model = Model::new();
    model.mark_dirty(0, 1, 1);
    assert!(!model.index.ready);
    model.build_dependency_index();
    assert!(model.index.ready);
    assert!(model.dirty.is_empty());
    assert_eq!(begin(&mut model), Vec::<Key>::new());
}

#[test]
fn a_change_reaches_its_readers_and_their_readers() {
    let mut model = indexed(vec![
        (B1, vec![reads(A1)]),
        (C1, vec![reads(B1)]),
        (D1, vec![reads(A2)]),
        (OTHER_SHEET, vec![reads(C1)]),
    ]);
    model.mark_dirty(0, 1, 1);
    assert_eq!(sorted(begin(&mut model)), vec![A1, B1, C1, OTHER_SHEET]);
    assert!(model.dirty.is_empty());
}

#[test]
fn a_cell_marked_twice_is_visited_once() {
    let mut model = indexed(vec![(B1, vec![reads(A1), reads(A1)])]);
    model.mark_dirty(0, 1, 1);
    model.mark_dirty(0, 1, 1);
    assert_eq!(sorted(begin(&mut model)), vec![A1, B1]);
}

#[test]
fn a_circle_of_readers_ends() {
    let mut model = indexed(vec![(A1, vec![reads(B1)]), (B1, vec![reads(A1)])]);
    model.mark_dirty(0, 1, 2);
    assert_eq!(sorted(begin(&mut model)), vec![A1, B1]);
}

#[test]
fn a_range_takes_in_its_corners_and_nothing_more() {
    let range = CellOrRange::Range((0, 1, 1, 3, 2));
    for (at, inside) in [
        ((0, 1, 1), true),
        ((0, 3, 2), true),
        ((0, 2, 1), true),
        ((0, 4, 1), false),
        ((0, 0, 1), false),
        ((0, 2, 3), false),
        ((0, 2, 0), false),
        ((1, 2, 1), false),
    ] {
        let mut model = indexed(vec![(E1, vec![range])]);
        model.mark_dirty(at.0, at.1, at.2);
        let expected = if inside { sorted(vec![at, E1]) } else { vec![at] };
        assert_eq!(sorted(begin(&mut model)), expected);
    }
}

#[test]
fn volatile_cells_are_visited_every_time() {
    let mut model = Model::new();
    let now = Node::FunctionKind { kind: Function::Now, args: vec![] };
    put_formula(&mut model, D1, now, StaticResult::Scalar, vec![]);
    put_formula(&mut model, E1, Node::Other, StaticResult::Scalar, vec![reads(D1)]);
    model.build_dependency_index();
    assert!(model.volatile.contains(D1));
    assert_eq!(model.volatile.len(), 1);
    for _ in 0..3 {
        assert_eq!(pass(&mut model, &[(D1, vec![]), (E1, vec![reads(D1)])]), (vec![D1, E1], 1));
    }
}

/// A whole incremental recalculation, in which these formulas read this. Gives the cells
/// visited, and how many the report counts as volatile.
fn pass(model: &mut Model, formulas: &[(Key, Vec<CellOrRange>)]) -> (Vec<Key>, usize) {
    let visited = begin(model);
    for (at, reads) in formulas {
        if visited.contains(at) {
            evaluate(model, *at, reads.clone());
        }
    }
    let seen = sorted(visited.clone());
    let cells = match model.evaluate_dirty(RecalcEvent::CellsEvaluated { visited }) {
        RecalcAction::EvaluateConditionalFormatting { cells } => cells,
        other => panic!("{:?}", other),
    };
    let done = report(model.evaluate_dirty(RecalcEvent::Formatted {
        cells,
        millis: 0,
        millis_cf: 0,
    }));
    assert_eq!((done.full, done.cells), (false, seen.len()));
    (seen, done.volatile)
}

#[test]
fn a_volatile_formula_entered_later_is_visited_every_time() {
    let mut model = indexed(vec![(E1, vec![reads(D1)])]);
    assert_eq!(pass(&mut model, &[]), (vec![], 0));
    let now = Node::FunctionKind { kind: Function::Now, args: vec![] };
    put_formula(&mut model, D1, now, StaticResult::Scalar, vec![]);
    model.mark_dirty(0, 1, 4);
    for _ in 0..3 {
        assert_eq!(pass(&mut model, &[(D1, vec![]), (E1, vec![reads(D1)])]), (vec![D1, E1], 1));
    }
}

#[test]
fn a_cell_that_is_volatile_no_more_is_not_visited_every_time() {
    let mut model = Model::new();
    let now = Node::FunctionKind { kind: Function::Now, args: vec![] };
    put_formula(&mut model, D1, now, StaticResult::Scalar, vec![]);
    let rand = Node::FunctionKind { kind: Function::Rand, args: vec![] };
    put_formula(&mut model, C1, rand, StaticResult::Scalar, vec![]);
    model.build_dependency_index();
    model.sheets.insert(D1, Cell::Value);
    model.mark_dirty(0, 1, 4);
    assert_eq!(pass(&mut model, &[(C1, vec![])]), (vec![C1, D1], 1));
    assert_eq!(pass(&mut model, &[(C1, vec![])]), (vec![C1], 1));
    assert_eq!(model.volatile.to_vec(), vec![C1]);
}

/// Sums what each formula reads, over plain values.
fn sums(formulas: &[(Key, Vec<CellOrRange>)], values: &[(Key, i64)]) -> Vec<(Key, i64)> {
    let mut all = values.to_vec();
    for (at, read) in formulas {
        let sum = all
            .iter()
            .filter(|(k, _)| {
                read.iter().any(|p| match p {
                    CellOrRange::Cell(c) => c == k,
                    CellOrRange::Range((s, r1, c1, r2, c2)) => {
                        *s == k.0 && (*r1..=*r2).contains(&k.1) && (*c1..=*c2).contains(&k.2)
                    }
                })
            })
            .map(|(_, v)| v)
            .sum();
        all.push((*at, sum));
    }
    all
}

#[test]
fn a_recalculation_gives_what_full_evaluation_gives() {
    // In an order in which each formula comes after what it reads.
    let formulas = vec![
        (B1, vec![reads(A1), CellOrRange::Range((0, 2, 1, 4, 1))]),
        (C1, vec![reads(B1)]),
        (D1, vec![reads(A4)]),
        (E1, vec![CellOrRange::Range((0, 1, 3, 1, 4))]),
        (OTHER_SHEET, vec![reads(A1)]),
    ];
    let plain = vec![(A1, 1), (A2, 20), (A4, 300)];
    let was = sums(&formulas, &plain);
    for edited in 0..plain.len() {
        let mut model = indexed(formulas.clone());
        let mut plain = plain.clone();
        plain[edited].1 += 7;
        let at = plain[edited].0;
        model.mark_dirty(at.0, at.1, at.2);
        let full = sums(&formulas, &plain);
        let (visited, _) = pass(&mut model, &formulas);
        for (before, after) in was.iter().zip(&full) {
            // What was not visited has the value that a full evaluation gives it.
            assert!(visited.contains(&before.0) || before == after);
        }
        assert!(visited.len() < full.len());
    }
}

#[test]
fn cells_that_share_a_volatile_formula_are_all_volatile() {
    let mut model = Model::new();
    let rand = Node::FunctionKind { kind: Function::Rand, args: vec![] };
    put_formula(&mut model, A1, rand, StaticResult::Scalar, vec![]);
    model.sheets.insert(B1, Cell::Formula { f: 0 });
    model.sheets.insert(C1, Cell::ArrayFormula { f: 0, kind: ArrayKind::Cse, r: (1, 1) });
    // The same position on another sheet, past the end, and before the beginning.
    model.sheets.insert(OTHER_SHEET, Cell::Formula { f: 0 });
    model.sheets.insert(D1, Cell::Formula { f: 1 });
    model.sheets.insert(E1, Cell::Formula { f: -1 });
    model.sheets.insert(A4, Cell::Value);
    model.build_dependency_index();
    assert_eq!(sorted(model.volatile.to_vec()), vec![A1, B1, C1]);
}

#[test]
fn a_changed_formula_that_may_spill_needs_everything() {
    let mut model = indexed(vec![(B1, vec![reads(A1)])]);
    put_formula(&mut model, A2, Node::Other, StaticResult::MaySpill, vec![]);
    model.mark_dirty(0, 1, 1);
    model.mark_dirty(0, 2, 1);
    assert_eq!(reason(model.evaluate_dirty(RecalcEvent::Begin)), "a formula that may spill");
    assert!(model.dirty.is_empty());
    assert!(model.support.contains_key(B1));
}

#[test]
fn a_formula_that_may_spill_further_on_does_not_by_itself() {
    let mut model = Model::new();
    put_formula(&mut model, B1, Node::Other, StaticResult::MaySpill, vec![reads(A1)]);
    model.build_dependency_index();
    model.mark_dirty(0, 1, 1);
    assert_eq!(sorted(begin(&mut model)), vec![A1, B1]);
}

#[test]
fn a_spill_area_among_the_visited_needs_everything() {
    let mut model = Model::new();
    put_formula(&mut model, B1, Node::Other, StaticResult::Scalar, vec![reads(A1)]);
    model.spill_cells.push(Spill { anchor: A4, area: vec![B1, C1] });
    model.build_dependency_index();
    assert_eq!(sorted(model.index.spill_areas.to_vec()), vec![B1, C1, A4]);
    model.mark_dirty(0, 1, 1);
    assert_eq!(reason(model.evaluate_dirty(RecalcEvent::Begin)), "touches a dynamic array");
    // The visited cells stay marked, and nothing is forgotten.
    assert_eq!(sorted(model.dirty), vec![A1, B1]);
    assert!(model.support.contains_key(B1));
}

#[test]
fn a_dynamic_array_or_a_spilled_cell_among_the_visited_needs_everything() {
    for cell in [
        Cell::SpillCell,
        Cell::ArrayFormula { f: 0, kind: ArrayKind::Dynamic, r: (1, 1) },
    ] {
        let mut model = indexed(vec![(B1, vec![reads(A1)])]);
        model.sheets.insert(A1, cell);
        model.mark_dirty(0, 1, 1);
        assert_eq!(reason(model.evaluate_dirty(RecalcEvent::Begin)), "touches a dynamic array");
    }
    let mut model = indexed(vec![(B1, vec![reads(A1)])]);
    model.sheets.insert(A1, Cell::ArrayFormula { f: 0, kind: ArrayKind::Cse, r: (2, 2) });
    model.mark_dirty(0, 1, 1);
    assert_eq!(sorted(begin(&mut model)), vec![A1, B1]);
}

#[test]
fn a_structural_change_needs_everything() {
    let mut model = indexed(vec![(B1, vec![reads(A1)])]);
    model.mark_dirty(0, 1, 1);
    model.needs_full_evaluation();
    assert_eq!(reason(model.evaluate_dirty(RecalcEvent::Begin)), "index not ready");
    assert_eq!(model.dirty, vec![A1]);
    model.build_dependency_index();
    model.mark_dirty(0, 1, 1);
    assert_eq!(sorted(begin(&mut model)), vec![A1, B1]);
}

#[test]
fn visited_cells_are_forgotten() {
    let range = CellOrRange::Range((0, 1, 1, 3, 1));
    let mut model = indexed(vec![
        (B1, vec![reads(A1), range, range]),
        (C1, vec![reads(A1), reads(B1)]),
        (D1, vec![reads(A2), reads(A1)]),
        (E1, vec![reads(A4)]),
    ]);
    model.links.insert(C1, "elsewhere".to_string());
    model.links.insert(E1, "here".to_string());
    let cell = |k: Key| CellReferenceIndex { sheet: k.0, row: k.1, column: k.2 };
    model.fn_api(vec![Ok("k".to_string())], cell(C1));
    model.fn_api(vec![Ok("k".to_string())], cell(E1));
    model.mark_dirty(0, 2, 1);
    assert_eq!(sorted(begin(&mut model)), vec![B1, C1, D1, A2]);
    for k in [B1, C1, D1] {
        assert!(!model.cells.contains_key(k));
        assert!(!model.support.contains_key(k));
        assert_eq!(model.index.generation(k), 1);
    }
    assert!(model.cells.contains_key(E1));
    assert!(model.support.contains_key(E1));
    assert_eq!(model.index.generation(E1), 0);
    assert_eq!(model.index.generation(A2), 1);
    assert!(!model.links.contains_key(C1));
    assert!(model.links.contains_key(E1));
    assert_eq!(model.cell_external_keys(0, 1, 3), Vec::<String>::new());
    assert_eq!(model.cell_external_keys(0, 1, 5), vec!["k".to_string()]);
    assert_eq!(model.index.stale, 2);
    // Nobody reads A1 any more; the other reader is left.
    assert_eq!(model.index.cells.get(A1).unwrap().len(), 0);
    assert!(model.index.cells.get(A4).unwrap().contains(E1));
    model.mark_dirty(0, 1, 1);
    assert_eq!(begin(&mut model), vec![A1]);
}

#[test]
fn what_visited_cells_read_now_is_indexed() {
    let mut model = indexed(vec![(B1, vec![reads(A1), CellOrRange::Range((0, 4, 1, 9, 1))])]);
    model.mark_dirty(0, 1, 2);
    let visited = begin(&mut model);
    assert_eq!(visited, vec![B1]);
    evaluate(&mut model, B1, vec![reads(A2), CellOrRange::Range((1, 1, 1, 1, 1))]);
    match model.evaluate_dirty(RecalcEvent::CellsEvaluated { visited }) {
        RecalcAction::EvaluateConditionalFormatting { cells } => assert_eq!(cells, 1),
        other => panic!("{:?}", other),
    }
    for (at, seen) in [(A1, false), (A4, false), (A2, true), (OTHER_SHEET, true)] {
        let mut again = indexed(vec![]);
        std::mem::swap(&mut again, &mut model);
        again.mark_dirty(at.0, at.1, at.2);
        let visited = begin(&mut again);
        assert_eq!(visited.contains(&B1), seen);
        evaluate(&mut again, B1, vec![reads(A2), CellOrRange::Range((1, 1, 1, 1, 1))]);
        again.evaluate_dirty(RecalcEvent::CellsEvaluated { visited });
        std::mem::swap(&mut again, &mut model);
    }
}

#[test]
fn a_cell_that_starts_to_spill_needs_everything() {
    for (r, full) in [((1, 1), false), ((2, 1), true), ((1, 2), true)] {
        let mut model = indexed(vec![(B1, vec![reads(A1)])]);
        model.mark_dirty(0, 1, 1);
        let visited = begin(&mut model);
        model.sheets.insert(B1, Cell::ArrayFormula { f: 0, kind: ArrayKind::Dynamic, r });
        evaluate(&mut model, B1, vec![reads(A1)]);
        let action = model.evaluate_dirty(RecalcEvent::CellsEvaluated { visited });
        if full {
            assert_eq!(reason(action), "a formula started to spill");
            assert!(!model.index.cells.get(A1).unwrap().contains(B1));
        } else {
            assert!(matches!(action, RecalcAction::EvaluateConditionalFormatting { cells: 2 }));
            assert!(model.index.cells.get(A1).unwrap().contains(B1));
        }
    }
}

#[test]
fn reports_say_what_was_done() {
    let mut model = Model::new();
    let now = Node::FunctionKind { kind: Function::Today, args: vec![] };
    put_formula(&mut model, A1, now, StaticResult::Scalar, vec![]);
    put_formula(&mut model, B1, Node::Other, StaticResult::Scalar, vec![reads(A1)]);
    put_formula(&mut model, C1, Node::Other, StaticResult::Scalar, vec![]);
    model.build_dependency_index();
    let done = report(model.evaluate_dirty(RecalcEvent::AllEvaluated {
        reason: "index not ready",
        millis: 7,
    }));
    assert!(done.full);
    assert_eq!(done.reason, "index not ready");
    assert_eq!((done.cells, done.volatile), (3, 1));
    assert_eq!((done.millis, done.millis_cf), (7, 0));
    let done = report(model.evaluate_dirty(RecalcEvent::Formatted {
        cells: 2,
        millis: 5,
        millis_cf: 3,
    }));
    assert!(!done.full);
    assert_eq!(done.reason, "");
    assert_eq!((done.cells, done.volatile), (2, 1));
    assert_eq!((done.millis, done.millis_cf), (5, 3));
}

/// A formula that reads so many ranges, recalculated once.
fn recalculated(ranges: i32) -> Model {
    let all: Vec<CellOrRange> =
        (0..ranges).map(|i| CellOrRange::Range(((i % 2) as u32, i, 1, i, 1))).collect();
    let mut model = indexed(vec![(E1, all.clone())]);
    model.mark_dirty(0, 1, 5);
    let visited = begin(&mut model);
    evaluate(&mut model, E1, all);
    model.evaluate_dirty(RecalcEvent::CellsEvaluated { visited });
    model
}

fn entries(model: &Model) -> usize {
    model.index.ranges.values().map(|list| list.len()).sum()
}

#[test]
fn stale_entries_are_dropped_once_they_dominate() {
    let model = recalculated(1023);
    assert_eq!((model.index.stale, entries(&model)), (1023, 2046));
    let mut model = recalculated(1024);
    assert_eq!((model.index.stale, entries(&model)), (0, 1024));
    // The entries left are the new ones.
    model.mark_dirty(1, 1023, 1);
    assert_eq!(sorted(begin(&mut model)), vec![E1, (1, 1023, 1)]);
}

#[test]
fn stale_entries_stay_while_others_are_more() {
    let many: Vec<CellOrRange> = (0..1024).map(|i| CellOrRange::Range((0, i, 1, i, 1))).collect();
    let one_more: Vec<CellOrRange> = vec![CellOrRange::Range((3, 1, 1, 1, 1))];
    let mut model = indexed(vec![(E1, many.clone()), (D1, one_more)]);
    model.mark_dirty(0, 1, 5);
    let visited = begin(&mut model);
    evaluate(&mut model, E1, many);
    model.evaluate_dirty(RecalcEvent::CellsEvaluated { visited });
    assert_eq!((model.index.stale, entries(&model)), (1024, 2049));
}

#[test]
fn compaction_changes_no_dependency() {
    let before = recalculated(1023);
    let after = recalculated(1024);
    for row in [0, 1, 500, 1022] {
        let at = ((row % 2) as u32, row, 1);
        assert_eq!(sorted(before.index.reach(vec![at])), sorted(after.index.reach(vec![at])));
        assert!(after.index.reach(vec![at]).contains(&E1));
    }
}

/// How many range entries are older than their formula.
fn stale_entries(model: &Model) -> usize {
    model
        .index
        .ranges
        .values()
        .flatten()
        .filter(|entry| model.index.generation(entry.dependent) != entry.gen)
        .count()
}

#[test]
fn stale_entries_are_counted() {
    let range = |sheet: u32, row: i32| CellOrRange::Range((sheet, row, 1, row, 9));
    let mut model = indexed(vec![
        (B1, vec![range(0, 1), range(0, 1), range(1, 2)]),
        (C1, vec![range(0, 7), reads(B1)]),
        (D1, vec![range(2, 2)]),
    ]);
    assert_eq!((model.index.stale, stale_entries(&model), entries(&model)), (0, 0, 5));
    for (round, expected) in [(1, 4), (2, 5), (3, 6)] {
        model.mark_dirty(0, 1, 2);
        let visited = begin(&mut model);
        assert_eq!((model.index.stale, stale_entries(&model)), (expected, expected));
        if round == 1 {
            evaluate(&mut model, B1, vec![]);
            evaluate(&mut model, C1, vec![range(4, 4), reads(B1)]);
        } else {
            evaluate(&mut model, C1, vec![range(4, round), reads(B1)]);
        }
        model.evaluate_dirty(RecalcEvent::CellsEvaluated { visited });
        assert_eq!((model.index.stale, stale_entries(&model)), (expected, expected));
        assert_eq!(entries(&model), expected + 2);
    }
}

#[test]
fn a_recalculation_ends() {
    let mut model = indexed(vec![(B1, vec![reads(A1)])]);
    model.mark_dirty(0, 1, 1);
    let mut event = RecalcEvent::Begin;
    let mut steps = vec![];
    let done = loop {
        event = match model.try_evaluate_dirty(event).unwrap() {
            RecalcAction::EvaluateAll { reason } => {
                steps.push("all");
                RecalcEvent::AllEvaluated { reason, millis: 0 }
            }
            RecalcAction::EvaluateCells { visited } => {
                steps.push("cells");
                RecalcEvent::CellsEvaluated { visited }
            }
            RecalcAction::EvaluateConditionalFormatting { cells } => {
                steps.push("formatting");
                RecalcEvent::Formatted { cells, millis: 0, millis_cf: 0 }
            }
            RecalcAction::Done { report } => break report,
        };
    };
    assert_eq!(steps, vec!["cells", "formatting"]);
    assert_eq!((done.full, done.cells), (false, 2));
}

#[test]
fn counters_without_room_stop_a_recalculation() {
    let range = CellOrRange::Range((0, 4, 1, 4, 1));
    let mut model = indexed(vec![(B1, vec![reads(A1), range])]);
    model.mark_dirty(0, 1, 1);
    model.index.gen.insert(B1, u32::MAX);
    assert!(model.try_evaluate_dirty(RecalcEvent::Begin).is_none());
    assert_eq!(model.dirty, vec![A1]);
    assert!(model.support.contains_key(B1));
    model.index.gen.insert(B1, u32::MAX - 1);
    model.index.stale = usize::MAX;
    assert!(model.try_evaluate_dirty(RecalcEvent::Begin).is_none());
    model.index.stale = usize::MAX - 1;
    assert!(matches!(
        model.try_evaluate_dirty(RecalcEvent::Begin),
        Some(RecalcAction::EvaluateCells { .. })
    ));
    assert_eq!(model.index.stale, usize::MAX);
    assert_eq!(model.index.generation(B1), u32::MAX);
}

#[test]
fn counters_do_not_matter_where_nothing_is_forgotten() {
    let mut model = indexed(vec![(B1, vec![reads(A1)])]);
    model.index.gen.insert(E1, u32::MAX);
    model.mark_dirty(0, 1, 1);
    assert!(model.try_evaluate_dirty(RecalcEvent::Begin).is_some());
    model.index.gen.insert(A1, u32::MAX);
    model.mark_dirty(0, 1, 1);
    model.needs_full_evaluation();
    let action = model.try_evaluate_dirty(RecalcEvent::Begin).unwrap();
    assert_eq!(reason(action), "index not ready");
    assert!(model
        .try_evaluate_dirty(RecalcEvent::AllEvaluated { reason: "", millis: 0 })
        .is_some());
}

#[test]
fn unvisited_formulas_read_no_visited_cell() {
    let mut model = indexed(vec![
        (B1, vec![reads(A1)]),
        (C1, vec![CellOrRange::Range((0, 1, 1, 1, 2))]),
        (D1, vec![reads(A4)]),
    ]);
    model.mark_dirty(0, 1, 2);
    let visited = begin(&mut model);
    assert_eq!(sorted(visited), vec![B1, C1]);
    // What D1 reads was not visited.
    assert!(model.support.contains_key(D1));
}

#[test]
fn an_arrived_value_is_carried_on() {
    let mut model = indexed(vec![(B1, vec![]), (C1, vec![reads(B1)])]);
    let at = CellReferenceIndex { sheet: 0, row: 1, column: 2 };
    model.fn_api(vec![Ok("rates".to_string()), Ok("usd".to_string())], at);
    assert_eq!(model.set_external("rates\u{1}usd", ExternalValue::Boolean(true)), 1);
    assert_eq!(sorted(begin(&mut model)), vec![B1, C1]);
}

fn leaf() -> Box<Node> {
    Box::new(Node::Other)
}

fn volatile_leaf() -> Box<Node> {
    Box::new(Node::FunctionKind { kind: Function::Offset, args: vec![] })
}

#[test]
fn each_volatile_function_is_volatile() {
    for kind in [
        Function::Now,
        Function::Today,
        Function::Rand,
        Function::Randbetween,
        Function::Randarray,
        Function::Indirect,
        Function::Offset,
    ] {
        assert!(is_volatile(&Node::FunctionKind { kind, args: vec![] }));
    }
    assert!(!is_volatile(&Node::FunctionKind { kind: Function::Other, args: vec![Node::Other] }));
    assert!(!is_volatile(&Node::Other));
}

#[test]
fn a_volatile_part_makes_a_formula_volatile() {
    let pairs: Vec<fn(Box<Node>, Box<Node>) -> Node> = vec![
        |left, right| Node::OpRangeKind { left, right },
        |left, right| Node::OpConcatenateKind { left, right },
        |left, right| Node::OpSumKind { left, right },
        |left, right| Node::OpProductKind { left, right },
        |left, right| Node::OpPowerKind { left, right },
        |left, right| Node::CompareKind { left, right },
        |left, right| Node::LambdaCallKind { lambda: left, args: vec![*right] },
        |left, right| Node::FunctionKind { kind: Function::Other, args: vec![*left, *right] },
        |left, right| Node::NamedFunctionKind { name: "f".to_string(), args: vec![*left, *right] },
    ];
    for make in pairs {
        assert!(!is_volatile(&make(leaf(), leaf())));
        assert!(is_volatile(&make(volatile_leaf(), leaf())));
        assert!(is_volatile(&make(leaf(), volatile_leaf())));
    }
    let singles: Vec<fn(Box<Node>) -> Node> = vec![
        |part| Node::UnaryKind { right: part },
        |part| Node::LambdaDefKind { parameters: vec!["x".to_string()], body: part },
        |part| Node::ImplicitIntersection { automatic: true, child: part },
        |part| Node::SpillRangeOperator { child: part },
    ];
    for make in singles {
        assert!(!is_volatile(&make(leaf())));
        assert!(is_volatile(&make(volatile_leaf())));
        assert!(is_volatile(&make(Box::new(make(volatile_leaf())))));
    }
}
