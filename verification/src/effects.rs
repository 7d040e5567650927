//! What the operations do, said of cells, formulas, reads and keys themselves.
use vstd::prelude::*;

use crate::external::{CalcResult, Error, ExternalValue};
use crate::formula::{Function, Node, StaticResult};
use crate::incremental::{RecalcAction, RecalcEvent};
use crate::index::{CellOrRange, IndexView, RangeDep};
use crate::key::{CellReferenceIndex, Key};
use crate::model::{ArrayKind, Cell, Model};

verus! {

/// A call of NOW, TODAY, RAND, RANDBETWEEN, RANDARRAY, INDIRECT or OFFSET is volatile,
/// whatever its arguments are.
pub proof fn law_volatile_functions_are_volatile(kind: Function, args: Vec<Node>)
    requires
        kind == Function::Now || kind == Function::Today || kind == Function::Rand || kind
            == Function::Randbetween || kind == Function::Randarray || kind == Function::Indirect
            || kind == Function::Offset,
    ensures
        crate::formula::calls_volatile(Node::FunctionKind { kind, args }),
{
}

/// A formula is as volatile as its parts: with an operator, the operands; with a call of any
/// other function, the arguments; with a lambda, its body, and the arguments it is called
/// with.
pub proof fn law_volatile_as_the_parts(a: Box<Node>, b: Box<Node>, args: Vec<Node>)
    ensures
        ({
            let either = crate::formula::calls_volatile(*a) || crate::formula::calls_volatile(*b);
            &&& crate::formula::calls_volatile(Node::OpRangeKind { left: a, right: b }) == either
            &&& crate::formula::calls_volatile(Node::OpConcatenateKind { left: a, right: b })
                == either
            &&& crate::formula::calls_volatile(Node::OpSumKind { left: a, right: b }) == either
            &&& crate::formula::calls_volatile(Node::OpProductKind { left: a, right: b }) == either
            &&& crate::formula::calls_volatile(Node::OpPowerKind { left: a, right: b }) == either
            &&& crate::formula::calls_volatile(Node::CompareKind { left: a, right: b }) == either
        }),
        ({
            let one = crate::formula::calls_volatile(*a);
            &&& crate::formula::calls_volatile(Node::UnaryKind { right: a }) == one
            &&& crate::formula::calls_volatile(Node::SpillRangeOperator { child: a }) == one
            &&& forall|automatic: bool|
                #[trigger] crate::formula::calls_volatile(
                    Node::ImplicitIntersection { automatic, child: a },
                ) == one
            &&& forall|parameters: Vec<String>|
                #[trigger] crate::formula::calls_volatile(
                    Node::LambdaDefKind { parameters, body: a },
                ) == one
        }),
        crate::formula::calls_volatile(Node::FunctionKind { kind: Function::Other, args })
            <==> exists|i: int|
            0 <= i < args.len() && crate::formula::calls_volatile(#[trigger] args[i]),
        forall|name: String| #[trigger]
            crate::formula::calls_volatile(Node::NamedFunctionKind { name, args }) <==> exists|
                i: int,
            |
                0 <= i < args.len() && crate::formula::calls_volatile(#[trigger] args[i]),
        crate::formula::calls_volatile(Node::LambdaCallKind { lambda: a, args })
            <==> crate::formula::calls_volatile(*a) || exists|i: int|
            0 <= i < args.len() && crate::formula::calls_volatile(#[trigger] args[i]),
        !crate::formula::calls_volatile(Node::Other),
{
    lemma_volatile_arguments(Node::FunctionKind { kind: Function::Other, args }, args);
    lemma_volatile_arguments(Node::LambdaCallKind { lambda: a, args }, args);
    assert forall|name: String| #[trigger]
        crate::formula::calls_volatile(Node::NamedFunctionKind { name, args }) <==> exists|i: int|
            0 <= i < args.len() && crate::formula::calls_volatile(#[trigger] args[i]) by {
        lemma_volatile_arguments(Node::NamedFunctionKind { name, args }, args);
    }
}

/// A call is volatile through what is called, or through an argument.
proof fn lemma_volatile_arguments(node: Node, args: Vec<Node>)
    requires
        match node {
            Node::FunctionKind { args: all, .. } => all == args,
            Node::NamedFunctionKind { args: all, .. } => all == args,
            Node::LambdaCallKind { args: all, .. } => all == args,
            _ => false,
        },
    ensures
        crate::formula::calls_volatile(node) <==> match node {
            Node::FunctionKind { kind, .. } => crate::formula::volatile_function(kind),
            Node::LambdaCallKind { lambda, .. } => crate::formula::calls_volatile(*lambda),
            _ => false,
        } || exists|i: int| 0 <= i < args.len() && crate::formula::calls_volatile(#[trigger] args[i]),
{
}

/// The formulas a formula is made of.
pub open spec fn parts(node: Node) -> Seq<Node> {
    match node {
        Node::FunctionKind { args, .. } => args@,
        Node::NamedFunctionKind { args, .. } => args@,
        Node::LambdaCallKind { lambda, args } => args@.push(*lambda),
        Node::OpRangeKind { left, right } => seq![*left, *right],
        Node::OpConcatenateKind { left, right } => seq![*left, *right],
        Node::OpSumKind { left, right } => seq![*left, *right],
        Node::OpProductKind { left, right } => seq![*left, *right],
        Node::OpPowerKind { left, right } => seq![*left, *right],
        Node::CompareKind { left, right } => seq![*left, *right],
        Node::UnaryKind { right } => seq![*right],
        Node::LambdaDefKind { body, .. } => seq![*body],
        Node::ImplicitIntersection { child, .. } => seq![*child],
        Node::SpillRangeOperator { child } => seq![*child],
        Node::Other => Seq::empty(),
    }
}

/// Whether a path leads from a formula down to a call of a volatile function.
pub open spec fn leads_to_volatile_call(path: Seq<Node>, node: Node) -> bool {
    &&& path.len() > 0
    &&& path[0] == node
    &&& forall|i: int|
        0 <= i < path.len() - 1 ==> parts(#[trigger] path[i]).contains(path[i + 1])
    &&& path[path.len() - 1] matches Node::FunctionKind { kind, .. }
    &&& kind == Function::Now || kind == Function::Today || kind == Function::Rand || kind
        == Function::Randbetween || kind == Function::Randarray || kind == Function::Indirect
        || kind == Function::Offset
}

/// A formula with a volatile part is volatile, and one that is volatile is a volatile call
/// itself or has a volatile part.
proof fn lemma_volatile_parts(node: Node)
    ensures
        crate::formula::calls_volatile(node) <==> leads_to_volatile_call(seq![node], node)
            || exists|i: int|
            0 <= i < parts(node).len() && crate::formula::calls_volatile(#[trigger] parts(node)[i]),
{
    match node {
        Node::LambdaCallKind { lambda, args } => {
            assert(parts(node)[args@.len() as int] == *lambda);
            assert forall|i: int| 0 <= i < args@.len() implies parts(node)[i]
                == #[trigger] args[i] by {}
        },
        Node::FunctionKind { args, .. } => {
            assert forall|i: int| 0 <= i < args@.len() implies parts(node)[i]
                == #[trigger] args[i] by {}
        },
        Node::NamedFunctionKind { args, .. } => {
            assert forall|i: int| 0 <= i < args@.len() implies parts(node)[i]
                == #[trigger] args[i] by {}
        },
        Node::OpRangeKind { left, right }
        | Node::OpConcatenateKind { left, right }
        | Node::OpSumKind { left, right }
        | Node::OpProductKind { left, right }
        | Node::OpPowerKind { left, right }
        | Node::CompareKind { left, right } => {
            assert(parts(node)[0] == *left);
            assert(parts(node)[1] == *right);
        },
        Node::UnaryKind { right } => {
            assert(parts(node)[0] == *right);
        },
        Node::LambdaDefKind { body, .. } => {
            assert(parts(node)[0] == *body);
        },
        Node::ImplicitIntersection { child, .. } => {
            assert(parts(node)[0] == *child);
        },
        Node::SpillRangeOperator { child } => {
            assert(parts(node)[0] == *child);
        },
        Node::Other => {},
    }
}

/// From a volatile formula, a path leads to a volatile call.
proof fn lemma_volatile_has_path(node: Node)
    requires
        crate::formula::calls_volatile(node),
    ensures
        exists|path: Seq<Node>| leads_to_volatile_call(path, node),
    decreases node,
{
    lemma_volatile_parts(node);
    if !leads_to_volatile_call(seq![node], node) {
        let i = choose|i: int|
            0 <= i < parts(node).len() && crate::formula::calls_volatile(#[trigger] parts(node)[i]);
        let part = parts(node)[i];
        match node {
            Node::LambdaCallKind { lambda, args } => {
                if i == args@.len() {
                    lemma_volatile_has_path(*lambda);
                } else {
                    lemma_volatile_has_path(args[i]);
                }
            },
            Node::FunctionKind { args, .. } => {
                lemma_volatile_has_path(args[i]);
            },
            Node::NamedFunctionKind { args, .. } => {
                lemma_volatile_has_path(args[i]);
            },
            Node::OpRangeKind { left, right }
            | Node::OpConcatenateKind { left, right }
            | Node::OpSumKind { left, right }
            | Node::OpProductKind { left, right }
            | Node::OpPowerKind { left, right }
            | Node::CompareKind { left, right } => {
                if i == 0 {
                    lemma_volatile_has_path(*left);
                } else {
                    lemma_volatile_has_path(*right);
                }
            },
            Node::UnaryKind { right } => {
                lemma_volatile_has_path(*right);
            },
            Node::LambdaDefKind { body, .. } => {
                lemma_volatile_has_path(*body);
            },
            Node::ImplicitIntersection { child, .. } => {
                lemma_volatile_has_path(*child);
            },
            Node::SpillRangeOperator { child } => {
                lemma_volatile_has_path(*child);
            },
            Node::Other => {},
        }
        let rest = choose|path: Seq<Node>| leads_to_volatile_call(path, part);
        let path = seq![node] + rest;
        assert forall|j: int| 0 <= j < path.len() - 1 implies parts(#[trigger] path[j]).contains(
            path[j + 1],
        ) by {
            if j == 0 {
                assert(path[1] == part);
            } else {
                assert(path[j] == rest[j - 1]);
                assert(path[j + 1] == rest[j - 1 + 1]);
            }
        }
        assert(path[path.len() - 1] == rest[rest.len() - 1]);
        assert(leads_to_volatile_call(path, node));
    }
}

/// A formula from which a path leads to a volatile call is volatile.
proof fn lemma_path_makes_volatile(path: Seq<Node>, node: Node)
    requires
        leads_to_volatile_call(path, node),
    ensures
        crate::formula::calls_volatile(node),
    decreases path.len(),
{
    lemma_volatile_parts(node);
    if path.len() == 1 {
        assert(path =~= seq![node]);
    } else {
        let rest = path.drop_first();
        assert forall|j: int| 0 <= j < rest.len() - 1 implies parts(#[trigger] rest[j]).contains(
            rest[j + 1],
        ) by {
            assert(rest[j] == path[j + 1]);
            assert(rest[j + 1] == path[j + 1 + 1]);
        }
        assert(rest[rest.len() - 1] == path[path.len() - 1]);
        lemma_path_makes_volatile(rest, path[1]);
        assert(parts(path[0]).contains(path[0int + 1]));
        let i = parts(node).index_of(path[1]);
        assert(crate::formula::calls_volatile(parts(node)[i]));
    }
}

/// A formula is volatile exactly when somewhere in it, however deep, stands a call of one of
/// the volatile functions.
pub proof fn law_volatile_exactly_with_a_volatile_call(node: Node)
    ensures
        crate::formula::calls_volatile(node) <==> exists|path: Seq<Node>|
            leads_to_volatile_call(path, node),
{
    if crate::formula::calls_volatile(node) {
        lemma_volatile_has_path(node);
    }
    if exists|path: Seq<Node>| leads_to_volatile_call(path, node) {
        let path = choose|path: Seq<Node>| leads_to_volatile_call(path, node);
        lemma_path_makes_volatile(path, node);
    }
}

/// A cell is volatile exactly when it has a formula, entered as such or as an array, that
/// stands among the parsed formulas of its sheet and is volatile.
pub proof fn law_volatile_cells_are_those_with_volatile_formulas(m: Model, k: Key)
    ensures
        m.volatile_cells().contains(k) <==> m.sheets@.contains_key(k) && exists|f: int|
            #![trigger m.parsed_formulas@[k.0 as int]@[f]]
            {
                &&& match m.sheets@[k] {
                    Cell::Formula { f: g } => g == f,
                    Cell::ArrayFormula { f: g, .. } => g == f,
                    _ => false,
                }
                &&& k.0 < m.parsed_formulas@.len()
                &&& 0 <= f < m.parsed_formulas@[k.0 as int]@.len()
                &&& crate::formula::calls_volatile(m.parsed_formulas@[k.0 as int]@[f].0)
            },
{
    if m.volatile_cells().contains(k) {
        let f = m.sheets@[k].formula()->0 as int;
        assert(m.parsed_formulas[k.0 as int][f] == m.parsed_formulas@[k.0 as int]@[f]);
    }
}

/// After a full evaluation, the index has as spill areas the anchor of every dynamic array
/// and every cell each of them spills into, and no other cell.
pub proof fn law_spill_areas_are_those_of_all_arrays(m: Model, after: Model, k: Key)
    requires
        m.indexes_support(after.index@),
    ensures
        forall|i: int|
            0 <= i < m.spill_cells@.len() ==> after.index.spill_areas@.contains(
                (#[trigger] m.spill_cells@[i]).anchor,
            ),
        forall|i: int, j: int|
            0 <= i < m.spill_cells@.len() && 0 <= j < m.spill_cells@[i].area@.len()
                ==> after.index.spill_areas@.contains(#[trigger] m.spill_cells@[i].area@[j]),
        after.index.spill_areas@.contains(k) ==> exists|i: int|
            0 <= i < m.spill_cells@.len() && ((#[trigger] m.spill_cells@[i]).anchor == k
                || m.spill_cells@[i].area@.contains(k)),
{
    assert forall|i: int, j: int|
        0 <= i < m.spill_cells@.len() && 0 <= j < m.spill_cells@[i].area@.len() implies
        after.index.spill_areas@.contains(#[trigger] m.spill_cells@[i].area@[j]) by {
        assert(m.spill_cells[i].takes(m.spill_cells@[i].area@[j]));
    }
    assert forall|i: int| 0 <= i < m.spill_cells@.len() implies after.index.spill_areas@.contains(
        (#[trigger] m.spill_cells@[i]).anchor,
    ) by {
        assert(m.spill_cells[i].takes(m.spill_cells@[i].anchor));
    }
    if after.index.spill_areas@.contains(k) {
        let i = choose|i: int|
            0 <= i < m.spill_cells.len() && (#[trigger] m.spill_cells[i]).takes(k);
        assert(m.spill_cells@[i].anchor == k || m.spill_cells@[i].area@.contains(k));
    }
}

/// The index that a full evaluation builds starts anew: it is trusted, nothing in it is
/// stale, and no formula has been forgotten.
pub proof fn law_built_index_starts_anew(m: Model, after: Model)
    requires
        m.indexes_support(after.index@),
    ensures
        after.index.ready,
        after.index.stale == 0,
        after.index.gen@ == Map::<Key, u32>::empty(),
{
    let ks = choose|ks: Seq<Key>|
        ks.no_duplicates() && ks.to_set() == m.support@.dom() && after.index@
            == #[trigger] m.index_in_order(ks);
    IndexView::empty().lemma_with_all_leaves(ks, |k: Key| m.reads(k));
    assert(after.index@.gen == Map::<Key, u32>::empty());
    assert(after.index@.stale == 0);
    assert(after.index@.ready);
}

/// An index of nothing holds nothing, and is not trusted.
pub proof fn law_empty_index_holds_nothing(m: Model)
    requires
        m.index@ == IndexView::empty(),
    ensures
        forall|c: Key| !(#[trigger] m.index.cells@.contains_key(c)),
        forall|s: u32| !(#[trigger] m.index.ranges@.contains_key(s)),
        forall|k: Key| !(#[trigger] m.index.gen@.contains_key(k)),
        forall|k: Key| !(#[trigger] m.index.spill_areas@.contains(k)),
        m.index.stale == 0,
        !m.index.ready,
{
    assert forall|c: Key| !(#[trigger] m.index.cells@.contains_key(c)) by {
        assert(m.index@.readers.contains_key(c) <==> m.index.cells@.contains_key(c));
    }
    assert forall|s: u32| !(#[trigger] m.index.ranges@.contains_key(s)) by {
        assert(m.index@.ranges.contains_key(s) <==> m.index.ranges@.contains_key(s));
    }
    assert forall|k: Key| !(#[trigger] m.index.gen@.contains_key(k)) by {
        assert(m.index@.gen == m.index.gen@);
    }
    assert(m.index@.spill_areas == m.index.spill_areas@);
    assert(m.index@.stale == m.index.stale);
    assert(m.index@.ready == m.index.ready);
}

/// The spill areas and the trust in the index stay as they are between two full evaluations.
pub proof fn law_spill_areas_stay(m: Model, event: RecalcEvent, after: Model, action: RecalcAction)
    requires
        m.steps(event, after, action),
    ensures
        after.index.spill_areas@ == m.index.spill_areas@,
        after.index.ready == m.index.ready,
{
    if event is CellsEvaluated {
        let visited = event->CellsEvaluated_visited;
        m.index@.lemma_with_all_leaves(visited@, |k: Key| m.reads(k));
        assert(after.index@.spill_areas == m.index@.spill_areas);
        assert(after.index@.ready == m.index@.ready);
    } else {
        assert(after.index@.spill_areas == m.index@.spill_areas);
        assert(after.index@.ready == m.index@.ready);
    }
}

/// A cell to visit inside the spill area of a dynamic array, its anchor included, needs a
/// full evaluation, whatever it holds now: a value, nothing or a formula. The cells that are
/// marked or volatile are such cells to visit.
pub proof fn law_spill_area_needs_everything(m: Model, after: Model, action: RecalcAction, k: Key)
    requires
        m.begins(after, action),
        m.index.spill_areas@.contains(k),
        m.dirty@.contains(k) || m.volatile@.contains(k) || m.touched().contains(k),
    ensures
        action is EvaluateAll,
{
    if m.dirty@.contains(k) || m.volatile@.contains(k) {
        m.index@.lemma_root_reached(m.roots(), k);
    }
    assert(m.touched().contains(k) && m.in_dynamic_array(k));
}

/// A cell to visit that is the anchor of a dynamic array, or that one spills into, needs a
/// full evaluation.
pub proof fn law_dynamic_array_needs_everything(
    m: Model,
    after: Model,
    action: RecalcAction,
    k: Key,
)
    requires
        m.begins(after, action),
        m.dirty@.contains(k) || m.volatile@.contains(k) || m.touched().contains(k),
        m.sheets@.contains_key(k),
        match m.sheets@[k] {
            Cell::SpillCell => true,
            Cell::ArrayFormula { kind, .. } => kind == ArrayKind::Dynamic,
            _ => false,
        },
    ensures
        action is EvaluateAll,
{
    if m.dirty@.contains(k) || m.volatile@.contains(k) {
        m.index@.lemma_root_reached(m.roots(), k);
    }
    assert(m.touched().contains(k) && m.in_dynamic_array(k));
}

/// A marked cell whose formula may take more than one cell needs a full evaluation.
pub proof fn law_marked_formula_that_may_spill_needs_everything(
    m: Model,
    after: Model,
    action: RecalcAction,
    k: Key,
    f: i32,
)
    requires
        m.begins(after, action),
        m.dirty@.contains(k),
        m.sheets@.contains_key(k),
        match m.sheets@[k] {
            Cell::Formula { f: g } => g == f,
            Cell::ArrayFormula { f: g, .. } => g == f,
            _ => false,
        },
        k.0 < m.parsed_formulas@.len(),
        0 <= f < m.parsed_formulas@[k.0 as int]@.len(),
        m.parsed_formulas@[k.0 as int]@[f as int].1 != StaticResult::Scalar,
    ensures
        action is EvaluateAll,
        m.index.ready ==> after.dirty@.len() == 0 && action->EvaluateAll_reason@
            == "a formula that may spill"@,
{
    let i = m.dirty@.index_of(k);
    assert(m.parsed_formulas[k.0 as int][f as int] == m.parsed_formulas@[k.0 as int]@[f as int]);
    assert(m.may_spill(m.dirty[i]));
}

/// A full evaluation has its reason, and gives it: the index is not trusted; or, else, a
/// marked cell has a formula that may take more than one cell; or, else, a cell to visit is
/// part of a dynamic array, and then all the cells to visit are marked.
pub proof fn law_full_evaluation_has_its_reason(m: Model, after: Model, reason: &'static str)
    requires
        m.begins(after, (RecalcAction::EvaluateAll { reason })),
    ensures
        !m.index.ready ==> reason@ == "index not ready"@ && after == m,
        m.index.ready ==> {
            ||| reason@ == "a formula that may spill"@ && after.dirty@.len() == 0 && exists|
                i: int,
                f: int,
            |
                #![trigger m.dirty@[i], m.parsed_formulas@[m.dirty@[i].0 as int]@[f]]
                {
                    &&& 0 <= i < m.dirty@.len()
                    &&& m.sheets@.contains_key(m.dirty@[i])
                    &&& match m.sheets@[m.dirty@[i]] {
                        Cell::Formula { f: g } => g == f,
                        Cell::ArrayFormula { f: g, .. } => g == f,
                        _ => false,
                    }
                    &&& m.dirty@[i].0 < m.parsed_formulas@.len()
                    &&& 0 <= f < m.parsed_formulas@[m.dirty@[i].0 as int]@.len()
                    &&& m.parsed_formulas@[m.dirty@[i].0 as int]@[f].1 != StaticResult::Scalar
                }
            ||| reason@ == "touches a dynamic array"@ && after.dirty@.no_duplicates() && (forall|
                k: Key,
            | #[trigger]
                after.dirty@.contains(k) <==> m.touched().contains(k)) && exists|k: Key|
                #![trigger m.touched().contains(k)]
                m.touched().contains(k) && (m.index.spill_areas@.contains(k)
                    || m.sheets@.contains_key(k) && match m.sheets@[k] {
                    Cell::SpillCell => true,
                    Cell::ArrayFormula { kind, .. } => kind == ArrayKind::Dynamic,
                    _ => false,
                })
        },
        after.sheets == m.sheets && after.support == m.support && after.cells == m.cells
            && after.links == m.links && after.index == m.index && after.volatile == m.volatile
            && after.external_users == m.external_users,
{
    if m.index.ready {
        if m.dirty_may_spill() {
            let i = choose|i: int| 0 <= i < m.dirty.len() && m.may_spill(#[trigger] m.dirty[i]);
            let k = m.dirty@[i];
            let f = m.sheets@[k].formula()->0 as int;
            assert(m.parsed_formulas[k.0 as int][f] == m.parsed_formulas@[k.0 as int]@[f]);
        } else {
            let k = choose|k: Key| #[trigger] m.touched().contains(k) && m.in_dynamic_array(k);
            assert(m.touched().contains(k));
            assert forall|d: Key| #[trigger]
                after.dirty@.contains(d) <==> m.touched().contains(d) by {
                assert(after.dirty@.to_set().contains(d) <==> after.dirty@.contains(d));
            }
        }
    }
}

/// The cells to visit are found in the index: they hold the marked and the volatile cells,
/// the readers of each of them, and the formulas with a range entry of the present
/// generation around one of them; and any set of cells that holds all these holds them.
pub proof fn law_cells_to_visit_are_found_in_the_index(m: Model, s: Set<Key>)
    ensures
        forall|k: Key| #[trigger] m.dirty@.contains(k) ==> m.touched().contains(k),
        forall|k: Key| #[trigger] m.volatile@.contains(k) ==> m.touched().contains(k),
        forall|k: Key, d: Key| #[trigger]
            m.touched().contains(k) && m.index.cells@.contains_key(k)
                && #[trigger] m.index.cells@[k]@.contains(d) ==> m.touched().contains(d),
        forall|k: Key, i: int|
            #![trigger m.touched().contains(k), m.index.ranges@[k.0]@[i]]
            m.touched().contains(k) && m.index.ranges@.contains_key(k.0) && 0 <= i
                < m.index.ranges@[k.0]@.len() && {
                let rd = m.index.ranges@[k.0]@[i];
                &&& rd.r1 <= k.1 <= rd.r2
                &&& rd.c1 <= k.2 <= rd.c2
                &&& rd.gen == if m.index.gen@.contains_key(rd.dependent) {
                    m.index.gen@[rd.dependent]
                } else {
                    0
                }
            } ==> m.touched().contains(m.index.ranges@[k.0]@[i].dependent),
        ({
            &&& forall|k: Key| #[trigger] m.dirty@.contains(k) ==> s.contains(k)
            &&& forall|k: Key| #[trigger] m.volatile@.contains(k) ==> s.contains(k)
            &&& forall|k: Key, d: Key| #[trigger]
                s.contains(k) && m.index.cells@.contains_key(k)
                    && #[trigger] m.index.cells@[k]@.contains(d) ==> s.contains(d)
            &&& forall|k: Key, i: int|
                #![trigger s.contains(k), m.index.ranges@[k.0]@[i]]
                s.contains(k) && m.index.ranges@.contains_key(k.0) && 0 <= i
                    < m.index.ranges@[k.0]@.len() && {
                    let rd = m.index.ranges@[k.0]@[i];
                    &&& rd.r1 <= k.1 <= rd.r2
                    &&& rd.c1 <= k.2 <= rd.c2
                    &&& rd.gen == if m.index.gen@.contains_key(rd.dependent) {
                        m.index.gen@[rd.dependent]
                    } else {
                        0
                    }
                } ==> s.contains(m.index.ranges@[k.0]@[i].dependent)
        }) ==> m.touched().subset_of(s),
{
    let v = m.index@;
    assert forall|k: Key| #[trigger] m.dirty@.contains(k) implies m.touched().contains(k) by {
        assert(m.roots().contains(k));
        v.lemma_root_reached(m.roots(), k);
    }
    assert forall|k: Key| #[trigger] m.volatile@.contains(k) implies m.touched().contains(k) by {
        v.lemma_root_reached(m.roots(), k);
    }
    assert forall|k: Key, d: Key| #[trigger]
        m.touched().contains(k) && m.index.cells@.contains_key(k)
            && #[trigger] m.index.cells@[k]@.contains(d) implies m.touched().contains(d) by {
        assert(v.readers_of(k).contains(d));
        v.lemma_dependent_reached(m.roots(), k, d);
    }
    assert forall|k: Key, i: int|
        #![trigger m.touched().contains(k), m.index.ranges@[k.0]@[i]]
        m.touched().contains(k) && m.index.ranges@.contains_key(k.0) && 0 <= i
            < m.index.ranges@[k.0]@.len() && {
            let rd = m.index.ranges@[k.0]@[i];
            &&& rd.r1 <= k.1 <= rd.r2
            &&& rd.c1 <= k.2 <= rd.c2
            &&& rd.gen == if m.index.gen@.contains_key(rd.dependent) {
                m.index.gen@[rd.dependent]
            } else {
                0
            }
        } implies m.touched().contains(m.index.ranges@[k.0]@[i].dependent) by {
        let rd = m.index.ranges@[k.0]@[i];
        assert(v.ranges_on(k.0)[i] == rd);
        assert(v.depends(rd.dependent, k));
        v.lemma_dependent_reached(m.roots(), k, rd.dependent);
    }
    if ({
        &&& forall|k: Key| #[trigger] m.dirty@.contains(k) ==> s.contains(k)
        &&& forall|k: Key| #[trigger] m.volatile@.contains(k) ==> s.contains(k)
        &&& forall|k: Key, d: Key| #[trigger]
            s.contains(k) && m.index.cells@.contains_key(k)
                && #[trigger] m.index.cells@[k]@.contains(d) ==> s.contains(d)
        &&& forall|k: Key, i: int|
            #![trigger s.contains(k), m.index.ranges@[k.0]@[i]]
            s.contains(k) && m.index.ranges@.contains_key(k.0) && 0 <= i
                < m.index.ranges@[k.0]@.len() && {
                let rd = m.index.ranges@[k.0]@[i];
                &&& rd.r1 <= k.1 <= rd.r2
                &&& rd.c1 <= k.2 <= rd.c2
                &&& rd.gen == if m.index.gen@.contains_key(rd.dependent) {
                    m.index.gen@[rd.dependent]
                } else {
                    0
                }
            } ==> s.contains(m.index.ranges@[k.0]@[i].dependent)
    }) {
        assert forall|k: Key, d: Key| s.contains(k) && #[trigger] v.depends(d, k) implies s.contains(
            d,
        ) by {
            if v.readers_of(k).contains(d) {
                assert(m.index.cells@[k]@.contains(d));
            } else {
                let i = choose|i: int|
                    #![trigger v.ranges_on(k.0)[i]]
                    0 <= i < v.ranges_on(k.0).len() && v.ranges_on(k.0)[i].covers(k) && v.live(
                        v.ranges_on(k.0)[i],
                    ) && v.ranges_on(k.0)[i].dependent == d;
                assert(m.index.ranges@[k.0]@[i] == v.ranges_on(k.0)[i]);
            }
        }
        assert(m.roots().subset_of(s));
        v.lemma_reached_least(m.roots(), s);
    }
}

/// A faithful index says of every formula what it read: it is a reader of
/// exactly the cells it read; each range it read has an entry of its present generation, with
/// these corners; each entry of the present generation of a formula is a range it read; and
/// no entry is of a later generation.
pub proof fn law_faithful_index_in_full(m: Model)
    ensures
        m.index_faithful() ==> {
            &&& forall|c: Key, d: Key|
                m.index.cells@.contains_key(c) && #[trigger] m.index.cells@[c]@.contains(d)
                    ==> m.support@.contains_key(d) && m.support@[d]@.contains(CellOrRange::Cell(c))
            &&& forall|c: Key, d: Key|
                m.support@.contains_key(d) && #[trigger] m.support@[d]@.contains(
                    CellOrRange::Cell(c),
                ) ==> m.index.cells@.contains_key(c) && m.index.cells@[c]@.contains(d)
            &&& forall|d: Key, s: u32, r1: i32, c1: i32, r2: i32, c2: i32|
                m.support@.contains_key(d) && #[trigger] m.support@[d]@.contains(
                    CellOrRange::Range((s, r1, c1, r2, c2)),
                ) ==> m.index.ranges@.contains_key(s) && m.index.ranges@[s]@.contains(
                    RangeDep {
                        r1,
                        c1,
                        r2,
                        c2,
                        dependent: d,
                        gen: if m.index.gen@.contains_key(d) {
                            m.index.gen@[d]
                        } else {
                            0
                        },
                    },
                )
            &&& forall|s: u32, i: int|
                m.index.ranges@.contains_key(s) && 0 <= i < m.index.ranges@[s]@.len() ==> {
                    let rd = #[trigger] m.index.ranges@[s]@[i];
                    let gen = if m.index.gen@.contains_key(rd.dependent) {
                        m.index.gen@[rd.dependent]
                    } else {
                        0
                    };
                    &&& rd.gen <= gen
                    &&& rd.gen == gen ==> m.support@.contains_key(rd.dependent)
                        && m.support@[rd.dependent]@.contains(
                        CellOrRange::Range((s, rd.r1, rd.c1, rd.r2, rd.c2)),
                    )
                }
        },
{
    if m.index_faithful() {
        let v = m.index@;
        let reads = |k: Key| m.reads(k);
        assert forall|c: Key, d: Key|
            m.index.cells@.contains_key(c) && #[trigger] m.index.cells@[c]@.contains(d) implies
            m.support@.contains_key(d) && m.support@[d]@.contains(CellOrRange::Cell(c)) by {
            assert(v.readers_of(c).contains(d) <==> reads(d).contains(CellOrRange::Cell(c)));
        }
        assert forall|c: Key, d: Key|
            m.support@.contains_key(d) && #[trigger] m.support@[d]@.contains(
                CellOrRange::Cell(c),
            ) implies m.index.cells@.contains_key(c) && m.index.cells@[c]@.contains(d) by {
            assert(v.readers_of(c).contains(d) <==> reads(d).contains(CellOrRange::Cell(c)));
        }
        assert forall|d: Key, s: u32, r1: i32, c1: i32, r2: i32, c2: i32|
            m.support@.contains_key(d) && #[trigger] m.support@[d]@.contains(
                CellOrRange::Range((s, r1, c1, r2, c2)),
            ) implies m.index.ranges@.contains_key(s) && m.index.ranges@[s]@.contains(
            RangeDep {
                r1,
                c1,
                r2,
                c2,
                dependent: d,
                gen: if m.index.gen@.contains_key(d) {
                    m.index.gen@[d]
                } else {
                    0
                },
            },
        ) by {
            let p = CellOrRange::Range((s, r1, c1, r2, c2));
            assert(reads(d).contains(p));
            assert(v.holds_range(d, p));
        }
        assert forall|s: u32, i: int|
            m.index.ranges@.contains_key(s) && 0 <= i < m.index.ranges@[s]@.len() implies {
            let rd = #[trigger] m.index.ranges@[s]@[i];
            let gen = if m.index.gen@.contains_key(rd.dependent) {
                m.index.gen@[rd.dependent]
            } else {
                0
            };
            &&& rd.gen <= gen
            &&& rd.gen == gen ==> m.support@.contains_key(rd.dependent)
                && m.support@[rd.dependent]@.contains(
                CellOrRange::Range((s, rd.r1, rd.c1, rd.r2, rd.c2)),
            )
        } by {
            assert(v.ranges_on(s)[i] == m.index.ranges@[s]@[i]);
            assert(v.entry_true(s, v.ranges_on(s)[i], reads));
        }
    }
}

/// An incremental recalculation visits the marked and the volatile cells, and every formula
/// that read a visited cell, by itself or inside a range; each of them once. Any set of cells
/// that holds all these holds every visited cell.
pub proof fn law_visited_cells_are_the_changed_and_their_readers(
    m: Model,
    mid: Model,
    visited: Vec<Key>,
    s: Set<Key>,
)
    requires
        m.index_faithful(),
        m.begins(mid, (RecalcAction::EvaluateCells { visited })),
    ensures
        visited@.no_duplicates(),
        forall|k: Key| #[trigger] m.dirty@.contains(k) ==> visited@.contains(k),
        forall|k: Key| #[trigger] m.volatile@.contains(k) ==> visited@.contains(k),
        forall|k: Key, d: Key| #[trigger]
            visited@.contains(k) && m.support@.contains_key(d) && #[trigger] m.support@[d]@.contains(
                CellOrRange::Cell(k),
            ) ==> visited@.contains(d),
        forall|k: Key, d: Key, r1: i32, c1: i32, r2: i32, c2: i32| #[trigger]
            visited@.contains(k) && m.support@.contains_key(d) && #[trigger] m.support@[d]@.contains(
                CellOrRange::Range((k.0, r1, c1, r2, c2)),
            ) && r1 <= k.1 <= r2 && c1 <= k.2 <= c2 ==> visited@.contains(d),
        ({
            &&& forall|k: Key| #[trigger] m.dirty@.contains(k) ==> s.contains(k)
            &&& forall|k: Key| #[trigger] m.volatile@.contains(k) ==> s.contains(k)
            &&& forall|k: Key, d: Key| #[trigger]
                s.contains(k) && m.support@.contains_key(d) && #[trigger] m.support@[d]@.contains(
                    CellOrRange::Cell(k),
                ) ==> s.contains(d)
            &&& forall|k: Key, d: Key, r1: i32, c1: i32, r2: i32, c2: i32| #[trigger]
                s.contains(k) && m.support@.contains_key(d) && #[trigger] m.support@[d]@.contains(
                    CellOrRange::Range((k.0, r1, c1, r2, c2)),
                ) && r1 <= k.1 <= r2 && c1 <= k.2 <= c2 ==> s.contains(d)
        }) ==> forall|k: Key| #[trigger] visited@.contains(k) ==> s.contains(k),
{
    crate::laws::law_visits_the_marked_and_their_readers(m, s);
    assert forall|k: Key| #[trigger] visited@.contains(k) <==> m.touched().contains(k) by {
        assert(visited@.to_set().contains(k) <==> visited@.contains(k));
    }
    assert forall|k: Key| #[trigger] m.dirty@.contains(k) implies visited@.contains(k) by {
        let i = m.dirty@.index_of(k);
        assert(m.touched().contains(m.dirty@[i]));
    }
    assert forall|k: Key| #[trigger] m.volatile@.contains(k) implies visited@.contains(k) by {
        assert(m.touched().contains(k));
    }
    assert forall|k: Key, d: Key| #[trigger]
        visited@.contains(k) && m.support@.contains_key(d) && #[trigger] m.support@[d]@.contains(
            CellOrRange::Cell(k),
        ) implies visited@.contains(d) by {
        let i = m.reads(d).index_of(CellOrRange::Cell(k));
        assert(crate::laws::read_covers(m.reads(d)[i], k));
        assert(crate::laws::reads_cell(m.reads(d), k));
    }
    assert forall|k: Key, d: Key, r1: i32, c1: i32, r2: i32, c2: i32| #[trigger]
        visited@.contains(k) && m.support@.contains_key(d) && #[trigger] m.support@[d]@.contains(
            CellOrRange::Range((k.0, r1, c1, r2, c2)),
        ) && r1 <= k.1 <= r2 && c1 <= k.2 <= c2 implies visited@.contains(d) by {
        let i = m.reads(d).index_of(CellOrRange::Range((k.0, r1, c1, r2, c2)));
        assert(crate::laws::read_covers(m.reads(d)[i], k));
        assert(crate::laws::reads_cell(m.reads(d), k));
    }
    if ({
        &&& forall|k: Key| #[trigger] m.dirty@.contains(k) ==> s.contains(k)
        &&& forall|k: Key| #[trigger] m.volatile@.contains(k) ==> s.contains(k)
        &&& forall|k: Key, d: Key| #[trigger]
            s.contains(k) && m.support@.contains_key(d) && #[trigger] m.support@[d]@.contains(
                CellOrRange::Cell(k),
            ) ==> s.contains(d)
        &&& forall|k: Key, d: Key, r1: i32, c1: i32, r2: i32, c2: i32| #[trigger]
            s.contains(k) && m.support@.contains_key(d) && #[trigger] m.support@[d]@.contains(
                CellOrRange::Range((k.0, r1, c1, r2, c2)),
            ) && r1 <= k.1 <= r2 && c1 <= k.2 <= c2 ==> s.contains(d)
    }) {
        assert(m.roots().subset_of(s));
        assert forall|d: Key, k: Key|
            s.contains(k) && #[trigger] crate::laws::reads_cell(m.reads(d), k) implies s.contains(
            d,
        ) by {
            let i = choose|i: int|
                0 <= i < m.reads(d).len() && crate::laws::read_covers(#[trigger] m.reads(d)[i], k);
            let p = m.reads(d)[i];
            assert(m.support@[d]@.contains(p));
        }
    }
}

/// Beginning an incremental recalculation forgets the visited cells, and them alone: their
/// state, their link and what they read are gone, they read no outside value, and their
/// entries are one generation old. All the rest of the model is as it was, but for the marks,
/// which are gone, and for the count of stale entries, to which each range that a visited
/// cell read is added.
pub proof fn law_beginning_forgets_the_visited_alone(
    m: Model,
    mid: Model,
    visited: Vec<Key>,
    k: Key,
)
    requires
        m.can_forget(m.touched()),
        m.begins(mid, (RecalcAction::EvaluateCells { visited })),
    ensures
        mid.dirty@.len() == 0,
        mid.index.stale == m.index.stale + crate::sums::sum_over(
            |d: Key| crate::index::range_count(m.reads(d)),
            visited@.to_set(),
        ),
        visited@.contains(k) ==> !mid.cells@.contains_key(k) && !mid.links@.contains_key(k)
            && !mid.support@.contains_key(k),
        visited@.contains(k) ==> mid.index.gen@.contains_key(k) && mid.index.gen@[k] == 1 + (
        if m.index.gen@.contains_key(k) {
            m.index.gen@[k]
        } else {
            0
        }),
        !visited@.contains(k) ==> {
            &&& mid.cells@.contains_key(k) == m.cells@.contains_key(k)
            &&& m.cells@.contains_key(k) ==> mid.cells@[k] == m.cells@[k]
            &&& mid.links@.contains_key(k) == m.links@.contains_key(k)
            &&& m.links@.contains_key(k) ==> mid.links@[k] == m.links@[k]
            &&& mid.support@.contains_key(k) == m.support@.contains_key(k)
            &&& m.support@.contains_key(k) ==> mid.support@[k] == m.support@[k]
            &&& mid.index.gen@.contains_key(k) == m.index.gen@.contains_key(k)
            &&& m.index.gen@.contains_key(k) ==> mid.index.gen@[k] == m.index.gen@[k]
        },
        forall|key: Seq<char>| #[trigger]
            mid.external_users@.contains_key(key) <==> m.external_users@.contains_key(key),
        forall|key: Seq<char>| #[trigger]
            m.external_users@.contains_key(key) ==> (mid.external_users@[key]@.contains(k)
                <==> m.external_users@[key]@.contains(k) && !visited@.contains(k)),
        mid.sheets == m.sheets,
        mid.parsed_formulas == m.parsed_formulas,
        mid.spill_cells == m.spill_cells,
        mid.volatile == m.volatile,
        mid.externals == m.externals,
        mid.forgotten == m.forgotten,
        mid.external_requests == m.external_requests,
{
    assert(visited@.to_set().contains(k) <==> visited@.contains(k));
    assert(m.touched().contains(k) <==> visited@.contains(k));
    let taken = Model { dirty: mid.dirty, ..m };
    let left = m.index@.without(m.touched(), |d: Key| taken.reads(d));
    assert(mid.index@.gen == left.gen);
    assert(mid.index@.stale == left.stale);
    let f = |d: Key| crate::index::range_count(m.reads(d));
    let reads = |d: Key| taken.reads(d);
    assert((|d: Key| crate::index::range_count(reads(d))) =~= f);
    if m.touched().contains(k) {
        assert(m.index@.generation(k) < u32::MAX);
    }
    assert(mid.users().dom() =~= taken.users().dom());
    assert forall|key: Seq<char>| #[trigger]
        mid.external_users@.contains_key(key) <==> m.external_users@.contains_key(key) by {
        assert(mid.users().dom().contains(key) <==> mid.external_users@.contains_key(key));
        assert(taken.users().dom().contains(key) <==> m.external_users@.contains_key(key));
    }
    assert forall|key: Seq<char>| #[trigger] m.external_users@.contains_key(key) implies (
    mid.external_users@[key]@.contains(k) <==> m.external_users@[key]@.contains(k)
        && !visited@.contains(k)) by {
        assert(taken.users().contains_key(key));
        assert(mid.users().contains_key(key));
        assert(mid.users()[key] == taken.users()[key].difference(m.touched()));
    }
}

/// Whether a recalculation goes on incrementally depends on one thing: whether a visited
/// cell is now a dynamic array of other than one cell.
pub proof fn law_starting_to_spill_needs_everything(
    m: Model,
    visited: Vec<Key>,
    after: Model,
    action: RecalcAction,
)
    requires
        m.steps((RecalcEvent::CellsEvaluated { visited }), after, action),
    ensures
        action is EvaluateAll <==> exists|i: int|
            0 <= i < visited@.len() && m.sheets@.contains_key(#[trigger] visited@[i])
                && match m.sheets@[visited@[i]] {
                Cell::ArrayFormula { kind, r, .. } => kind == ArrayKind::Dynamic && !(r.0 == 1
                    && r.1 == 1),
                _ => false,
            },
        action is EvaluateAll ==> action->EvaluateAll_reason@ == "a formula started to spill"@
            && after == m,
        !(action is EvaluateAll) ==> action is EvaluateConditionalFormatting
            && action->EvaluateConditionalFormatting_cells == visited@.len(),
{
    if exists|i: int| 0 <= i < visited@.len() && m.spills(#[trigger] visited@[i]) {
        let i = choose|i: int| 0 <= i < visited@.len() && m.spills(#[trigger] visited@[i]);
        assert(m.sheets@.contains_key(visited@[i]));
    }
    if exists|i: int|
        0 <= i < visited@.len() && m.sheets@.contains_key(#[trigger] visited@[i])
            && match m.sheets@[visited@[i]] {
            Cell::ArrayFormula { kind, r, .. } => kind == ArrayKind::Dynamic && !(r.0 == 1 && r.1
                == 1),
            _ => false,
        } {
        let i = choose|i: int|
            0 <= i < visited@.len() && m.sheets@.contains_key(#[trigger] visited@[i])
                && match m.sheets@[visited@[i]] {
                Cell::ArrayFormula { kind, r, .. } => kind == ArrayKind::Dynamic && !(r.0 == 1
                    && r.1 == 1),
                _ => false,
            };
        assert(m.spills(visited@[i]));
    }
}

/// Going on incrementally changes the index and the volatile cells, and nothing else: a
/// visited cell is volatile from then on exactly when its formula is volatile, every other
/// cell exactly when it was. No generation changes.
pub proof fn law_going_on_changes_index_and_volatile_alone(
    m: Model,
    visited: Vec<Key>,
    after: Model,
    cells: usize,
    k: Key,
)
    requires
        m.steps(
            (RecalcEvent::CellsEvaluated { visited }),
            after,
            (RecalcAction::EvaluateConditionalFormatting { cells }),
        ),
    ensures
        visited@.contains(k) ==> after.volatile@.contains(k) == m.volatile_cells().contains(k),
        !visited@.contains(k) ==> after.volatile@.contains(k) == m.volatile@.contains(k),
        after.index.gen@ == m.index.gen@,
        after.sheets == m.sheets,
        after.parsed_formulas == m.parsed_formulas,
        after.cells == m.cells,
        after.links == m.links,
        after.support == m.support,
        after.spill_cells == m.spill_cells,
        after.dirty == m.dirty,
        after.externals == m.externals,
        after.forgotten == m.forgotten,
        after.external_users == m.external_users,
        after.external_requests == m.external_requests,
{
    assert(visited@.to_set().contains(k) <==> visited@.contains(k));
    m.index@.lemma_with_all_leaves(visited@, |d: Key| m.reads(d));
    assert(after.index@.gen == m.index@.gen);
}

/// The report of an incremental recalculation gives the cells handed in, the volatile cells
/// and the times, and no reason.
pub proof fn law_report_of_an_incremental_recalculation(
    m: Model,
    cells: usize,
    millis: u128,
    millis_cf: u128,
    after: Model,
    action: RecalcAction,
)
    requires
        m.steps((RecalcEvent::Formatted { cells, millis, millis_cf }), after, action),
    ensures
        after == m,
        action is Done,
        !action->Done_report.full,
        action->Done_report.reason@ == ""@,
        action->Done_report.cells == cells,
        action->Done_report.volatile == m.volatile@.len(),
        action->Done_report.millis == millis,
        action->Done_report.millis_cf == millis_cf,
{
}

/// The report of a full evaluation gives its reason, the formula cells of the workbook, the
/// volatile cells and the time, and no time for conditional formatting.
pub proof fn law_report_of_a_full_evaluation(
    m: Model,
    reason: &'static str,
    millis: u128,
    after: Model,
    action: RecalcAction,
)
    requires
        m.steps((RecalcEvent::AllEvaluated { reason, millis }), after, action),
    ensures
        after == m,
        action is Done,
        action->Done_report.full,
        action->Done_report.reason@ == reason@,
        action->Done_report.cells == m.cells@.dom().len(),
        action->Done_report.volatile == m.volatile@.len(),
        action->Done_report.millis == millis,
        action->Done_report.millis_cf == 0,
{
}

/// Reads that are ranges are counted one by one.
pub proof fn law_ranges_are_counted_one_by_one(reads: Seq<CellOrRange>, p: CellOrRange)
    ensures
        crate::index::range_count(Seq::empty()) == 0,
        p is Range ==> crate::index::range_count(reads.push(p)) == crate::index::range_count(reads)
            + 1,
        p is Cell ==> crate::index::range_count(reads.push(p)) == crate::index::range_count(reads),
{
    reveal(Seq::filter);
    crate::index::lemma_count_push(reads, p);
}

/// A sum over no member is nothing, and each further member adds its own share.
pub proof fn law_sums_add_up<K>(f: spec_fn(K) -> nat, s: Set<K>, k: K)
    requires
        s.finite(),
        !s.contains(k),
    ensures
        crate::sums::sum_over(f, Set::empty()) == 0,
        crate::sums::sum_over(f, s.insert(k)) == f(k) + crate::sums::sum_over(f, s),
{
    crate::sums::lemma_sum_insert(f, s, k);
}

/// Range entries are counted one by one, stale or not, on every sheet.
pub proof fn law_entries_are_counted_one_by_one(
    v: IndexView,
    w: IndexView,
    s: u32,
    rd: RangeDep,
)
    requires
        w.ranges == v.ranges.insert(
            s,
            (if v.ranges.contains_key(s) {
                v.ranges[s]
            } else {
                Seq::empty()
            }).push(rd),
        ),
    ensures
        v.ranges == Map::<u32, Seq<RangeDep>>::empty() ==> v.entry_count() == 0,
        w.entry_count() == v.entry_count() + 1,
{
    let before = v.ranges.dom();
    let f = |t: u32| v.ranges[t].len();
    let g = |t: u32| w.ranges[t].len();
    crate::key::lemma_sheets_finite(before);
    crate::key::lemma_sheets_finite(w.ranges.dom());
    let others = before.remove(s);
    assert(w.ranges.dom() =~= others.insert(s));
    crate::sums::lemma_sum_insert(g, others, s);
    crate::sums::lemma_sum_same(g, f, others);
    if before.contains(s) {
        crate::sums::lemma_sum_remove(f, before, s);
    } else {
        assert(others =~= before);
    }
}

/// The number of entries, with those of the sheets that have none.
proof fn lemma_entry_count_full(v: IndexView)
    ensures
        v.entry_count() == crate::sums::sum_over(|s: u32| v.ranges_on(s).len(), Set::full()),
{
    let f = |s: u32| v.ranges[s].len();
    let g = |s: u32| v.ranges_on(s).len();
    crate::key::lemma_sheets_finite(v.ranges.dom());
    crate::key::lemma_sheets_finite(Set::full());
    crate::sums::lemma_sum_same(f, g, v.ranges.dom());
    crate::sums::lemma_sum_support(g, v.ranges.dom(), Set::full());
}

/// Each range read adds an entry.
proof fn lemma_entries_added(
    v: IndexView,
    ks: Seq<Key>,
    reads: spec_fn(Key) -> Seq<CellOrRange>,
)
    requires
        ks.no_duplicates(),
    ensures
        v.with_all(ks, reads).entry_count() == v.entry_count() + crate::sums::sum_over(
            |k: Key| crate::index::range_count(reads(k)),
            ks.to_set(),
        ),
    decreases ks.len(),
{
    let f = |k: Key| crate::index::range_count(reads(k));
    if ks.len() == 0 {
        assert(ks.to_set() =~= Set::empty());
    } else {
        let rest = ks.drop_last();
        let k = ks.last();
        lemma_entries_added(v, rest, reads);
        let now = v.with_all(rest, reads);
        let next = now.with_reads(k, reads(k));
        let gen = now.generation(k);
        lemma_entry_count_full(now);
        lemma_entry_count_full(next);
        crate::key::lemma_sheets_finite(Set::full());
        let a = |s: u32| next.ranges_on(s).len();
        let b = |s: u32| now.ranges_on(s).len();
        let c = |s: u32| crate::index::deps_on(reads(k), s, k, gen).len();
        assert forall|s: u32| #[trigger] a(s) == b(s) + c(s) by {
            crate::laws::lemma_with_ranges_on(now, k, reads(k), s);
        }
        crate::sums::lemma_sum_split(a, b, c, Set::full());
        crate::stale::lemma_deps_total(reads(k), k, gen);
        crate::key::lemma_keys_finite(rest.to_set());
        assert(ks =~= rest.push(k));
        rest.lemma_push_to_set_commute(k);
        assert(!rest.to_set().contains(k)) by {
            if rest.contains(k) {
                let i = rest.index_of(k);
                assert(ks[i] == ks[ks.len() - 1]);
            }
        }
        crate::sums::lemma_sum_insert(f, rest.to_set(), k);
    }
}

/// Going on drops the stale entries when there are at least 1024 and they are at least half
/// of the entries, those for what the visited cells read now included; then every entry left
/// is of the present generation of its formula. Else the count of stale entries stays.
pub proof fn law_going_on_drops_stale_entries_when_they_dominate(
    m: Model,
    visited: Vec<Key>,
    after: Model,
    cells: usize,
)
    requires
        visited@.no_duplicates(),
        m.steps(
            (RecalcEvent::CellsEvaluated { visited }),
            after,
            (RecalcAction::EvaluateConditionalFormatting { cells }),
        ),
    ensures
        ({
            let total = m.index@.entry_count() + crate::sums::sum_over(
                |k: Key| crate::index::range_count(m.reads(k)),
                visited@.to_set(),
            );
            if m.index.stale >= 1024 && m.index.stale + m.index.stale >= total {
                &&& after.index.stale == 0
                &&& forall|s: u32, i: int|
                    after.index.ranges@.contains_key(s) && 0 <= i
                        < after.index.ranges@[s]@.len() ==> {
                        let rd = #[trigger] after.index.ranges@[s]@[i];
                        rd.gen == if after.index.gen@.contains_key(rd.dependent) {
                            after.index.gen@[rd.dependent]
                        } else {
                            0
                        }
                    }
            } else {
                &&& after.index.stale == m.index.stale
                &&& after.index@.entry_count() == total
            }
        }),
{
    let reads = |k: Key| m.reads(k);
    let indexed = m.index@.with_all(visited@, reads);
    lemma_entries_added(m.index@, visited@, reads);
    m.index@.lemma_with_all_leaves(visited@, reads);
    let f = |k: Key| crate::index::range_count(m.reads(k));
    assert((|k: Key| crate::index::range_count(reads(k))) =~= f);
    assert(after.index@.stale == after.index.stale);
    assert(m.index@.stale == m.index.stale);
    if indexed.compaction_due() {
        let live = |rd: RangeDep| indexed.live(rd);
        assert forall|s: u32, i: int|
            after.index.ranges@.contains_key(s) && 0 <= i
                < after.index.ranges@[s]@.len() implies {
            let rd = #[trigger] after.index.ranges@[s]@[i];
            rd.gen == if after.index.gen@.contains_key(rd.dependent) {
                after.index.gen@[rd.dependent]
            } else {
                0
            }
        } by {
            assert(after.index@.ranges_on(s)[i] == after.index.ranges@[s]@[i]);
            crate::laws::lemma_compacted_ranges_on(indexed, s);
            indexed.ranges_on(s).lemma_filter_pred(live, i);
            assert(after.index@.gen == indexed.gen);
        }
    }
}

/// Stale entries are dropped when there are at least 1024 of them and they are at least half
/// of all entries, and at no other time.
pub proof fn law_compaction_comes_when_stale_entries_dominate(v: IndexView)
    ensures
        v.compaction_due() <==> v.stale >= 1024 && v.stale + v.stale >= v.entry_count(),
{
}

/// There is room for a step unless it begins incrementally and a counter would overflow: the
/// generation of a cell to visit, or the count of stale entries.
pub proof fn law_room_is_wanting_only_for_a_full_counter(m: Model, event: RecalcEvent)
    ensures
        !(event is Begin) ==> m.has_room(event),
        !m.index.ready ==> m.has_room(event),
        !m.has_room(event) ==> {
            ||| exists|k: Key| #[trigger]
                m.touched().contains(k) && m.index.gen@.contains_key(k) && m.index.gen@[k]
                    == u32::MAX
            ||| m.index.stale + crate::sums::sum_over(
                |k: Key| crate::index::range_count(m.reads(k)),
                m.touched(),
            ) > usize::MAX
        },
        event is Begin && m.goes_incremental() && m.has_room(event) ==> m.index.stale
            + crate::sums::sum_over(
            |k: Key| crate::index::range_count(m.reads(k)),
            m.touched(),
        ) <= usize::MAX,
        forall|k: Key|
            event is Begin && m.goes_incremental() && m.has_room(event)
                && #[trigger] m.touched().contains(k) && m.index.gen@.contains_key(k)
                ==> m.index.gen@[k] < u32::MAX,
{
    if !m.has_room(event) {
        if forall|k: Key| #[trigger]
            m.touched().contains(k) ==> m.index@.generation(k) < u32::MAX {
        } else {
            let k = choose|k: Key| #[trigger]
                m.touched().contains(k) && !(m.index@.generation(k) < u32::MAX);
            assert(m.touched().contains(k) && m.index.gen@.contains_key(k));
        }
    }
    assert forall|k: Key|
        event is Begin && m.goes_incremental() && m.has_room(event)
            && #[trigger] m.touched().contains(k) && m.index.gen@.contains_key(k) implies
        m.index.gen@[k] < u32::MAX by {
        assert(m.index@.generation(k) < u32::MAX);
    }
}

/// A call whose key has a cached value returns that value as it is: a number with the same
/// bits, a text, a truth value; a failure is shown as `#N/A` in the calling cell with its
/// message.
pub proof fn law_cached_value_is_returned_as_it_is(
    m: Model,
    key: Seq<char>,
    cell: CellReferenceIndex,
    after: Model,
    result: CalcResult,
)
    requires
        m.answers(key, cell, after, result),
    ensures
        m.externals@.contains_key(key) ==> match m.externals@[key] {
            ExternalValue::Number(n) => result == CalcResult::Number(n),
            ExternalValue::Text(t) => result == CalcResult::String(t),
            ExternalValue::Boolean(b) => result == CalcResult::Boolean(b),
            ExternalValue::Failed(message) => result == (CalcResult::Error {
                error: Error::NA,
                origin: cell,
                message,
            }),
        },
        !m.externals@.contains_key(key) && m.forgotten@.contains_key(key) ==> match m.forgotten@[key] {
            ExternalValue::Number(n) => result == CalcResult::Number(n),
            ExternalValue::Text(t) => result == CalcResult::String(t),
            ExternalValue::Boolean(b) => result == CalcResult::Boolean(b),
            ExternalValue::Failed(message) => result == (CalcResult::Error {
                error: Error::NA,
                origin: cell,
                message,
            }),
        },
        !m.externals@.contains_key(key) && !m.forgotten@.contains_key(key) ==> {
            &&& result is Error
            &&& result->Error_error == Error::NA
            &&& result->Error_origin == cell
            &&& result->Error_message@ == "waiting for the API"@
        },
{
}

/// A value that arrives for a key is what the next call that reads the key returns: calls
/// return equal numbers only for numbers with equal bits, and so on for each sort of value.
pub proof fn law_value_set_is_value_read(
    m: Model,
    mid: Model,
    after: Model,
    key: Seq<char>,
    value: ExternalValue,
    cell: CellReferenceIndex,
    result: CalcResult,
)
    requires
        m.sets_external(key, value, mid),
        mid.answers(key, cell, after, result),
    ensures
        match value {
            ExternalValue::Number(n) => result == CalcResult::Number(n),
            ExternalValue::Text(t) => result == CalcResult::String(t),
            ExternalValue::Boolean(b) => result == CalcResult::Boolean(b),
            ExternalValue::Failed(message) => result == (CalcResult::Error {
                error: Error::NA,
                origin: cell,
                message,
            }),
        },
{
}

/// A call makes its cell a reader of its key, asks for the key when it is not cached, and
/// changes nothing else.
pub proof fn law_call_records_reader_and_request(
    m: Model,
    key: Seq<char>,
    cell: CellReferenceIndex,
    after: Model,
    result: CalcResult,
    other: Seq<char>,
    k: Key,
)
    requires
        m.answers(key, cell, after, result),
    ensures
        after.external_users@.contains_key(other) <==> other == key
            || m.external_users@.contains_key(other),
        after.external_users@.contains_key(other) ==> (after.external_users@[other]@.contains(k)
            <==> (other == key && k == (cell.sheet, cell.row, cell.column)) || (
        m.external_users@.contains_key(other) && m.external_users@[other]@.contains(k))),
        after.external_requests@.contains(other) <==> m.external_requests@.contains(other) || (
        other == key && !m.externals@.contains_key(key)),
        after.sheets == m.sheets,
        after.parsed_formulas == m.parsed_formulas,
        after.cells == m.cells,
        after.links == m.links,
        after.support == m.support,
        after.spill_cells == m.spill_cells,
        after.dirty == m.dirty,
        after.volatile == m.volatile,
        after.index == m.index,
        after.externals == m.externals,
        after.forgotten == m.forgotten,
{
    assert(after.users().dom().contains(other) <==> after.external_users@.contains_key(other));
    assert(m.users().dom().contains(other) <==> m.external_users@.contains_key(other));
    assert(after.users().contains_key(other) <==> after.external_users@.contains_key(other));
    assert(m.users().contains_key(other) <==> m.external_users@.contains_key(other));
    if after.external_users@.contains_key(other) {
        assert(after.users()[other] == after.external_users@[other]@);
    }
    if m.external_users@.contains_key(other) {
        assert(m.users()[other] == m.external_users@[other]@);
    }
}

/// A value that arrives is cached under its key, is no longer asked for, and marks exactly
/// the cells that read the key, each once, after the cells marked before; other keys and the
/// rest of the model are as they were.
pub proof fn law_arrival_caches_and_marks(
    m: Model,
    key: Seq<char>,
    value: ExternalValue,
    after: Model,
    other: Seq<char>,
    k: Key,
)
    requires
        m.sets_external(key, value, after),
    ensures
        after.externals@.contains_key(key) && after.externals@[key] == value,
        other != key ==> after.externals@.contains_key(other) == m.externals@.contains_key(other),
        other != key && m.externals@.contains_key(other) ==> after.externals@[other]
            == m.externals@[other],
        !after.forgotten@.contains_key(key),
        other != key ==> after.forgotten@.contains_key(other) == m.forgotten@.contains_key(other),
        other != key && m.forgotten@.contains_key(other) ==> after.forgotten@[other]
            == m.forgotten@[other],
        after.external_requests@.contains(other) <==> other != key && m.external_requests@.contains(
            other,
        ),
        m.dirty@.len() <= after.dirty@.len(),
        after.dirty@.take(m.dirty@.len() as int) == m.dirty@,
        after.dirty@.skip(m.dirty@.len() as int).no_duplicates(),
        after.dirty@.skip(m.dirty@.len() as int).contains(k) <==> m.external_users@.contains_key(
            key,
        ) && m.external_users@[key]@.contains(k),
        after.sheets == m.sheets,
        after.parsed_formulas == m.parsed_formulas,
        after.cells == m.cells,
        after.links == m.links,
        after.support == m.support,
        after.spill_cells == m.spill_cells,
        after.volatile == m.volatile,
        after.index == m.index,
        after.external_users == m.external_users,
{
    let marked = choose|marked: Seq<Key>|
        #![trigger m.dirty@ + marked]
        after.dirty@ == m.dirty@ + marked && marked.no_duplicates() && marked.to_set()
            == m.users_of(key);
    assert(after.dirty@.take(m.dirty@.len() as int) =~= m.dirty@);
    assert(after.dirty@.skip(m.dirty@.len() as int) =~= marked);
    assert(marked.to_set().contains(k) <==> marked.contains(k));
    assert(m.users().contains_key(key) <==> m.external_users@.contains_key(key));
}

/// A value that is forgotten leaves the cache and is asked for; what was cached is kept apart
/// under its key. Other keys and the rest of the model are as they were.
pub proof fn law_forgetting_moves_the_value_aside(
    m: Model,
    key: Seq<char>,
    after: Model,
    other: Seq<char>,
)
    requires
        m.forgets_external(key, after),
    ensures
        !after.externals@.contains_key(key),
        other != key ==> after.externals@.contains_key(other) == m.externals@.contains_key(other),
        other != key && m.externals@.contains_key(other) ==> after.externals@[other]
            == m.externals@[other],
        m.externals@.contains_key(key) ==> after.forgotten@.contains_key(key)
            && after.forgotten@[key] == m.externals@[key],
        other != key || !m.externals@.contains_key(key) ==> after.forgotten@.contains_key(other)
            == m.forgotten@.contains_key(other) && (m.forgotten@.contains_key(other)
            ==> after.forgotten@[other] == m.forgotten@[other]),
        after.external_requests@.contains(other) <==> other == key || m.external_requests@.contains(
            other,
        ),
        after.sheets == m.sheets,
        after.parsed_formulas == m.parsed_formulas,
        after.cells == m.cells,
        after.links == m.links,
        after.support == m.support,
        after.spill_cells == m.spill_cells,
        after.dirty == m.dirty,
        after.volatile == m.volatile,
        after.index == m.index,
        after.external_users == m.external_users,
{
}

/// The keys waited for are those asked for and not cached.
pub proof fn law_waiting_is_asked_for_and_not_cached(m: Model, key: Seq<char>)
    ensures
        m.waiting().contains(key) <==> m.external_requests@.contains(key)
            && !m.externals@.contains_key(key),
{
}

/// The readers of a key are those recorded for it.
pub proof fn law_readers_of_a_key_are_those_recorded(m: Model, key: Seq<char>, k: Key)
    ensures
        m.users().dom() == m.external_users@.dom(),
        m.external_users@.contains_key(key) ==> m.users()[key] == m.external_users@[key]@,
        m.users_of(key).contains(k) <==> m.external_users@.contains_key(key)
            && m.external_users@[key]@.contains(k),
{
    assert(m.users().dom() =~= m.external_users@.dom());
    assert(m.users().contains_key(key) <==> m.external_users@.contains_key(key));
}

/// What is joined into the key of a call is its arguments: as many as there are, in their
/// order, each with its own text.
pub proof fn law_every_argument_is_part_of_the_key(args: Seq<Result<String, CalcResult>>)
    ensures
        crate::external::texts(args).len() == args.len(),
        forall|i: int, text: String|
            #![trigger args[i], text@]
            0 <= i < args.len() && args[i] == Ok::<String, CalcResult>(text)
                ==> crate::external::texts(args)[i] == text@,
{
}

/// A key is its parts in their order, with one separator between each two.
pub proof fn law_key_grows_with_each_argument(parts: Seq<Seq<char>>, part: Seq<char>)
    requires
        parts.len() > 0,
    ensures
        crate::external::joined(seq![part]) == part,
        crate::external::joined(parts.push(part)) == crate::external::joined(parts) + seq!['\u{1}']
            + part,
{
    let more = parts.push(part);
    assert(more.drop_last() =~= parts);
    assert(more.last() == part);
    assert(crate::external::joined(more) =~= crate::external::joined(parts) + seq!['\u{1}'] + part);
}

/// Two calls read the same key only if they have the same arguments, to the last of them, as
/// long as no argument holds the separator.
pub proof fn law_calls_with_different_arguments_read_different_keys(
    a: Seq<Result<String, CalcResult>>,
    b: Seq<Result<String, CalcResult>>,
)
    requires
        a.len() > 0,
        b.len() > 0,
        forall|i: int| 0 <= i < a.len() ==> #[trigger] a[i] is Ok && !a[i]->Ok_0@.contains('\u{1}'),
        forall|i: int| 0 <= i < b.len() ==> #[trigger] b[i] is Ok && !b[i]->Ok_0@.contains('\u{1}'),
        crate::external::joined(crate::external::texts(a)) == crate::external::joined(
            crate::external::texts(b),
        ),
    ensures
        a.len() == b.len(),
        forall|i: int| 0 <= i < a.len() ==> (#[trigger] a[i])->Ok_0@ == b[i]->Ok_0@,
{
    let (x, y) = (crate::external::texts(a), crate::external::texts(b));
    assert forall|i: int| 0 <= i < x.len() implies !(#[trigger] x[i]).contains('\u{1}') by {
        assert(x[i] == a[i]->Ok_0@);
    }
    assert forall|i: int| 0 <= i < y.len() implies !(#[trigger] y[i]).contains('\u{1}') by {
        assert(y[i] == b[i]->Ok_0@);
    }
    crate::laws::law_keys_are_unambiguous(x, y);
    assert forall|i: int| 0 <= i < a.len() implies (#[trigger] a[i])->Ok_0@ == b[i]->Ok_0@ by {
        assert(x[i] == y[i]);
        assert(x[i] == a[i]->Ok_0@);
        assert(y[i] == b[i]->Ok_0@);
    }
}

/// A key has a connection exactly when it is the connection, or the connection, a separator
/// and something more; and the connection holds no separator.
pub proof fn law_connection_stands_before_the_first_separator(
    key: Seq<char>,
    connection: Seq<char>,
)
    ensures
        crate::external::first_part(key, connection) <==> !connection.contains('\u{1}') && (key
            == connection || exists|rest: Seq<char>|
            key == #[trigger] (connection + seq!['\u{1}'] + rest)),
{
    let n = connection.len() as int;
    if crate::external::first_part(key, connection) {
        if n < key.len() {
            let rest = key.skip(n + 1);
            assert forall|i: int| 0 <= i < n implies key[i] == connection[i] by {
                assert(key.take(n)[i] == connection[i]);
            }
            assert(key =~= connection + seq!['\u{1}'] + rest);
        } else {
            assert(key.take(n) =~= key);
        }
    }
    if !connection.contains('\u{1}') {
        if key == connection {
            assert(key.take(n) =~= connection);
        }
        if exists|rest: Seq<char>| key == #[trigger] (connection + seq!['\u{1}'] + rest) {
            let rest = choose|rest: Seq<char>|
                key == #[trigger] (connection + seq!['\u{1}'] + rest);
            assert(key.take(n) =~= connection);
            assert(key[n] == '\u{1}');
        }
    }
}

/// One text comes before another exactly when they agree up to some place, and there the
/// first has ended and the other has not, or has a smaller character.
pub proof fn law_texts_are_ordered_by_the_first_difference(a: Seq<char>, b: Seq<char>)
    ensures
        crate::text::text_before(a, b) <==> exists|n: int|
            #![trigger a.take(n)]
            0 <= n <= a.len() && n < b.len() && a.take(n) == b.take(n) && (n == a.len() || (n
                < a.len() && a[n] < b[n])),
    decreases a.len(),
{
    if b.len() > 0 && a.len() > 0 && a[0] == b[0] {
        let (c, d) = (a.drop_first(), b.drop_first());
        law_texts_are_ordered_by_the_first_difference(c, d);
        if crate::text::text_before(a, b) {
            let n = choose|n: int|
                #![trigger c.take(n)]
                0 <= n <= c.len() && n < d.len() && c.take(n) == d.take(n) && (n == c.len() || (n
                    < c.len() && c[n] < d[n]));
            assert(a.take(n + 1) =~= seq![a[0]] + c.take(n));
            assert(b.take(n + 1) =~= seq![b[0]] + d.take(n));
        }
        if exists|n: int|
            #![trigger a.take(n)]
            0 <= n <= a.len() && n < b.len() && a.take(n) == b.take(n) && (n == a.len() || (n
                < a.len() && a[n] < b[n])) {
            let n = choose|n: int|
                #![trigger a.take(n)]
                0 <= n <= a.len() && n < b.len() && a.take(n) == b.take(n) && (n == a.len() || (n
                    < a.len() && a[n] < b[n]));
            assert(n > 0);
            assert(c.take(n - 1) =~= a.take(n).drop_first());
            assert(d.take(n - 1) =~= b.take(n).drop_first());
        }
    } else if b.len() > 0 {
        assert(a.take(0) =~= b.take(0));
        if exists|n: int|
            #![trigger a.take(n)]
            0 <= n <= a.len() && n < b.len() && a.take(n) == b.take(n) && (n == a.len() || (n
                < a.len() && a[n] < b[n])) {
            let n = choose|n: int|
                #![trigger a.take(n)]
                0 <= n <= a.len() && n < b.len() && a.take(n) == b.take(n) && (n == a.len() || (n
                    < a.len() && a[n] < b[n]));
            if n > 0 {
                assert(a.take(n)[0] == b.take(n)[0]);
            }
        }
    }
}

/// A list of a set of keys holds each member and nothing else, and each key in it comes
/// before all that follow.
pub proof fn law_listed_keys_are_the_members_in_order(keys: Seq<String>, members: Set<Seq<char>>)
    requires
        crate::text::lists(keys, members),
    ensures
        forall|i: int| 0 <= i < keys.len() ==> members.contains((#[trigger] keys[i])@),
        forall|k: Seq<char>| #[trigger]
            members.contains(k) ==> exists|i: int| 0 <= i < keys.len() && (#[trigger] keys[i])@ == k,
        forall|i: int, j: int|
            0 <= i < j < keys.len() ==> crate::text::text_before(
                (#[trigger] keys[i])@,
                (#[trigger] keys[j])@,
            ),
{
    let views = keys.map_values(|key: String| key@);
    assert forall|i: int| 0 <= i < keys.len() implies members.contains((#[trigger] keys[i])@) by {
        assert(views[i] == keys[i]@);
        assert(views.to_set().contains(views[i]));
    }
    assert forall|k: Seq<char>| #[trigger] members.contains(k) implies exists|i: int|
        0 <= i < keys.len() && (#[trigger] keys[i])@ == k by {
        assert(views.to_set().contains(k));
        let i = views.index_of(k);
        assert(keys[i]@ == k);
    }
    assert forall|i: int, j: int| 0 <= i < j < keys.len() implies crate::text::text_before(
        (#[trigger] keys[i])@,
        (#[trigger] keys[j])@,
    ) by {
        assert(crate::text::text_before(views[i], views[j]));
    }
}

/// Numbers given by their bits: one is not a number when its exponent is all ones and its
/// fraction is not zero. Such a one equals nothing, itself included; any other equals itself;
/// and two different ones are equal only as the two zeros.
pub proof fn law_numbers_are_equal_as_floating_point(a: u64, b: u64)
    ensures
        crate::external::is_nan(a) <==> (a >> 52u64) & 0x7ff == 0x7ff && a & 0xf_ffff_ffff_ffff != 0,
        crate::external::is_nan(a) || crate::external::is_nan(b)
            ==> !crate::external::equal_numbers(a, b),
        crate::external::equal_numbers(a, a) <==> !crate::external::is_nan(a),
        a != b ==> (crate::external::equal_numbers(a, b) <==> (a == 0 && b
            == 0x8000_0000_0000_0000) || (b == 0 && a == 0x8000_0000_0000_0000)),
{
    assert(a % 0x8000_0000_0000_0000 > 0x7ff0_0000_0000_0000 <==> (a >> 52u64) & 0x7ff == 0x7ff && a
        & 0xf_ffff_ffff_ffff != 0) by (bit_vector);
}

/// Values are compared by what they hold: numbers as numbers, texts and messages by their
/// characters, truth values as such; values of different sorts are never equal.
pub proof fn law_equal_values_hold_the_same(a: ExternalValue, b: ExternalValue)
    ensures
        vstd::std_specs::cmp::PartialEqSpec::eq_spec(&a, &b) <==> match a {
            ExternalValue::Number(x) => b is Number && crate::external::equal_numbers(
                x,
                b->Number_0,
            ),
            ExternalValue::Text(x) => b is Text && x@ == b->Text_0@,
            ExternalValue::Boolean(x) => b is Boolean && x == b->Boolean_0,
            ExternalValue::Failed(x) => b is Failed && x@ == b->Failed_0@,
        },
{
}

/// Results are compared by what they hold; results of different sorts are never equal.
pub proof fn law_equal_results_hold_the_same(a: CalcResult, b: CalcResult)
    ensures
        vstd::std_specs::cmp::PartialEqSpec::eq_spec(&a, &b) <==> match a {
            CalcResult::Number(x) => b is Number && crate::external::equal_numbers(x, b->Number_0),
            CalcResult::String(x) => b is String && x@ == b->String_0@,
            CalcResult::Boolean(x) => b is Boolean && x == b->Boolean_0,
            CalcResult::Error { error, origin, message } => b is Error && error == b->Error_error
                && origin == b->Error_origin && message@ == b->Error_message@,
            CalcResult::ArgsNumberError { origin } => b is ArgsNumberError && origin
                == b->ArgsNumberError_origin,
        },
{
}

} // verus!
