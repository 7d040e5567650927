//! Parsed formulas, as far as recalculation looks into them.
use vstd::prelude::*;

verus! {

/// The functions a formula can call. Those whose reads are not recorded, or whose value
/// changes by itself, have a name of their own.
#[derive(Debug, Clone, Copy, PartialEq, Eq, Structural)]
pub enum Function {
    Now,
    Today,
    Rand,
    Randbetween,
    Randarray,
    Indirect,
    Offset,
    /// Any other function.
    Other,
}

/// A parsed formula.
#[derive(Debug)]
pub enum Node {
    FunctionKind { kind: Function, args: Vec<Node> },
    NamedFunctionKind { name: String, args: Vec<Node> },
    OpRangeKind { left: Box<Node>, right: Box<Node> },
    OpConcatenateKind { left: Box<Node>, right: Box<Node> },
    OpSumKind { left: Box<Node>, right: Box<Node> },
    OpProductKind { left: Box<Node>, right: Box<Node> },
    OpPowerKind { left: Box<Node>, right: Box<Node> },
    CompareKind { left: Box<Node>, right: Box<Node> },
    UnaryKind { right: Box<Node> },
    LambdaDefKind { parameters: Vec<String>, body: Box<Node> },
    LambdaCallKind { lambda: Box<Node>, args: Vec<Node> },
    ImplicitIntersection { automatic: bool, child: Box<Node> },
    SpillRangeOperator { child: Box<Node> },
    /// Any other node: numbers, texts, references, names, errors.
    Other,
}

/// What static analysis says a formula returns.
#[derive(Debug, Clone, Copy, PartialEq, Eq, Structural)]
pub enum StaticResult {
    Scalar,
    /// Anything that may take more than one cell.
    MaySpill,
}

/// Whether a function is recalculated every time.
pub open spec fn volatile_function(kind: Function) -> bool {
    ||| kind is Now
    ||| kind is Today
    ||| kind is Rand
    ||| kind is Randbetween
    ||| kind is Randarray
    ||| kind is Indirect
    ||| kind is Offset
}

/// Whether a formula calls a volatile function, itself or in one of its parts.
pub open spec fn calls_volatile(node: Node) -> bool
    decreases node,
{
    match node {
        Node::FunctionKind { kind, args } => {
            volatile_function(kind) || exists|i: int|
                0 <= i < args.len() && calls_volatile(#[trigger] args[i])
        },
        Node::NamedFunctionKind { args, .. } => {
            exists|i: int| 0 <= i < args.len() && calls_volatile(#[trigger] args[i])
        },
        Node::LambdaCallKind { lambda, args } => {
            calls_volatile(*lambda) || exists|i: int|
                0 <= i < args.len() && calls_volatile(#[trigger] args[i])
        },
        Node::OpRangeKind { left, right } => calls_volatile(*left) || calls_volatile(*right),
        Node::OpConcatenateKind { left, right } => calls_volatile(*left) || calls_volatile(*right),
        Node::OpSumKind { left, right } => calls_volatile(*left) || calls_volatile(*right),
        Node::OpProductKind { left, right } => calls_volatile(*left) || calls_volatile(*right),
        Node::OpPowerKind { left, right } => calls_volatile(*left) || calls_volatile(*right),
        Node::CompareKind { left, right } => calls_volatile(*left) || calls_volatile(*right),
        Node::UnaryKind { right } => calls_volatile(*right),
        Node::LambdaDefKind { body, .. } => calls_volatile(*body),
        Node::ImplicitIntersection { child, .. } => calls_volatile(*child),
        Node::SpillRangeOperator { child } => calls_volatile(*child),
        Node::Other => false,
    }
}

/// Whether a formula calls a volatile function anywhere: it is then recalculated every
/// time, since what it reads is not recorded or changes by itself.
pub fn is_volatile(node: &Node) -> (volatile: bool)
    ensures
        volatile == calls_volatile(*node),
    decreases node, 0nat,
{
    match node {
        Node::FunctionKind { kind, args } => {
            matches!(
                kind,
                Function::Now | Function::Today | Function::Rand | Function::Randbetween
                    | Function::Randarray | Function::Indirect | Function::Offset
            ) || any_volatile(args)
        },
        Node::OpRangeKind { left, right }
        | Node::OpConcatenateKind { left, right }
        | Node::OpSumKind { left, right }
        | Node::OpProductKind { left, right }
        | Node::OpPowerKind { left, right }
        | Node::CompareKind { left, right } => is_volatile(left) || is_volatile(right),
        Node::LambdaDefKind { body, .. } => is_volatile(body),
        Node::LambdaCallKind { lambda, args } => is_volatile(lambda) || any_volatile(args),
        Node::NamedFunctionKind { args, .. } => any_volatile(args),
        Node::ImplicitIntersection { child, .. } | Node::SpillRangeOperator { child } => {
            is_volatile(child)
        },
        Node::UnaryKind { right } => is_volatile(right),
        Node::Other => false,
    }
}

/// Whether one of the arguments of a call is volatile.
fn any_volatile(args: &Vec<Node>) -> (volatile: bool)
    ensures
        volatile == exists|i: int| 0 <= i < args.len() && calls_volatile(#[trigger] args[i]),
    decreases args, 1nat,
{
    for i in 0..args.len()
        invariant
            forall|j: int| 0 <= j < i ==> !calls_volatile(#[trigger] args[j]),
    {
        if is_volatile(&args[i]) {
            return true;
        }
    }
    false
}

} // verus!
