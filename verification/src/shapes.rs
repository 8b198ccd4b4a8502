use vstd::prelude::*;

verus! {

/// The shape of an audio net: how many inputs and outputs it has.
#[derive(Clone, Copy, PartialEq, Eq, Structural, Debug)]
pub struct Shape {
    pub inputs: usize,
    pub outputs: usize,
}

/// The ways two nets are joined into one.
#[derive(Clone, Copy, PartialEq, Eq, Structural, Debug)]
pub enum Combinator {
    /// both read the same inputs; outputs side by side
    Branch,
    /// both read the same inputs; outputs summed
    Bus,
    /// the outputs of the first feed the second
    Pipe,
    /// side by side
    Stack,
    /// outputs summed
    Sum,
    /// outputs multiplied
    Product,
    /// outputs subtracted
    Difference,
}

/// The combinator of the ops that join their input nets one after another:
/// `branch()`, `bus()`, `pipe()`, `stack()`, `sum()`, `product()` (76 to 81),
/// `+`, `*` (82, 83), `-` (84), `>>`, `|`, `&`, `^` (85 to 88).
pub open spec fn spec_combinator_of(op_num: u16) -> Option<Combinator> {
    if op_num == 76 || op_num == 88 {
        Some(Combinator::Branch)
    } else if op_num == 77 || op_num == 87 {
        Some(Combinator::Bus)
    } else if op_num == 78 || op_num == 85 {
        Some(Combinator::Pipe)
    } else if op_num == 79 || op_num == 86 {
        Some(Combinator::Stack)
    } else if op_num == 80 || op_num == 82 {
        Some(Combinator::Sum)
    } else if op_num == 81 || op_num == 83 {
        Some(Combinator::Product)
    } else if op_num == 84 {
        Some(Combinator::Difference)
    } else {
        None
    }
}

/// The combinator an op number joins its inputs with, if it is such an op.
pub fn combinator_of(op_num: u16) -> (c: Option<Combinator>)
    ensures
        c == spec_combinator_of(op_num),
{
    if op_num == 76 || op_num == 88 {
        Some(Combinator::Branch)
    } else if op_num == 77 || op_num == 87 {
        Some(Combinator::Bus)
    } else if op_num == 78 || op_num == 85 {
        Some(Combinator::Pipe)
    } else if op_num == 79 || op_num == 86 {
        Some(Combinator::Stack)
    } else if op_num == 80 || op_num == 82 {
        Some(Combinator::Sum)
    } else if op_num == 81 || op_num == 83 {
        Some(Combinator::Product)
    } else if op_num == 84 {
        Some(Combinator::Difference)
    } else {
        None
    }
}

/// Whether `net` can be joined onto `graph` with combinator `c`: a branch
/// needs equal inputs, a bus equal inputs and outputs, a pipe the outputs of
/// the graph to match the inputs of the net, the arithmetic joins equal
/// outputs; a stack always fits.
pub open spec fn spec_fits(c: Combinator, graph: Shape, net: Shape) -> bool {
    match c {
        Combinator::Branch => graph.inputs == net.inputs,
        Combinator::Bus => graph.inputs == net.inputs && graph.outputs == net.outputs,
        Combinator::Pipe => graph.outputs == net.inputs,
        Combinator::Stack => true,
        Combinator::Sum | Combinator::Product | Combinator::Difference => graph.outputs
            == net.outputs,
    }
}

/// Whether `net` can be joined onto `graph` with combinator `c`.
pub fn fits(c: Combinator, graph: Shape, net: Shape) -> (b: bool)
    ensures
        b == spec_fits(c, graph, net),
{
    match c {
        Combinator::Branch => graph.inputs == net.inputs,
        Combinator::Bus => graph.inputs == net.inputs && graph.outputs == net.outputs,
        Combinator::Pipe => graph.outputs == net.inputs,
        Combinator::Stack => true,
        Combinator::Sum | Combinator::Product | Combinator::Difference => graph.outputs
            == net.outputs,
    }
}

/// Whether a net is a generator: no inputs and one output. Only generators
/// can be sequenced, selected, rendered, reset or run at control rate.
pub fn is_generator(s: Shape) -> (b: bool)
    ensures
        b == (s.inputs == 0 && s.outputs == 1),
{
    s.inputs == 0 && s.outputs == 1
}

/// Whether a net can replace another one that is playing: same shape.
pub fn swappable(current: Shape, incoming: Shape) -> (b: bool)
    ensures
        b == (current.inputs == incoming.inputs && current.outputs == incoming.outputs),
{
    current.inputs == incoming.inputs && current.outputs == incoming.outputs
}

/// Whether a net can be wrapped in feedback: as many outputs as inputs.
pub fn loops_back(s: Shape) -> (b: bool)
    ensures
        b == (s.inputs == s.outputs),
{
    s.inputs == s.outputs
}

/// How the output op sends a net to the two speaker channels.
#[derive(Clone, Copy, PartialEq, Eq, Structural, Debug)]
pub enum OutRouting {
    /// a mono generator plays on the left, silence on the right
    Left,
    /// a stereo generator plays on both
    Stereo,
    /// anything else (or no net) gives silence
    Silence,
}

/// The routing of the net connected to the output op, if any.
pub fn out_routing(net: Option<Shape>) -> (r: OutRouting)
    ensures
        r == (match net {
            Some(s) => if s.inputs == 0 && s.outputs == 1 {
                OutRouting::Left
            } else if s.inputs == 0 && s.outputs == 2 {
                OutRouting::Stereo
            } else {
                OutRouting::Silence
            },
            None => OutRouting::Silence,
        }),
{
    match net {
        Some(s) => {
            if s.inputs == 0 && s.outputs == 1 {
                OutRouting::Left
            } else if s.inputs == 0 && s.outputs == 2 {
                OutRouting::Stereo
            } else {
                OutRouting::Silence
            }
        },
        None => OutRouting::Silence,
    }
}

/// The join ops fit two nets as the README describes them: `>>` and
/// `pipe()` pipe a net on exactly when the graph's outputs match the net's
/// inputs; `+`, `*`, `-`, `sum()` and `product()` need as many outputs on
/// both; `&` and `bus()` need as many inputs and as many outputs; `^` and
/// `branch()` need as many inputs; `|` and `stack()` always stack. `+` and
/// `sum()` add the outputs, `*` and `product()` multiply them, `-` subtracts.
pub proof fn lemma_join_ops_fit(op_num: u16, graph: Shape, net: Shape)
    ensures
        op_num == 78 || op_num == 85 ==> (spec_combinator_of(op_num) matches Some(c) && (
        spec_fits(c, graph, net) <==> graph.outputs == net.inputs)),
        op_num == 80 || op_num == 81 || op_num == 82 || op_num == 83 || op_num == 84 ==> (
        spec_combinator_of(op_num) matches Some(c) && (spec_fits(c, graph, net) <==> graph.outputs
            == net.outputs)),
        op_num == 77 || op_num == 87 ==> (spec_combinator_of(op_num) matches Some(c) && (
        spec_fits(c, graph, net) <==> (graph.inputs == net.inputs && graph.outputs
            == net.outputs))),
        op_num == 76 || op_num == 88 ==> (spec_combinator_of(op_num) matches Some(c) && (
        spec_fits(c, graph, net) <==> graph.inputs == net.inputs)),
        op_num == 79 || op_num == 86 ==> (spec_combinator_of(op_num) matches Some(c) && spec_fits(
            c,
            graph,
            net,
        )),
        (op_num < 76 || op_num > 88) ==> spec_combinator_of(op_num) is None,
        op_num == 80 || op_num == 82 ==> spec_combinator_of(op_num) == Some(Combinator::Sum),
        op_num == 81 || op_num == 83 ==> spec_combinator_of(op_num) == Some(Combinator::Product),
        op_num == 84 ==> spec_combinator_of(op_num) == Some(Combinator::Difference),
{
}

} // verus!
