//! The algebraic description of a valid execution: how a path becomes a trace
//! matrix, and the identities between adjacent rows that vanish exactly where
//! every step follows an edge of the graph and every return goes back to the
//! address that its call left behind.

use vstd::prelude::*;
use crate::cfg::{max_out_degree, successors_of, Cfg};
use crate::exe_path::{JmpType, Step};
use crate::field::{field_mul, field_sub, mul_mod, sub_mod};
use crate::soundness::{
    in_neighbor_slots, is_zero, lemma_nonce_identity, lemma_return_identity,
    lemma_successor_identity, same_element,
};
use crate::trace::{
    is_padding_row, is_real_row, lemma_row_count_fits, lemma_rows_of_trace, longest_path, neighbor, rectangular, round_up_to_power_of_two, row_count, shadow_stack, steps_done,
    trace_cell, trace_of, trace_row, TraceMatrix,
};

verus! {

/// The values that prover and verifier agree on: the first node, the last
/// node and the nonce, as field elements.
#[derive(Debug, Clone, Copy, PartialEq, Eq, Structural)]
pub struct PublicInputs {
    pub start: u64,
    pub end: u64,
    pub nonce: u64,
}

impl PublicInputs {
    /// The three values in the order `start`, `end`, `nonce`.
    pub fn to_elements(&self) -> (elements: Vec<u64>)
        ensures
            elements@ == seq![self.start, self.end, self.nonce],
    {
        let mut elements: Vec<u64> = Vec::new();
        elements.push(self.start);
        elements.push(self.end);
        elements.push(self.nonce);
        elements
    }

    /// The public inputs that a trace stands for: the node of its first row,
    /// the node of its last row and the nonce of its first row.
    pub fn of_trace(trace: &TraceMatrix) -> (inputs: PublicInputs)
        requires
            trace@[0].len() >= 2,
        ensures
            boundary_holds(trace@, inputs),
    {
        let last = trace.length() - 1;
        PublicInputs { start: trace.get(1, 0), end: trace.get(1, last), nonce: trace.get(0, 0) }
    }

    /// The public inputs for a path with the declared first and last nodes
    /// under `nonce`, where both nodes were declared.
    pub fn from_declared(initial_node: Option<u32>, final_node: Option<u32>, nonce: u32) -> (r: Result<
        PublicInputs,
        MissingPublicInput,
    >)
        ensures
            r == declared_inputs(initial_node, final_node, nonce),
    {
        match initial_node {
            None => Err(MissingPublicInput::InitialNode),
            Some(start) => match final_node {
                None => Err(MissingPublicInput::FinalNode),
                Some(end) => Ok(
                    PublicInputs { start: start as u64, end: end as u64, nonce: nonce as u64 },
                ),
            },
        }
    }
}

/// The node that a path did not declare, though the public inputs need it.
#[derive(Debug, Clone, Copy, PartialEq, Eq, Structural)]
pub enum MissingPublicInput {
    InitialNode,
    FinalNode,
}

/// The public inputs of a path that declared both its first and its last
/// node; else the first of the two that is missing.
pub open spec fn declared_inputs(initial_node: Option<u32>, final_node: Option<u32>, nonce: u32) -> Result<
    PublicInputs,
    MissingPublicInput,
> {
    match (initial_node, final_node) {
        (None, _) => Err(MissingPublicInput::InitialNode),
        (Some(_), None) => Err(MissingPublicInput::FinalNode),
        (Some(start), Some(end)) => Ok(
            PublicInputs { start: start as u64, end: end as u64, nonce: nonce as u64 },
        ),
    }
}

/// The claim that one cell of the trace holds a given value.
#[derive(Debug, Clone, Copy, PartialEq, Eq, Structural)]
pub struct Assertion {
    pub column: usize,
    pub step: usize,
    pub value: u64,
}

/// The three boundary assertions hold of `rows`: the first row holds the
/// nonce and the first node, the last row holds the last node.
pub open spec fn boundary_holds(rows: Seq<Seq<u64>>, inputs: PublicInputs) -> bool {
    &&& rows[0][0] == inputs.nonce
    &&& rows[0][1] == inputs.start
    &&& rows[rows.len() - 1][1] == inputs.end
}

/// The nonce identity between a row and the next: the difference of their nonces.
pub open spec fn nonce_residual(current: Seq<u64>, next: Seq<u64>) -> u64 {
    sub_mod(current[0], next[0])
}

/// The product of the differences between the node of the next row and the
/// first `n` neighbor slots of the current row.
pub open spec fn neighbor_product(current: Seq<u64>, next: Seq<u64>, n: nat) -> u64
    decreases n,
{
    if n == 0 {
        1
    } else {
        mul_mod(neighbor_product(current, next, (n - 1) as nat), sub_mod(next[1], current[n as int + 2]))
    }
}

/// The successor identity between a row and the next: the product over all
/// neighbor slots, times the `is_valid` flags of both rows.
pub open spec fn successor_residual(current: Seq<u64>, next: Seq<u64>) -> u64 {
    let width = current.len() as int;
    mul_mod(
        mul_mod(neighbor_product(current, next, (width - 6) as nat), current[width - 3]),
        next[width - 3],
    )
}

/// The return identity between a row and the next: the difference between
/// the stack top of the current row and the node of the next, times the
/// `is_ret` flag of the next.
pub open spec fn return_residual(current: Seq<u64>, next: Seq<u64>) -> u64 {
    mul_mod(sub_mod(current[2], next[1]), next[current.len() - 2])
}

/// All three identities vanish between two rows.
pub open spec fn transition_holds(current: Seq<u64>, next: Seq<u64>) -> bool {
    &&& nonce_residual(current, next) == 0
    &&& successor_residual(current, next) == 0
    &&& return_residual(current, next) == 0
}

/// The rows meet the constraint system under the public inputs: the
/// boundary assertions hold, and all identities vanish between any two
/// adjacent rows.
pub open spec fn satisfied_by(rows: Seq<Seq<u64>>, inputs: PublicInputs) -> bool {
    &&& boundary_holds(rows, inputs)
    &&& forall|r: int| 0 <= r && r + 1 < rows.len() ==> transition_holds(#[trigger] rows[r], rows[r + 1])
}

/// The constraint system of one attested execution.
pub struct StarkraAir {
    trace_width: usize,
    trace_length: usize,
    start: u64,
    end: u64,
    nonce: u64,
}

impl StarkraAir {
    /// The number of columns of the traces that the system is for.
    pub closed spec fn trace_width(&self) -> nat {
        self.trace_width as nat
    }

    /// The number of rows of the traces that the system is for.
    pub closed spec fn trace_length(&self) -> nat {
        self.trace_length as nat
    }

    /// The public inputs that the system was made with.
    pub closed spec fn public_inputs(&self) -> PublicInputs {
        PublicInputs { start: self.start, end: self.end, nonce: self.nonce }
    }

    #[verifier::type_invariant]
    spec fn well_formed(&self) -> bool {
        self.trace_width >= 6 && self.trace_length >= 1
    }

    /// The constraint system for traces of the given width and length under
    /// the given public inputs.
    pub fn new(trace_width: usize, trace_length: usize, pub_inputs: PublicInputs) -> (air: StarkraAir)
        requires
            trace_width >= 6,
            trace_length >= 1,
        ensures
            air.trace_width() == trace_width,
            air.trace_length() == trace_length,
            air.public_inputs() == pub_inputs,
    {
        StarkraAir {
            trace_width,
            trace_length,
            start: pub_inputs.start,
            end: pub_inputs.end,
            nonce: pub_inputs.nonce,
        }
    }

    /// The degrees of the three identities: 1 for the nonce, `K + 2` for the
    /// successors, where `K` is the number of neighbor columns, and 2 for the return.
    pub fn degrees(&self) -> (d: Vec<usize>)
        ensures
            d@ == seq![1usize, (self.trace_width() - 4) as usize, 2usize],
            self.trace_width() >= 6,
    {
        proof {
            use_type_invariant(self);
        }
        let mut d: Vec<usize> = Vec::new();
        d.push(1);
        d.push(self.trace_width - 4);
        d.push(2);
        d
    }

    /// The boundary assertions: the nonce and the first node at the first
    /// row, the last node at the last row.
    pub fn get_assertions(&self) -> (a: Vec<Assertion>)
        ensures
            self.trace_length() >= 1,
            a@ == seq![
                Assertion { column: 0, step: 0, value: self.public_inputs().nonce },
                Assertion { column: 1, step: 0, value: self.public_inputs().start },
                Assertion {
                    column: 1,
                    step: (self.trace_length() - 1) as usize,
                    value: self.public_inputs().end,
                },
            ],
    {
        proof {
            use_type_invariant(self);
        }
        let last = self.trace_length - 1;
        let mut a: Vec<Assertion> = Vec::new();
        a.push(Assertion { column: 0, step: 0, value: self.nonce });
        a.push(Assertion { column: 1, step: 0, value: self.start });
        a.push(Assertion { column: 1, step: last, value: self.end });
        a
    }

    /// Evaluates the successor identity between a row and the next.
    pub fn transition_check(current: &[u64], next: &[u64]) -> (r: u64)
        requires
            current@.len() >= 6,
            next@.len() == current@.len(),
        ensures
            r == successor_residual(current@, next@),
            r == 0 <==> (is_zero(current@[current@.len() - 3]) || is_zero(
                next@[current@.len() - 3],
            ) || in_neighbor_slots(current@, next@, (current@.len() - 6) as nat)),
    {
        proof {
            lemma_successor_identity(current@, next@);
        }
        let width = current.len();
        let valid_idx = width - 3;
        let next_jmp = next[1];
        let mut acc: u64 = 1;
        let mut c: usize = 3;
        while c < valid_idx
            invariant
                3 <= c <= valid_idx,
                valid_idx == width - 3,
                width == current@.len(),
                next@.len() == width,
                next_jmp == next@[1],
                acc == neighbor_product(current@, next@, (c - 3) as nat),
            decreases valid_idx - c,
        {
            acc = field_mul(acc, field_sub(next_jmp, current[c]));
            c += 1;
        }
        field_mul(field_mul(acc, current[valid_idx]), next[valid_idx])
    }

    /// Whether the trace meets the constraint system under the public inputs.
    pub fn accepts(trace: &TraceMatrix, inputs: PublicInputs) -> (b: bool)
        requires
            trace@[0].len() >= 6,
        ensures
            b == satisfied_by(trace@, inputs),
    {
        let length = trace.length();
        let boundary = PublicInputs::of_trace(trace);
        if boundary.nonce != inputs.nonce || boundary.start != inputs.start || boundary.end
            != inputs.end {
            return false;
        }
        let mut r: usize = 0;
        while r + 1 < length
            invariant
                r < length,
                length == trace@.len(),
                trace@[0].len() >= 6,
                rectangular(trace@, trace@[0].len()),
                forall|i: int| 0 <= i < r ==> transition_holds(#[trigger] trace@[i], trace@[i + 1]),
            decreases length - r,
        {
            let residuals = Self::evaluate_transition(trace.row(r), trace.row(r + 1));
            if residuals[0] != 0 || residuals[1] != 0 || residuals[2] != 0 {
                assert(!transition_holds(trace@[r as int], trace@[r + 1]));
                return false;
            }
            r += 1;
        }
        true
    }

    /// Evaluates the three identities between a row and the next: nonce,
    /// successor and return, in this order.
    pub fn evaluate_transition(current: &[u64], next: &[u64]) -> (result: Vec<u64>)
        requires
            current@.len() >= 6,
            next@.len() == current@.len(),
        ensures
            result@ == seq![
                nonce_residual(current@, next@),
                successor_residual(current@, next@),
                return_residual(current@, next@),
            ],
            result@[0] == 0 <==> same_element(current@[0], next@[0]),
            result@[1] == 0 <==> (is_zero(current@[current@.len() - 3]) || is_zero(
                next@[current@.len() - 3],
            ) || in_neighbor_slots(current@, next@, (current@.len() - 6) as nat)),
            result@[2] == 0 <==> (is_zero(next@[current@.len() - 2]) || same_element(
                current@[2],
                next@[1],
            )),
    {
        proof {
            lemma_nonce_identity(current@, next@);
            lemma_return_identity(current@, next@);
        }
        let length = current.len();
        let mut result: Vec<u64> = Vec::new();
        result.push(field_sub(current[0], next[0]));
        result.push(Self::transition_check(current, next));
        result.push(field_mul(field_sub(current[2], next[1]), next[length - 2]));
        result
    }

    /// Builds the trace of `path` through `cfg` under `nonce` where its
    /// width and its row count fit the machine's integers, and gives `None`
    /// where one of them does not.
    pub fn try_build_trace(path: Vec<Step>, cfg: Cfg, nonce: u32) -> (trace: Option<TraceMatrix>)
        ensures
            trace is Some <==> max_out_degree(cfg@) + 6 <= usize::MAX && path@.len()
                <= longest_path(),
            trace matches Some(t) ==> t@ == trace_of(path.deep_view(), cfg@, nonce),
    {
        if cfg.max_successors() <= usize::MAX - 6 && path.len() <= usize::MAX / 2 + 1 {
            Some(Self::build_trace(path, cfg, nonce))
        } else {
            None
        }
    }

    /// Builds the trace of `path` through `cfg` under `nonce`.
    ///
    /// Row `r` holds the nonce, the node that step `r` moves to, the top of
    /// the shadow stack after step `r`, the successors of that node padded
    /// with zeros, and the flags `is_valid`, `is_ret` and `is_call`. The rows
    /// after the last step repeat its node, its neighbors and the top of the
    /// stack, with zeros for the flags, up to the next power of two. An empty
    /// path gives one such row at node 0. The width and the row count must
    /// be among the machine's integers.
    pub fn build_trace(path: Vec<Step>, cfg: Cfg, nonce: u32) -> (trace: TraceMatrix)
        requires
            max_out_degree(cfg@) + 6 <= usize::MAX,
            path@.len() <= longest_path(),
        ensures
            trace@ == trace_of(path.deep_view(), cfg@, nonce),
            trace@.len() == row_count(path@.len()),
            rectangular(trace@, max_out_degree(cfg@) + 6),
            forall|r: int| 0 <= r < trace@.len() ==> (#[trigger] trace@[r])[0] == nonce,
            forall|r: int|
                0 <= r < path@.len() ==> is_real_row(
                    #[trigger] trace@[r],
                    path.deep_view()[r],
                    max_out_degree(cfg@) as int,
                ),
            forall|r: int|
                path@.len() <= r < trace@.len() ==> is_padding_row(
                    #[trigger] trace@[r],
                    path.deep_view(),
                    max_out_degree(cfg@) as int,
                ),
    {
        proof {
            lemma_row_count_fits(path@.len());
            lemma_rows_of_trace(path.deep_view(), cfg@, nonce);
        }
        let ghost steps = path.deep_view();
        let ghost succ = cfg@;
        let max_succ = cfg.max_successors();
        let width = max_succ + 6;
        let real_len = path.len();
        let length = round_up_to_power_of_two(if real_len >= 1 { real_len } else { 1 });

        let mut rows: Vec<Vec<u64>> = Vec::new();
        let mut sstack: Vec<u32> = Vec::new();
        let mut r: usize = 0;
        while r < length
            invariant
                r <= length,
                length == row_count(steps.len()),
                steps == path.deep_view(),
                succ == cfg@,
                real_len == path@.len(),
                max_succ == max_out_degree(succ),
                width == max_succ + 6,
                rows@.len() == r,
                forall|i: int| 0 <= i < r ==> (#[trigger] rows@[i])@ == trace_row(steps, succ, nonce, i),
                sstack@ == shadow_stack(steps, if r < real_len { r as nat } else { real_len as nat }),
            decreases length - r,
        {
            let is_real = r < real_len;
            let curr = if is_real {
                path[r].target()
            } else if real_len > 0 {
                path[real_len - 1].target()
            } else {
                0
            };
            let mut ret_flag: u64 = 0;
            let mut call_flag: u64 = 0;
            if is_real {
                match path[r].jmp_type {
                    JmpType::Call => {
                        sstack.push(path[r].return_address());
                        call_flag = 1;
                    },
                    JmpType::Ret => {
                        let _ = sstack.pop();
                        ret_flag = 1;
                    },
                    JmpType::Jump => {},
                }
            }
            assert(sstack@ == shadow_stack(steps, steps_done(steps, r as int)));
            let top = if sstack.len() > 0 {
                sstack[sstack.len() - 1]
            } else {
                0
            };

            let mut row: Vec<u64> = Vec::new();
            row.push(nonce as u64);
            row.push(curr as u64);
            row.push(top as u64);
            let neighbors = cfg.successors(curr);
            let mut i: usize = 0;
            while i < max_succ
                invariant
                    i <= max_succ,
                    max_succ + 6 <= usize::MAX,
                    neighbors@ == successors_of(succ, curr),
                    row@.len() == 3 + i,
                    row@[0] == nonce,
                    row@[1] == curr,
                    row@[2] == top,
                    forall|j: int| 0 <= j < i ==> #[trigger] row@[3 + j] == neighbor(succ, curr, j),
                decreases max_succ - i,
            {
                let val = if i < neighbors.len() {
                    neighbors[i] as u64
                } else {
                    0
                };
                row.push(val);
                i += 1;
            }
            row.push(if is_real { 1 } else { 0 });
            row.push(ret_flag);
            row.push(call_flag);
            proof {
                let expected = trace_row(steps, succ, nonce, r as int);
                assert(row@.len() == expected.len());
                assert forall|c: int| 0 <= c < row@.len() implies row@[c] == expected[c] by {
                    if 3 <= c < 3 + max_succ {
                        assert(row@[3 + (c - 3)] == neighbor(succ, curr, c - 3));
                    }
                    assert(expected[c] == trace_cell(steps, succ, nonce, r as int, c));
                }
                assert(row@ =~= expected);
            }
            rows.push(row);
            r += 1;
        }
        proof {
            assert(rows.deep_view() =~~= trace_of(steps, succ, nonce));
            crate::trace::lemma_next_power_of_two(if real_len >= 1 { real_len as nat } else { 1 });
        }
        TraceMatrix::from_checked_rows(rows, width)
    }
}

} // verus!
