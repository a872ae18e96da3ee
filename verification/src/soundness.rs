//! What the identities say: when each of them vanishes, first between any two
//! rows, then between adjacent rows of the trace of a path.

use vstd::prelude::*;
use vstd::arithmetic::div_mod::{lemma_mod_equivalence, lemma_small_mod};
use crate::air::{
    boundary_holds, neighbor_product, nonce_residual, return_residual, satisfied_by,
    successor_residual, transition_holds, PublicInputs,
};
use crate::cfg::{lemma_max_out_degree_bounds, max_out_degree, successors_of};
use crate::exe_path::{JmpType, StepView};
use crate::field::{modulus, mul_mod, reduce, sub_mod};
use crate::prime::lemma_zero_product;
use crate::trace::{
    neighbor, shadow_stack, steps_done, top_of, trace_cell, trace_of, trace_row,
};

verus! {

/// Two integers stand for the same field element.
pub open spec fn same_element(a: u64, b: u64) -> bool {
    reduce(a as int) == reduce(b as int)
}

/// An integer stands for the zero of the field.
pub open spec fn is_zero(a: u64) -> bool {
    reduce(a as int) == 0
}

/// The node of `next` stands in one of the first `n` neighbor slots of `current`.
pub open spec fn in_neighbor_slots(current: Seq<u64>, next: Seq<u64>, n: nat) -> bool {
    exists|i: int| 0 <= i < n && same_element(next[1], #[trigger] current[i + 3])
}

/// A difference is zero exactly where the two elements are the same.
pub proof fn lemma_difference_vanishes(a: u64, b: u64)
    ensures
        sub_mod(a, b) == 0 <==> same_element(a, b),
{
    lemma_mod_equivalence(a as int, b as int, modulus());
}

/// A product is zero exactly where a factor is zero.
pub proof fn lemma_product_vanishes(a: u64, b: u64)
    ensures
        mul_mod(a, b) == 0 <==> (is_zero(a) || is_zero(b)),
{
    lemma_zero_product(a as int, b as int);
}

/// The product over the neighbor slots is zero exactly where the node of the
/// next row stands in one of the slots.
pub proof fn lemma_neighbor_product_vanishes(current: Seq<u64>, next: Seq<u64>, n: nat)
    ensures
        neighbor_product(current, next, n) == 0 <==> in_neighbor_slots(current, next, n),
        neighbor_product(current, next, n) < modulus(),
    decreases n,
{
    if n > 0 {
        let before = neighbor_product(current, next, (n - 1) as nat);
        let factor = sub_mod(next[1], current[n as int + 2]);
        lemma_neighbor_product_vanishes(current, next, (n - 1) as nat);
        lemma_product_vanishes(before, factor);
        lemma_difference_vanishes(next[1], current[n as int + 2]);
        lemma_small_mod(before as nat, modulus() as nat);
        lemma_small_mod(factor as nat, modulus() as nat);
        if in_neighbor_slots(current, next, (n - 1) as nat) {
            let i = choose|i: int|
                0 <= i < n - 1 && same_element(next[1], #[trigger] current[i + 3]);
            assert(same_element(next[1], current[i + 3]));
        }
        if same_element(next[1], current[n as int + 2]) {
            assert(same_element(next[1], current[(n - 1) + 3]));
        }
        if in_neighbor_slots(current, next, n) {
            let i = choose|i: int| 0 <= i < n && same_element(next[1], #[trigger] current[i + 3]);
            if i < n - 1 {
                assert(in_neighbor_slots(current, next, (n - 1) as nat));
            } else {
                assert(current[i + 3] == current[n as int + 2]);
            }
        }
    }
}

/// The successor identity vanishes exactly where one of the two rows is no
/// valid row, or the node of the next row stands in a neighbor slot of the
/// current row.
pub proof fn lemma_successor_identity(current: Seq<u64>, next: Seq<u64>)
    requires
        current.len() >= 6,
    ensures
        successor_residual(current, next) == 0 <==> (is_zero(current[current.len() - 3]) || is_zero(
            next[current.len() - 3],
        ) || in_neighbor_slots(current, next, (current.len() - 6) as nat)),
{
    let width = current.len() as int;
    let product = neighbor_product(current, next, (width - 6) as nat);
    let gated = mul_mod(product, current[width - 3]);
    lemma_neighbor_product_vanishes(current, next, (width - 6) as nat);
    lemma_product_vanishes(product, current[width - 3]);
    lemma_product_vanishes(gated, next[width - 3]);
    lemma_small_mod(product as nat, modulus() as nat);
    lemma_small_mod(gated as nat, modulus() as nat);
}

/// The return identity vanishes exactly where the next row is no return, or
/// its node is the stack top of the current row.
pub proof fn lemma_return_identity(current: Seq<u64>, next: Seq<u64>)
    ensures
        return_residual(current, next) == 0 <==> (is_zero(next[current.len() - 2]) || same_element(
            current[2],
            next[1],
        )),
{
    let difference = sub_mod(current[2], next[1]);
    lemma_difference_vanishes(current[2], next[1]);
    lemma_product_vanishes(difference, next[current.len() - 2]);
    lemma_small_mod(difference as nat, modulus() as nat);
}

/// The nonce identity vanishes exactly where both rows hold the same nonce.
pub proof fn lemma_nonce_identity(current: Seq<u64>, next: Seq<u64>)
    ensures
        nonce_residual(current, next) == 0 <==> same_element(current[0], next[0]),
{
    lemma_difference_vanishes(current[0], next[0]);
}

/// Nodes, addresses, nonces and flags stand for themselves in the field.
pub proof fn lemma_small_values_are_elements(a: u64, b: u64)
    requires
        a <= u32::MAX,
        b <= u32::MAX,
    ensures
        same_element(a, b) <==> a == b,
        is_zero(a) <==> a == 0,
{
    lemma_small_mod(a as nat, modulus() as nat);
    lemma_small_mod(b as nat, modulus() as nat);
}

/// The node of row `r + 1` is a successor of the node of row `r`, or it is 0
/// and row `r` has a neighbor slot left empty.
pub open spec fn follows_or_hits_empty_slot(path: Seq<StepView>, succ: Seq<Seq<u32>>, r: int) -> bool {
    let here = successors_of(succ, path[r].target());
    let there = path[r + 1].target();
    here.contains(there) || (there == 0 && here.len() < max_out_degree(succ))
}

/// Between two real rows of a trace the successor identity vanishes exactly
/// where the next node stands in a neighbor slot of the current row: it is a
/// successor of the current node, or it is 0 and a slot was left empty.
pub proof fn lemma_successor_identity_on_trace(
    path: Seq<StepView>,
    succ: Seq<Seq<u32>>,
    nonce: u32,
    r: int,
)
    requires
        0 <= r,
        r + 1 < path.len(),
    ensures
        successor_residual(trace_row(path, succ, nonce, r), trace_row(path, succ, nonce, r + 1))
            == 0 <==> follows_or_hits_empty_slot(path, succ, r),
{
    let current = trace_row(path, succ, nonce, r);
    let next = trace_row(path, succ, nonce, r + 1);
    let k = max_out_degree(succ) as int;
    let node = path[r].target();
    let there = path[r + 1].target();
    let here = successors_of(succ, node);
    lemma_successor_identity(current, next);
    assert(current[k + 3] == 1 && next[k + 3] == 1);
    lemma_small_values_are_elements(1, 1);
    assert(next[1] == there);
    if node < succ.len() {
        lemma_max_out_degree_bounds(succ, node as int);
    }
    assert forall|i: int| 0 <= i < k implies (same_element(next[1], #[trigger] current[i + 3]) <==> there
        == neighbor(succ, node, i)) by {
        assert(current[i + 3] == trace_cell(path, succ, nonce, r, i + 3));
        lemma_small_values_are_elements(next[1], current[i + 3]);
    }
    if in_neighbor_slots(current, next, k as nat) {
        let i = choose|i: int| 0 <= i < k && same_element(next[1], #[trigger] current[i + 3]);
        if i < here.len() {
            assert(here[i] == there);
        }
    }
    if here.contains(there) {
        let i = choose|i: int| 0 <= i < here.len() && here[i] == there;
        assert(same_element(next[1], current[i + 3]));
    }
    if there == 0 && here.len() < k {
        assert(same_element(next[1], current[here.len() as int + 3]));
    }
}

/// Reachability: between two real rows of a trace the successor identity
/// vanishes exactly where the next node is a successor of the current node.
/// This leaves out the one case in which a zero that pads the neighbor slots
/// is taken for node 0: a step to node 0, which is no successor, from a node
/// with fewer successors than there are slots.
pub proof fn lemma_reachability(path: Seq<StepView>, succ: Seq<Seq<u32>>, nonce: u32, r: int)
    requires
        0 <= r,
        r + 1 < path.len(),
        !(path[r + 1].target() == 0 && successors_of(succ, path[r].target()).len() < max_out_degree(
            succ,
        ) && !successors_of(succ, path[r].target()).contains(0)),
    ensures
        successor_residual(trace_row(path, succ, nonce, r), trace_row(path, succ, nonce, r + 1))
            == 0 <==> successors_of(succ, path[r].target()).contains(path[r + 1].target()),
{
    lemma_successor_identity_on_trace(path, succ, nonce, r);
}

/// Where one of two adjacent rows is padding, the successor identity vanishes.
pub proof fn lemma_successor_identity_on_padding(
    path: Seq<StepView>,
    succ: Seq<Seq<u32>>,
    nonce: u32,
    r: int,
)
    requires
        0 <= r,
        r + 1 >= path.len(),
    ensures
        successor_residual(trace_row(path, succ, nonce, r), trace_row(path, succ, nonce, r + 1))
            == 0,
{
    let current = trace_row(path, succ, nonce, r);
    let next = trace_row(path, succ, nonce, r + 1);
    let k = max_out_degree(succ) as int;
    lemma_successor_identity(current, next);
    assert(next[k + 3] == 0);
    lemma_small_values_are_elements(0, 0);
}

/// Return discipline: between two adjacent rows of a trace the return
/// identity vanishes exactly where the next row is no real return, or it
/// returns to the address on top of the shadow stack after the current row.
pub proof fn lemma_return_identity_on_trace(
    path: Seq<StepView>,
    succ: Seq<Seq<u32>>,
    nonce: u32,
    r: int,
)
    requires
        0 <= r,
    ensures
        return_residual(trace_row(path, succ, nonce, r), trace_row(path, succ, nonce, r + 1)) == 0
            <==> (!(r + 1 < path.len() && path[r + 1].jmp_type == JmpType::Ret) || path[r
            + 1].target() == top_of(shadow_stack(path, steps_done(path, r)))),
{
    let current = trace_row(path, succ, nonce, r);
    let next = trace_row(path, succ, nonce, r + 1);
    let k = max_out_degree(succ) as int;
    lemma_return_identity(current, next);
    assert(next[k + 4] == trace_cell(path, succ, nonce, r + 1, k + 4));
    lemma_small_values_are_elements(next[k + 4], next[k + 4]);
    lemma_small_values_are_elements(current[2], next[1]);
}

/// Between any two adjacent rows of a trace the nonce identity vanishes.
pub proof fn lemma_nonce_identity_on_trace(
    path: Seq<StepView>,
    succ: Seq<Seq<u32>>,
    nonce: u32,
    r: int,
)
    requires
        0 <= r,
    ensures
        nonce_residual(trace_row(path, succ, nonce, r), trace_row(path, succ, nonce, r + 1)) == 0,
{
    lemma_nonce_identity(
        trace_row(path, succ, nonce, r),
        trace_row(path, succ, nonce, r + 1),
    );
}

/// The boundary assertions hold of the trace of a path that is not empty,
/// for the target of its first step, the target of its last step and the nonce.
pub proof fn lemma_boundary_of_trace(path: Seq<StepView>, succ: Seq<Seq<u32>>, nonce: u32)
    requires
        path.len() > 0,
    ensures
        boundary_holds(trace_of(path, succ, nonce), inputs_of(path, nonce)),
{
    crate::trace::lemma_trace_shape(path, succ, nonce);
}

/// Every step but the first moves to a successor of the node before it.
pub open spec fn follows_edges(path: Seq<StepView>, succ: Seq<Seq<u32>>) -> bool {
    forall|r: int|
        0 <= r && r + 1 < path.len() ==> successors_of(succ, #[trigger] path[r].target()).contains(
            path[r + 1].target(),
        )
}

/// Every return but one at the first step goes to the address on top of the
/// shadow stack as the steps before it left it.
pub open spec fn returns_match_calls(path: Seq<StepView>) -> bool {
    forall|r: int|
        0 <= r && r + 1 < path.len() && (#[trigger] path[r + 1]).jmp_type == JmpType::Ret ==> path[r
            + 1].target() == top_of(shadow_stack(path, (r + 1) as nat))
}

/// All three identities vanish between the rows `r` and `r + 1` of a trace.
pub open spec fn identities_vanish(path: Seq<StepView>, succ: Seq<Seq<u32>>, nonce: u32, r: int) -> bool {
    transition_holds(trace_row(path, succ, nonce, r), trace_row(path, succ, nonce, r + 1))
}

/// Completeness: on the trace of a path that follows the edges of the graph
/// and returns where its calls came from, all three identities vanish
/// between any two adjacent rows.
pub proof fn lemma_valid_path_is_accepted(
    path: Seq<StepView>,
    succ: Seq<Seq<u32>>,
    nonce: u32,
    r: int,
)
    requires
        follows_edges(path, succ),
        returns_match_calls(path),
        0 <= r,
    ensures
        identities_vanish(path, succ, nonce, r),
{
    lemma_nonce_identity_on_trace(path, succ, nonce, r);
    lemma_return_identity_on_trace(path, succ, nonce, r);
    if r + 1 < path.len() {
        lemma_successor_identity_on_trace(path, succ, nonce, r);
        assert(successors_of(succ, path[r].target()).contains(path[r + 1].target()));
        assert(path[r + 1].jmp_type == JmpType::Ret ==> path[r + 1].target() == top_of(
            shadow_stack(path, (r + 1) as nat),
        ));
    } else {
        lemma_successor_identity_on_padding(path, succ, nonce, r);
    }
}

/// No step moves to node 0 from a node that has a neighbor slot left empty
/// and not 0 among its successors.
pub open spec fn avoids_empty_slots(path: Seq<StepView>, succ: Seq<Seq<u32>>) -> bool {
    forall|r: int|
        0 <= r && r + 1 < path.len() && successors_of(succ, #[trigger] path[r].target()).len()
            < max_out_degree(succ) && !successors_of(succ, path[r].target()).contains(0) ==> path[r
            + 1].target() != 0
}

/// Soundness: where all three identities vanish between any two adjacent
/// rows of the trace of a path, and no step is taken for a successor only
/// because it moves to node 0, the path follows the edges of the graph and
/// returns where its calls came from.
pub proof fn lemma_accepted_path_is_valid(path: Seq<StepView>, succ: Seq<Seq<u32>>, nonce: u32)
    requires
        avoids_empty_slots(path, succ),
        forall|r: int| 0 <= r && r + 1 < path.len() ==> identities_vanish(path, succ, nonce, r),
    ensures
        follows_edges(path, succ),
        returns_match_calls(path),
{
    assert forall|r: int| 0 <= r && r + 1 < path.len() implies successors_of(
        succ,
        #[trigger] path[r].target(),
    ).contains(path[r + 1].target()) by {
        assert(identities_vanish(path, succ, nonce, r));
        lemma_successor_identity_on_trace(path, succ, nonce, r);
    }
    assert forall|r: int|
        0 <= r && r + 1 < path.len() && (#[trigger] path[r + 1]).jmp_type
            == JmpType::Ret implies path[r + 1].target() == top_of(
        shadow_stack(path, (r + 1) as nat),
    ) by {
        assert(identities_vanish(path, succ, nonce, r));
        lemma_return_identity_on_trace(path, succ, nonce, r);
    }
}

/// The public inputs that the trace of a path asserts: the target of its
/// first step, the target of its last step and the nonce.
pub open spec fn inputs_of(path: Seq<StepView>, nonce: u32) -> PublicInputs {
    PublicInputs {
        start: path[0].target() as u64,
        end: path.last().target() as u64,
        nonce: nonce as u64,
    }
}

/// The trace of a path that is not empty, follows the edges of the graph and
/// returns where its calls came from meets the constraint system under the
/// public inputs that it asserts.
pub proof fn lemma_trace_of_valid_path_is_satisfied(
    path: Seq<StepView>,
    succ: Seq<Seq<u32>>,
    nonce: u32,
)
    requires
        path.len() > 0,
        follows_edges(path, succ),
        returns_match_calls(path),
    ensures
        satisfied_by(trace_of(path, succ, nonce), inputs_of(path, nonce)),
{
    let rows = trace_of(path, succ, nonce);
    lemma_boundary_of_trace(path, succ, nonce);
    assert forall|r: int| 0 <= r && r + 1 < rows.len() implies transition_holds(
        #[trigger] rows[r],
        rows[r + 1],
    ) by {
        lemma_valid_path_is_accepted(path, succ, nonce, r);
    }
}

/// Where the trace of a path meets the constraint system, and no step is
/// taken for a successor only because it moves to node 0, the path follows
/// the edges of the graph and returns where its calls came from.
pub proof fn lemma_satisfied_trace_has_valid_path(
    path: Seq<StepView>,
    succ: Seq<Seq<u32>>,
    nonce: u32,
    inputs: PublicInputs,
)
    requires
        avoids_empty_slots(path, succ),
        satisfied_by(trace_of(path, succ, nonce), inputs),
    ensures
        follows_edges(path, succ),
        returns_match_calls(path),
{
    let rows = trace_of(path, succ, nonce);
    crate::trace::lemma_trace_shape(path, succ, nonce);
    assert forall|r: int| 0 <= r && r + 1 < path.len() implies identities_vanish(
        path,
        succ,
        nonce,
        r,
    ) by {
        assert(transition_holds(rows[r], rows[r + 1]));
    }
    lemma_accepted_path_is_valid(path, succ, nonce);
}

/// Between two adjacent rows of a trace the return identity evaluates to the
/// difference between the top of the shadow stack after the current row and
/// the node of the next row where the next row is a real return, and to 0
/// elsewhere. So after `call A B; jump A` a return to `X` leaves `B - X`.
pub proof fn lemma_return_residual_on_trace(
    path: Seq<StepView>,
    succ: Seq<Seq<u32>>,
    nonce: u32,
    r: int,
)
    requires
        0 <= r,
    ensures
        return_residual(trace_row(path, succ, nonce, r), trace_row(path, succ, nonce, r + 1)) == if r
            + 1 < path.len() && path[r + 1].jmp_type == JmpType::Ret {
            sub_mod(top_of(shadow_stack(path, steps_done(path, r))) as u64, path[r + 1].target() as u64)
        } else {
            0
        },
{
    let current = trace_row(path, succ, nonce, r);
    let next = trace_row(path, succ, nonce, r + 1);
    let k = max_out_degree(succ) as int;
    let difference = sub_mod(current[2], next[1]);
    assert(next[k + 4] == trace_cell(path, succ, nonce, r + 1, k + 4));
    lemma_small_mod(difference as nat, modulus() as nat);
    assert(difference * 1 == difference) by (nonlinear_arith);
    assert(difference * 0 == 0) by (nonlinear_arith);
}

} // verus!
