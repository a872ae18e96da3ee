//! The trace matrix: one row per step of an execution path, padded to a power
//! of two, over the columns
//! `[nonce, current, stack_top, neighbor_0 .. neighbor_{K-1}, is_valid, is_ret, is_call]`,
//! where `K` is the largest out-degree of the graph.
//!
//! A cell holds a field element by its canonical integer. Every cell of a
//! trace is 0, 1, the nonce, a node or an address, all of which are below
//! `2^32` and so stand for themselves in the field.

use vstd::prelude::*;
use vstd::arithmetic::power2::{lemma2_to64, lemma2_to64_rest, lemma_pow2_unfold, pow2};
use crate::cfg::{max_out_degree, successors_of};
use crate::exe_path::{JmpType, StepView};
use crate::lists::copy_lists;

verus! {

/// The number of columns of a trace over a graph of largest out-degree `k`.
pub open spec fn trace_width(k: nat) -> nat {
    k + 6
}

/// The column of the `is_valid` flag in a row of `width` columns.
pub open spec fn valid_column(width: int) -> int {
    width - 3
}

/// The column of the `is_ret` flag in a row of `width` columns.
pub open spec fn ret_column(width: int) -> int {
    width - 2
}

/// The column of the `is_call` flag in a row of `width` columns.
pub open spec fn call_column(width: int) -> int {
    width - 1
}

/// What a column of the trace holds.
#[derive(Debug, Clone, Copy, PartialEq, Eq, Structural)]
pub enum Column {
    Nonce,
    Current,
    StackTop,
    /// The neighbor slot of the given number, counted from 0.
    Neighbor(usize),
    Valid,
    Ret,
    Call,
}

/// What column `c` holds in a row of `width` columns.
pub open spec fn column_kind(width: int, c: int) -> Column {
    if c == 0 {
        Column::Nonce
    } else if c == 1 {
        Column::Current
    } else if c == 2 {
        Column::StackTop
    } else if c < valid_column(width) {
        Column::Neighbor((c - 3) as usize)
    } else if c == valid_column(width) {
        Column::Valid
    } else if c == ret_column(width) {
        Column::Ret
    } else {
        Column::Call
    }
}

/// What column `c` holds in a row of `width` columns.
pub fn column_at(width: usize, c: usize) -> (kind: Column)
    requires
        width >= 6,
        c < width,
    ensures
        kind == column_kind(width as int, c as int),
{
    if c == 0 {
        Column::Nonce
    } else if c == 1 {
        Column::Current
    } else if c == 2 {
        Column::StackTop
    } else if c < width - 3 {
        Column::Neighbor(c - 3)
    } else if c == width - 3 {
        Column::Valid
    } else if c == width - 2 {
        Column::Ret
    } else {
        Column::Call
    }
}

/// Whether `n` is one of 1, 2, 4, 8 and so on.
pub open spec fn is_power_of_two(n: nat) -> bool
    decreases n,
{
    n == 1 || (n > 1 && n % 2 == 0 && is_power_of_two(n / 2))
}

/// The least power of two that is at least `n`.
pub open spec fn next_power_of_two(n: nat) -> nat
    decreases n,
{
    if n <= 1 {
        1
    } else {
        2 * next_power_of_two((n + 1) / 2)
    }
}

/// The number of rows of the trace of a path of `real_len` steps.
pub open spec fn row_count(real_len: nat) -> nat {
    next_power_of_two(if real_len >= 1 { real_len } else { 1 })
}

/// The shadow stack after the first `n` steps of `path`: a call pushes its
/// return address, a return pops unless the stack is empty, a jump leaves the
/// stack as it is.
pub open spec fn shadow_stack(path: Seq<StepView>, n: nat) -> Seq<u32>
    decreases n,
{
    if n == 0 {
        Seq::empty()
    } else {
        let before = shadow_stack(path, (n - 1) as nat);
        let step = path[n - 1];
        match step.jmp_type {
            JmpType::Call => before.push(step.return_address()),
            JmpType::Ret => if before.len() > 0 {
                before.drop_last()
            } else {
                before
            },
            JmpType::Jump => before,
        }
    }
}

/// The top of a stack, or 0 where it is empty.
pub open spec fn top_of(stack: Seq<u32>) -> u32 {
    if stack.len() > 0 {
        stack.last()
    } else {
        0
    }
}

/// The number of steps of `path` that have taken effect once row `r` is written.
pub open spec fn steps_done(path: Seq<StepView>, r: int) -> nat {
    if r < path.len() {
        (r + 1) as nat
    } else {
        path.len()
    }
}

/// The node of row `r`: the target of step `r`; on a padding row the target
/// of the last step; 0 where the path is empty.
pub open spec fn current_node(path: Seq<StepView>, r: int) -> u32 {
    if r < path.len() {
        path[r].target()
    } else if path.len() > 0 {
        path.last().target()
    } else {
        0
    }
}

/// The `i`-th successor of `node`, or 0 where `node` has fewer successors.
pub open spec fn neighbor(succ: Seq<Seq<u32>>, node: u32, i: int) -> u32 {
    let list = successors_of(succ, node);
    if 0 <= i < list.len() {
        list[i]
    } else {
        0
    }
}

/// A flag as a cell: 1 where it is set, else 0.
pub open spec fn flag(b: bool) -> u64 {
    if b {
        1
    } else {
        0
    }
}

/// The cell at row `r` and column `c` of the trace of `path` through the
/// graph `succ` under `nonce`. A row below the length of the path is real, the
/// others are padding: they repeat the last node with its neighbors, and keep
/// the top of the stack, with zeros for the flags.
pub open spec fn trace_cell(path: Seq<StepView>, succ: Seq<Seq<u32>>, nonce: u32, r: int, c: int) -> u64 {
    let k = max_out_degree(succ) as int;
    let is_real = r < path.len();
    if c == 0 {
        nonce as u64
    } else if c == 1 {
        current_node(path, r) as u64
    } else if c == 2 {
        top_of(shadow_stack(path, steps_done(path, r))) as u64
    } else if c < 3 + k {
        neighbor(succ, current_node(path, r), c - 3) as u64
    } else if c == 3 + k {
        flag(is_real)
    } else if c == 4 + k {
        flag(is_real && path[r].jmp_type == JmpType::Ret)
    } else {
        flag(is_real && path[r].jmp_type == JmpType::Call)
    }
}

/// Row `r` of the trace.
pub open spec fn trace_row(path: Seq<StepView>, succ: Seq<Seq<u32>>, nonce: u32, r: int) -> Seq<u64> {
    Seq::new(trace_width(max_out_degree(succ)), |c: int| trace_cell(path, succ, nonce, r, c))
}

/// The trace of `path` through the graph `succ` under `nonce`, by rows.
pub open spec fn trace_of(path: Seq<StepView>, succ: Seq<Seq<u32>>, nonce: u32) -> Seq<Seq<u64>> {
    Seq::new(row_count(path.len()), |r: int| trace_row(path, succ, nonce, r))
}

/// `next_power_of_two(n)` is a power of two, at least `n` and below `2 * n`.
pub proof fn lemma_next_power_of_two(n: nat)
    ensures
        is_power_of_two(next_power_of_two(n)),
        n <= next_power_of_two(n),
        n >= 1 ==> next_power_of_two(n) < 2 * n,
    decreases n,
{
    if n > 1 {
        lemma_next_power_of_two((n + 1) / 2);
    }
}

/// No power of two lies below `next_power_of_two(n)` and at or above `n`.
pub proof fn lemma_next_power_of_two_least(n: nat, q: nat)
    requires
        is_power_of_two(q),
        n <= q,
    ensures
        next_power_of_two(n) <= q,
    decreases n,
{
    if n > 1 {
        lemma_next_power_of_two_least((n + 1) / 2, q / 2);
    }
}

/// Between a power of two and its double lies no other power of two.
pub proof fn lemma_power_of_two_gap(p: nat, q: nat)
    requires
        is_power_of_two(p),
        is_power_of_two(q),
        p < q,
    ensures
        2 * p <= q,
    decreases p,
{
    if p > 1 {
        lemma_power_of_two_gap(p / 2, q / 2);
    }
}

/// Every power of 2 is a power of two.
pub proof fn lemma_pow2_is_power_of_two(e: nat)
    ensures
        is_power_of_two(pow2(e)),
    decreases e,
{
    lemma2_to64();
    if e > 0 {
        lemma_pow2_unfold(e);
        lemma_pow2_is_power_of_two((e - 1) as nat);
    }
}

/// The largest path whose trace has a row count among the machine's integers.
pub open spec fn longest_path() -> nat {
    (usize::MAX / 2 + 1) as nat
}

/// The row count of a trace is one of the machine's integers exactly where
/// the path is no longer than half their range.
pub proof fn lemma_row_count_fits(real_len: nat)
    ensures
        row_count(real_len) <= usize::MAX <==> real_len <= longest_path(),
{
    let wanted = if real_len >= 1 {
        real_len
    } else {
        1
    };
    lemma2_to64();
    lemma2_to64_rest();
    lemma_pow2_is_power_of_two(31);
    lemma_pow2_is_power_of_two(63);
    assert(usize::MAX == 0xFFFF_FFFF || usize::MAX == 0xFFFF_FFFF_FFFF_FFFF);
    assert(is_power_of_two(longest_path()));
    lemma_next_power_of_two(wanted);
    if real_len <= longest_path() {
        lemma_next_power_of_two_least(wanted, longest_path());
    } else {
        lemma_power_of_two_gap(longest_path(), next_power_of_two(wanted));
    }
}

/// A row of `k` neighbor slots is the real row of `step`: it holds the
/// target of the step, `is_valid` is 1, `is_ret` is 1 exactly for a return
/// and `is_call` is 1 exactly for a call.
pub open spec fn is_real_row(row: Seq<u64>, step: StepView, k: int) -> bool {
    &&& row[1] == step.target()
    &&& row[k + 3] == 1
    &&& row[k + 4] == flag(step.jmp_type == JmpType::Ret)
    &&& row[k + 5] == flag(step.jmp_type == JmpType::Call)
}

/// A row of `k` neighbor slots is a padding row behind `path`: all three
/// flags are 0, and it holds the target of the last step, or 0 where there
/// is no step.
pub open spec fn is_padding_row(row: Seq<u64>, path: Seq<StepView>, k: int) -> bool {
    &&& row[1] == if path.len() > 0 {
        path.last().target()
    } else {
        0
    }
    &&& row[k + 3] == 0
    &&& row[k + 4] == 0
    &&& row[k + 5] == 0
}

/// Every row of a trace holds the nonce; the rows of the steps are real rows
/// and the rows behind them are padding rows.
pub proof fn lemma_rows_of_trace(path: Seq<StepView>, succ: Seq<Seq<u32>>, nonce: u32)
    ensures
        trace_of(path, succ, nonce).len() == row_count(path.len()),
        rectangular(trace_of(path, succ, nonce), max_out_degree(succ) + 6),
        forall|r: int|
            0 <= r < row_count(path.len()) ==> (#[trigger] trace_of(path, succ, nonce)[r])[0]
                == nonce,
        forall|r: int|
            0 <= r < path.len() ==> is_real_row(
                #[trigger] trace_of(path, succ, nonce)[r],
                path[r],
                max_out_degree(succ) as int,
            ),
        forall|r: int|
            path.len() <= r < row_count(path.len()) ==> is_padding_row(
                #[trigger] trace_of(path, succ, nonce)[r],
                path,
                max_out_degree(succ) as int,
            ),
{
    lemma_trace_shape(path, succ, nonce);
}

/// The trace has as many rows as the least power of two that is at least the
/// length of the path, and at least one; every row has six columns more than
/// the largest out-degree.
pub proof fn lemma_trace_shape(path: Seq<StepView>, succ: Seq<Seq<u32>>, nonce: u32)
    ensures
        trace_of(path, succ, nonce).len() == row_count(path.len()),
        is_power_of_two(row_count(path.len())),
        row_count(path.len()) >= 1,
        path.len() <= row_count(path.len()),
        path.len() >= 1 ==> row_count(path.len()) < 2 * path.len(),
        rectangular(trace_of(path, succ, nonce), trace_width(max_out_degree(succ))),
{
    lemma_next_power_of_two(if path.len() >= 1 { path.len() } else { 1 });
}

/// The trace is a function of the path, the graph and the nonce: two
/// matrices that were built from the same three hold the same cells.
pub proof fn lemma_trace_is_determined(
    first: TraceMatrix,
    second: TraceMatrix,
    path: Seq<StepView>,
    succ: Seq<Seq<u32>>,
    nonce: u32,
)
    requires
        first@ == trace_of(path, succ, nonce),
        second@ == trace_of(path, succ, nonce),
    ensures
        first@ == second@,
{
}

/// Every row holds the nonce in its first column.
pub proof fn lemma_nonce_column(path: Seq<StepView>, succ: Seq<Seq<u32>>, nonce: u32, r: int)
    requires
        0 <= r < row_count(path.len()),
    ensures
        trace_of(path, succ, nonce)[r][0] == nonce,
{
}

/// A real row holds the target of its step, the successors of that target
/// padded with zeros, and the flags of its step: `is_valid` is 1, and of
/// `is_ret` and `is_call` at most one is 1.
pub proof fn lemma_real_row(path: Seq<StepView>, succ: Seq<Seq<u32>>, nonce: u32, r: int)
    requires
        0 <= r < path.len(),
    ensures
        ({
            let row = trace_of(path, succ, nonce)[r];
            let k = max_out_degree(succ) as int;
            &&& row[1] == path[r].target()
            &&& row[2] == top_of(shadow_stack(path, (r + 1) as nat))
            &&& forall|i: int| 0 <= i < k ==> #[trigger] row[i + 3] == neighbor(succ, path[r].target(), i)
            &&& row[k + 3] == 1
            &&& row[k + 4] == flag(path[r].jmp_type == JmpType::Ret)
            &&& row[k + 5] == flag(path[r].jmp_type == JmpType::Call)
            &&& !(row[k + 4] == 1 && row[k + 5] == 1)
        }),
{
    lemma_trace_shape(path, succ, nonce);
}

/// A padding row repeats the node of the last step with its neighbors, keeps
/// the top of the stack and holds 0 in all three flags.
pub proof fn lemma_padding_row(path: Seq<StepView>, succ: Seq<Seq<u32>>, nonce: u32, r: int)
    requires
        path.len() > 0,
        path.len() <= r < row_count(path.len()),
    ensures
        ({
            let row = trace_of(path, succ, nonce)[r];
            let k = max_out_degree(succ) as int;
            &&& row[1] == path.last().target()
            &&& row[2] == top_of(shadow_stack(path, path.len()))
            &&& forall|i: int|
                0 <= i < k ==> #[trigger] row[i + 3] == neighbor(succ, path.last().target(), i)
            &&& row[k + 3] == 0
            &&& row[k + 4] == 0
            &&& row[k + 5] == 0
        }),
{
}

/// The trace of the empty path is one padding row at node 0.
pub proof fn lemma_empty_path_trace(succ: Seq<Seq<u32>>, nonce: u32)
    ensures
        ({
            let rows = trace_of(Seq::empty(), succ, nonce);
            let k = max_out_degree(succ) as int;
            &&& rows.len() == 1
            &&& rows[0][0] == nonce
            &&& rows[0][1] == 0
            &&& rows[0][k + 3] == 0
        }),
{
}

/// The least power of two that is at least `n`.
pub fn round_up_to_power_of_two(n: usize) -> (p: usize)
    requires
        next_power_of_two(n as nat) <= usize::MAX,
    ensures
        p == next_power_of_two(n as nat),
{
    let mut p: usize = 1;
    proof {
        lemma_next_power_of_two(n as nat);
    }
    while p < n
        invariant
            is_power_of_two(p as nat),
            is_power_of_two(next_power_of_two(n as nat)),
            n <= next_power_of_two(n as nat) <= usize::MAX,
            p <= next_power_of_two(n as nat),
        decreases next_power_of_two(n as nat) - p,
    {
        proof {
            lemma_power_of_two_gap(p as nat, next_power_of_two(n as nat));
        }
        p = p * 2;
    }
    proof {
        lemma_next_power_of_two_least(n as nat, p as nat);
    }
    p
}

/// The number of rows of the trace of a path of `real_len` steps, where that
/// number fits the machine's integers.
pub fn checked_row_count(real_len: usize) -> (rows: Option<usize>)
    ensures
        rows is Some <==> real_len <= longest_path(),
        rows matches Some(n) ==> n == row_count(real_len as nat),
{
    proof {
        lemma_row_count_fits(real_len as nat);
    }
    if real_len <= usize::MAX / 2 + 1 {
        Some(round_up_to_power_of_two(if real_len >= 1 { real_len } else { 1 }))
    } else {
        None
    }
}

/// A rectangular table of field elements, held by rows. It takes any number
/// of columns and any number of rows from one on; a proving backend may ask
/// for more of the table that it is copied into.
#[derive(Debug, PartialEq, Eq)]
pub struct TraceMatrix {
    rows: Vec<Vec<u64>>,
    width: usize,
}

impl View for TraceMatrix {
    type V = Seq<Seq<u64>>;

    /// The rows of the matrix.
    closed spec fn view(&self) -> Seq<Seq<u64>> {
        self.rows.deep_view()
    }
}

/// All rows of `rows` have `width` cells.
pub open spec fn rectangular(rows: Seq<Seq<u64>>, width: nat) -> bool {
    forall|r: int| 0 <= r < rows.len() ==> (#[trigger] rows[r]).len() == width
}

impl Clone for TraceMatrix {
    fn clone(&self) -> (copy: TraceMatrix)
        ensures
            copy@ == self@,
    {
        proof {
            use_type_invariant(self);
        }
        let rows = copy_lists(&self.rows);
        proof {
            assert(rows.deep_view() =~~= self.rows.deep_view());
        }
        TraceMatrix { rows, width: self.width }
    }
}

impl TraceMatrix {
    #[verifier::type_invariant]
    spec fn well_formed(&self) -> bool {
        &&& self.rows@.len() > 0
        &&& forall|r: int| 0 <= r < self.rows@.len() ==> (#[trigger] self.rows@[r])@.len() == self.width
    }

    /// Makes a matrix of the given rows, which must be at least one and all of one width.
    pub fn from_rows(rows: Vec<Vec<u64>>, width: usize) -> (m: Option<TraceMatrix>)
        ensures
            m is Some <==> rows@.len() > 0 && rectangular(rows.deep_view(), width as nat),
            m matches Some(t) ==> t@ == rows.deep_view(),
    {
        if rows.len() == 0 {
            return None;
        }
        let mut r: usize = 0;
        while r < rows.len()
            invariant
                r <= rows.len(),
                forall|i: int| 0 <= i < r ==> (#[trigger] rows@[i])@.len() == width,
            decreases rows.len() - r,
        {
            if rows[r].len() != width {
                proof {
                    assert(rows.deep_view()[r as int].len() != width);
                }
                return None;
            }
            r += 1;
        }
        proof {
            assert forall|i: int| 0 <= i < rows.deep_view().len() implies (#[trigger] rows.deep_view()[i]).len()
                == width by {
                assert(rows@[i]@.len() == width);
            }
        }
        Some(TraceMatrix { rows, width })
    }

    /// Makes a matrix of rows that are known to be at least one and all of one width.
    pub(crate) fn from_checked_rows(rows: Vec<Vec<u64>>, width: usize) -> (m: TraceMatrix)
        requires
            rows@.len() > 0,
            forall|r: int| 0 <= r < rows@.len() ==> (#[trigger] rows@[r])@.len() == width,
        ensures
            m@ == rows.deep_view(),
    {
        TraceMatrix { rows, width }
    }

    /// The number of columns.
    pub fn width(&self) -> (w: usize)
        ensures
            self@.len() > 0,
            w == self@[0].len(),
            rectangular(self@, w as nat),
    {
        proof {
            use_type_invariant(self);
            assert forall|r: int| 0 <= r < self@.len() implies (#[trigger] self@[r]).len() == self.width by {
                assert(self.rows@[r]@.len() == self.width);
            }
        }
        self.width
    }

    /// The number of rows, which is at least one.
    pub fn length(&self) -> (n: usize)
        ensures
            n == self@.len(),
            n > 0,
            rectangular(self@, self@[0].len()),
    {
        proof {
            use_type_invariant(self);
            assert forall|r: int| 0 <= r < self@.len() implies (#[trigger] self@[r]).len() == self@[0].len() by {
                assert(self.rows@[r]@.len() == self.width);
                assert(self.rows@[0]@.len() == self.width);
            }
        }
        self.rows.len()
    }

    /// The cell at the given column and row.
    pub fn get(&self, column: usize, step: usize) -> (v: u64)
        requires
            step < self@.len(),
            column < self@[step as int].len(),
        ensures
            v == self@[step as int][column as int],
    {
        proof {
            use_type_invariant(self);
        }
        self.rows[step][column]
    }

    /// The row at `step`.
    pub fn row(&self, step: usize) -> (cells: &[u64])
        requires
            step < self@.len(),
        ensures
            cells@ == self@[step as int],
    {
        proof {
            use_type_invariant(self);
            assert(self.rows@[step as int].deep_view() =~= self.rows@[step as int]@);
        }
        self.rows[step].as_slice()
    }
}

} // verus!
