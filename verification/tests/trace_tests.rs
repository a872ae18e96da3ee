use starkra::air::{Assertion, MissingPublicInput, PublicInputs, StarkraAir};
use starkra::cfg::Cfg;
use starkra::exe_path::{parse_execution_path, JmpType, Step};
use starkra::field::MODULUS;
use starkra::trace::{
    checked_row_count, column_at, round_up_to_power_of_two, Column, TraceMatrix,
};

fn call(target: u32, return_address: u32) -> Step {
    Step { jmp_type: JmpType::Call, addrs: vec![target, return_address] }
}

fn jump(target: u32) -> Step {
    Step { jmp_type: JmpType::Jump, addrs: vec![target] }
}

fn ret(target: u32) -> Step {
    Step { jmp_type: JmpType::Ret, addrs: vec![target] }
}

fn line_graph() -> Cfg {
    Cfg::from_adjacency(vec![(0, vec![1]), (1, vec![2])])
}

fn rows(trace: &TraceMatrix) -> Vec<Vec<u64>> {
    (0..trace.length()).map(|r| trace.row(r).to_vec()).collect()
}

fn residuals(trace: &TraceMatrix, r: usize) -> Vec<u64> {
    StarkraAir::evaluate_transition(trace.row(r), trace.row(r + 1))
}

#[test]
fn boundary_rows_of_a_short_path() {
    let (path, first, last) =
        parse_execution_path("initial_node=0\njump 1\njump 2\nfinal_node=2\n").unwrap();
    assert_eq!(first, Some(0));
    assert_eq!(last, Some(2));
    let trace = StarkraAir::build_trace(path, line_graph(), 7);
    assert_eq!(trace.width(), 7);
    assert_eq!(trace.length(), 4);
    assert_eq!(trace.get(0, 0), 7);
    assert_eq!(trace.get(1, 0), 0);
    assert_eq!(trace.get(1, 2), 2);
    assert_eq!(
        rows(&trace),
        vec![
            vec![7, 0, 0, 1, 1, 0, 0],
            vec![7, 1, 0, 2, 1, 0, 0],
            vec![7, 2, 0, 0, 1, 0, 0],
            vec![7, 2, 0, 0, 0, 0, 0],
        ]
    );
    let inputs = PublicInputs::of_trace(&trace);
    assert_eq!(inputs, PublicInputs { start: 0, end: 2, nonce: 7 });
    for r in 0..3 {
        assert_eq!(residuals(&trace, r), vec![0, 0, 0]);
    }
}

#[test]
fn step_to_a_node_that_is_no_successor_is_rejected() {
    let (path, _, _) = parse_execution_path("initial_node=0\njump 1\njump 2\nfinal_node=2\n").unwrap();
    let good = StarkraAir::build_trace(path, line_graph(), 7);
    let (path, _, _) = parse_execution_path("initial_node=0\njump 1\njump 5\nfinal_node=2\n").unwrap();
    let bad = StarkraAir::build_trace(path, line_graph(), 7);
    assert_eq!(residuals(&good, 1), vec![0, 0, 0]);
    assert_eq!(StarkraAir::transition_check(good.row(1), good.row(2)), 0);
    assert_eq!(StarkraAir::transition_check(bad.row(0), bad.row(1)), 0);
    assert_eq!(StarkraAir::transition_check(bad.row(1), bad.row(2)), 3);
    assert_eq!(residuals(&bad, 1), vec![0, 3, 0]);
    assert_eq!(residuals(&bad, 2), vec![0, 0, 0]);
    assert!(StarkraAir::accepts(&good, PublicInputs { start: 0, end: 2, nonce: 7 }));
    assert!(!StarkraAir::accepts(&bad, PublicInputs { start: 0, end: 2, nonce: 7 }));
    assert!(!StarkraAir::accepts(&bad, PublicInputs { start: 0, end: 5, nonce: 7 }));
}

#[test]
fn successor_identity_is_the_product_over_all_slots() {
    let graph = Cfg::from_adjacency(vec![(0, vec![3, 5, 9]), (9, vec![0])]);
    let trace = StarkraAir::build_trace(vec![jump(0), jump(7)], graph.clone(), 1);
    assert_eq!(trace.row(0), &[1, 0, 0, 3, 5, 9, 1, 0, 0]);
    assert_eq!(
        StarkraAir::transition_check(trace.row(0), trace.row(1)),
        MODULUS - 16
    );
    let trace = StarkraAir::build_trace(vec![jump(0), jump(10)], graph.clone(), 1);
    assert_eq!(StarkraAir::transition_check(trace.row(0), trace.row(1)), 35);
    for target in [3, 5, 9] {
        let trace = StarkraAir::build_trace(vec![jump(0), jump(target)], graph.clone(), 1);
        assert_eq!(StarkraAir::transition_check(trace.row(0), trace.row(1)), 0);
    }
}

#[test]
fn return_goes_to_the_address_on_the_stack() {
    let graph = Cfg::from_adjacency(vec![(1, vec![1, 2, 3])]);
    let good = StarkraAir::build_trace(vec![call(1, 2), jump(1), ret(2)], graph.clone(), 5);
    assert_eq!(good.get(2, 0), 2);
    assert_eq!(good.get(2, 1), 2);
    assert_eq!(good.get(2, 2), 0);
    assert_eq!(
        rows(&good),
        vec![
            vec![5, 1, 2, 1, 2, 3, 1, 0, 1],
            vec![5, 1, 2, 1, 2, 3, 1, 0, 0],
            vec![5, 2, 0, 0, 0, 0, 1, 1, 0],
            vec![5, 2, 0, 0, 0, 0, 0, 0, 0],
        ]
    );
    for r in 0..3 {
        assert_eq!(residuals(&good, r), vec![0, 0, 0]);
    }
    let bad = StarkraAir::build_trace(vec![call(1, 2), jump(1), ret(3)], graph.clone(), 5);
    assert_eq!(bad.get(2, 1), 2);
    assert_eq!(residuals(&bad, 1), vec![0, 0, MODULUS - 1]);
    let worse = StarkraAir::build_trace(vec![call(1, 2), jump(1), ret(7)], graph, 5);
    assert_eq!(residuals(&worse, 1), vec![0, 120, MODULUS - 5]);
}

#[test]
fn shadow_stack_is_last_in_first_out() {
    let graph = Cfg::from_adjacency(vec![(0, vec![])]);
    let path = vec![
        ret(9),
        call(1, 10),
        call(2, 20),
        jump(3),
        call(4, 30),
        ret(30),
        ret(20),
        ret(10),
        ret(0),
        call(5, 50),
    ];
    let trace = StarkraAir::build_trace(path, graph, 0);
    assert_eq!(trace.length(), 16);
    let tops: Vec<u64> = (0..16).map(|r| trace.get(2, r)).collect();
    assert_eq!(tops, vec![0, 10, 20, 20, 30, 20, 10, 0, 0, 50, 50, 50, 50, 50, 50, 50]);
    let is_ret: Vec<u64> = (0..16).map(|r| trace.row(r)[4]).collect();
    assert_eq!(is_ret, vec![1, 0, 0, 0, 0, 1, 1, 1, 1, 0, 0, 0, 0, 0, 0, 0]);
    let is_call: Vec<u64> = (0..16).map(|r| trace.row(r)[5]).collect();
    assert_eq!(is_call, vec![0, 1, 1, 0, 1, 0, 0, 0, 0, 1, 0, 0, 0, 0, 0, 0]);
}

#[test]
fn padding_rows_repeat_the_last_node() {
    let graph = Cfg::from_adjacency(vec![(0, vec![1, 2]), (1, vec![2]), (2, vec![0, 1])]);
    let path = vec![jump(0), call(2, 8), jump(1), jump(2), ret(0)];
    let trace = StarkraAir::build_trace(path, graph, 77);
    assert_eq!(trace.width(), 8);
    assert_eq!(trace.length(), 8);
    for r in 5..8 {
        assert_eq!(trace.row(r), &[77, 0, 0, 1, 2, 0, 0, 0]);
    }
    let graph = Cfg::from_adjacency(vec![(0, vec![1, 2]), (1, vec![2]), (2, vec![0, 1])]);
    let trace = StarkraAir::build_trace(vec![call(2, 9), jump(1), jump(2)], graph, 3);
    assert_eq!(trace.row(2), &[3, 2, 9, 0, 1, 1, 0, 0]);
    assert_eq!(trace.row(3), &[3, 2, 9, 0, 1, 0, 0, 0]);
    assert_eq!(residuals(&trace, 2), vec![0, 0, 0]);
}

#[test]
fn nonce_fills_the_first_column() {
    let graph = Cfg::from_adjacency(vec![(0, vec![0])]);
    let path: Vec<Step> = (0..11).map(|_| jump(0)).collect();
    let trace = StarkraAir::build_trace(path, graph, u32::MAX);
    assert_eq!(trace.length(), 16);
    for r in 0..16 {
        assert_eq!(trace.get(0, r), 0xFFFF_FFFF);
    }
    for r in 0..15 {
        assert_eq!(residuals(&trace, r), vec![0, 0, 0]);
    }
}

#[test]
fn empty_path_gives_one_padding_row() {
    let trace = StarkraAir::build_trace(Vec::new(), line_graph(), 9);
    assert_eq!(trace.length(), 1);
    assert_eq!(trace.width(), 7);
    assert_eq!(trace.row(0), &[9, 0, 0, 1, 0, 0, 0]);
    assert_eq!(trace.get(4, 0), 0);
}

#[test]
fn checked_build_gives_the_same_trace() {
    let graph = Cfg::from_adjacency(vec![(0, vec![1, 2]), (1, vec![2]), (2, vec![0, 1])]);
    let path = vec![jump(0), call(2, 8), jump(1), jump(2), ret(0)];
    let plain = StarkraAir::build_trace(path.clone(), graph.clone(), 21);
    assert_eq!(StarkraAir::try_build_trace(path, graph, 21), Some(plain));
}

#[test]
fn same_inputs_give_the_same_trace() {
    let graph = Cfg::from_adjacency(vec![(0, vec![1, 2]), (1, vec![2]), (2, vec![0, 1])]);
    let path = vec![jump(0), call(2, 8), jump(1), jump(2), ret(0)];
    let first = StarkraAir::build_trace(path.clone(), graph.clone(), 21);
    let second = StarkraAir::build_trace(path.clone(), graph.clone(), 21);
    assert_eq!(first, second);
    assert_eq!(first.clone(), first);
    let other = StarkraAir::build_trace(path, graph, 22);
    assert_ne!(first, other);
}

#[test]
fn row_count_is_the_next_power_of_two() {
    let graph = Cfg::from_adjacency(vec![(0, vec![0])]);
    for (steps, expected) in [(0, 1), (1, 1), (2, 2), (3, 4), (4, 4), (5, 8), (8, 8), (9, 16), (33, 64)] {
        let path: Vec<Step> = (0..steps).map(|_| jump(0)).collect();
        let trace = StarkraAir::build_trace(path, graph.clone(), 0);
        assert_eq!(trace.length(), expected);
        for r in 0..expected {
            assert_eq!(trace.get(4, r), if r < steps { 1 } else { 0 });
        }
    }
    assert_eq!(round_up_to_power_of_two(0), 1);
    assert_eq!(round_up_to_power_of_two(1), 1);
    assert_eq!(round_up_to_power_of_two(1000), 1024);
    assert_eq!(round_up_to_power_of_two(1024), 1024);
    assert_eq!(round_up_to_power_of_two(1025), 2048);
    for n in 0..300usize {
        assert_eq!(round_up_to_power_of_two(n), n.next_power_of_two());
        assert_eq!(checked_row_count(n), Some(n.max(1).next_power_of_two()));
    }
    let half = usize::MAX / 2 + 1;
    assert_eq!(checked_row_count(half - 1), Some(half));
    assert_eq!(checked_row_count(half), Some(half));
    assert_eq!(checked_row_count(half + 1), None);
    assert_eq!(checked_row_count(usize::MAX), None);
}

#[test]
fn nodes_outside_the_graph_have_empty_slots() {
    let graph = Cfg::from_adjacency(vec![(0, vec![1, 1])]);
    let trace = StarkraAir::build_trace(vec![jump(0), jump(40), jump(1)], graph, 2);
    assert_eq!(trace.row(0), &[2, 0, 0, 1, 1, 1, 0, 0]);
    assert_eq!(trace.row(1), &[2, 40, 0, 0, 0, 1, 0, 0]);
    assert_eq!(StarkraAir::transition_check(trace.row(0), trace.row(1)), 39 * 39);
    assert_eq!(StarkraAir::transition_check(trace.row(1), trace.row(2)), 1);
}

#[test]
fn step_to_node_zero_passes_by_an_empty_slot() {
    let graph = Cfg::from_adjacency(vec![(1, vec![2, 3]), (2, vec![3])]);
    let trace = StarkraAir::build_trace(vec![jump(2), jump(0)], graph.clone(), 0);
    assert!(!graph.successors(2).contains(&0));
    assert_eq!(StarkraAir::transition_check(trace.row(0), trace.row(1)), 0);
    let trace = StarkraAir::build_trace(vec![jump(1), jump(0)], graph, 0);
    assert_eq!(StarkraAir::transition_check(trace.row(0), trace.row(1)), 6);
}

#[test]
fn steps_without_addresses_count_as_zero() {
    let graph = Cfg::from_adjacency(vec![(0, vec![0])]);
    let path = vec![
        Step { jmp_type: JmpType::Call, addrs: vec![] },
        Step { jmp_type: JmpType::Call, addrs: vec![0] },
        Step { jmp_type: JmpType::Jump, addrs: vec![] },
    ];
    let trace = StarkraAir::build_trace(path, graph, 1);
    assert_eq!(trace.row(0), &[1, 0, 0, 0, 1, 0, 1]);
    assert_eq!(trace.row(1), &[1, 0, 0, 0, 1, 0, 1]);
    assert_eq!(trace.row(2), &[1, 0, 0, 0, 1, 0, 0]);
}

#[test]
fn identities_read_the_elements_that_the_cells_stand_for() {
    let current = [MODULUS + 7, 0, 5, 1, 1, 0, 0];
    let next = [7, MODULUS + 1, 0, 0, MODULUS + 1, 1, 0];
    assert_eq!(StarkraAir::evaluate_transition(&current, &next), vec![0, 0, 4]);
    let next = [8, 4, 0, 0, 1, 2, 0];
    assert_eq!(StarkraAir::evaluate_transition(&current, &next), vec![MODULUS - 1, 3, 2]);
    let next = [8, 4, 0, 0, 0, 0, 0];
    assert_eq!(StarkraAir::evaluate_transition(&current, &next), vec![MODULUS - 1, 0, 0]);
}

#[test]
fn rows_without_neighbor_slots() {
    let graph = Cfg::from_adjacency(vec![(3, vec![])]);
    let trace = StarkraAir::build_trace(vec![jump(3), jump(3)], graph, 6);
    assert_eq!(trace.width(), 6);
    assert_eq!(rows(&trace), vec![vec![6, 3, 0, 1, 0, 0], vec![6, 3, 0, 1, 0, 0]]);
    assert_eq!(StarkraAir::transition_check(trace.row(0), trace.row(1)), 1);
}

#[test]
fn degrees_and_assertions() {
    let inputs = PublicInputs { start: 4, end: 9, nonce: 123 };
    assert_eq!(inputs.to_elements(), vec![4, 9, 123]);
    let air = StarkraAir::new(9, 16, inputs);
    assert_eq!(air.degrees(), vec![1, 5, 2]);
    assert_eq!(
        air.get_assertions(),
        vec![
            Assertion { column: 0, step: 0, value: 123 },
            Assertion { column: 1, step: 0, value: 4 },
            Assertion { column: 1, step: 15, value: 9 },
        ]
    );
    let air = StarkraAir::new(6, 1, inputs);
    assert_eq!(air.degrees(), vec![1, 2, 2]);
    assert_eq!(air.get_assertions()[2], Assertion { column: 1, step: 0, value: 9 });
}

#[test]
fn assertions_hold_of_the_trace_they_come_from() {
    let graph = Cfg::from_adjacency(vec![(0, vec![1, 2]), (1, vec![2]), (2, vec![0, 1])]);
    let trace = StarkraAir::build_trace(vec![jump(1), jump(2), jump(0)], graph, 55);
    let inputs = PublicInputs::of_trace(&trace);
    assert_eq!(inputs, PublicInputs { start: 1, end: 0, nonce: 55 });
    let air = StarkraAir::new(trace.width(), trace.length(), inputs);
    for assertion in air.get_assertions() {
        assert_eq!(trace.get(assertion.column, assertion.step), assertion.value);
    }
}

#[test]
fn columns_follow_the_layout() {
    assert_eq!(column_at(6, 0), Column::Nonce);
    assert_eq!(column_at(6, 1), Column::Current);
    assert_eq!(column_at(6, 2), Column::StackTop);
    assert_eq!(column_at(6, 3), Column::Valid);
    assert_eq!(column_at(6, 4), Column::Ret);
    assert_eq!(column_at(6, 5), Column::Call);
    assert_eq!(column_at(9, 3), Column::Neighbor(0));
    assert_eq!(column_at(9, 5), Column::Neighbor(2));
    assert_eq!(column_at(9, 6), Column::Valid);
    assert_eq!(column_at(9, 7), Column::Ret);
    assert_eq!(column_at(9, 8), Column::Call);
}

#[test]
fn matrix_from_rows_must_be_rectangular() {
    let m = TraceMatrix::from_rows(vec![vec![1, 2], vec![3, 4], vec![5, 6]], 2).unwrap();
    assert_eq!(m.width(), 2);
    assert_eq!(m.length(), 3);
    assert_eq!(m.get(1, 2), 6);
    assert_eq!(m.row(1), &[3, 4]);
    assert!(TraceMatrix::from_rows(Vec::new(), 2).is_none());
    assert!(TraceMatrix::from_rows(vec![vec![1, 2], vec![3]], 2).is_none());
    assert!(TraceMatrix::from_rows(vec![vec![1, 2]], 3).is_none());
    assert!(TraceMatrix::from_rows(vec![vec![], vec![]], 0).is_some());
}

#[test]
fn matrix_of_a_valid_path_is_accepted() {
    let graph = Cfg::from_adjacency(vec![(1, vec![2, 3]), (2, vec![4]), (3, vec![4]), (4, vec![1])]);
    let path = vec![jump(1), call(2, 4), ret(4), jump(1), jump(3), jump(4)];
    let trace = StarkraAir::build_trace(path, graph, 31);
    let inputs = PublicInputs { start: 1, end: 4, nonce: 31 };
    assert!(StarkraAir::accepts(&trace, inputs));
    assert!(!StarkraAir::accepts(&trace, PublicInputs { start: 2, ..inputs }));
    assert!(!StarkraAir::accepts(&trace, PublicInputs { end: 1, ..inputs }));
    assert!(!StarkraAir::accepts(&trace, PublicInputs { nonce: 30, ..inputs }));
}

#[test]
fn matrix_of_an_invalid_path_is_rejected() {
    let graph = Cfg::from_adjacency(vec![(1, vec![2, 3]), (2, vec![4]), (3, vec![4]), (4, vec![1])]);
    let wrong_edge = vec![jump(1), jump(2), jump(3), jump(4)];
    let trace = StarkraAir::build_trace(wrong_edge, graph.clone(), 31);
    assert!(!StarkraAir::accepts(&trace, PublicInputs { start: 1, end: 4, nonce: 31 }));
    let wrong_return = vec![jump(1), call(2, 9), ret(4)];
    let trace = StarkraAir::build_trace(wrong_return, graph.clone(), 31);
    assert!(!StarkraAir::accepts(&trace, PublicInputs { start: 1, end: 4, nonce: 31 }));
    let right_return = vec![jump(1), call(2, 4), ret(4)];
    let trace = StarkraAir::build_trace(right_return, graph, 31);
    assert!(StarkraAir::accepts(&trace, PublicInputs { start: 1, end: 4, nonce: 31 }));
}

#[test]
fn matrix_with_a_changed_nonce_is_rejected() {
    let rows = vec![vec![5, 0, 0, 1, 0, 0], vec![6, 0, 0, 0, 0, 0]];
    let trace = TraceMatrix::from_rows(rows, 6).unwrap();
    assert!(!StarkraAir::accepts(&trace, PublicInputs { start: 0, end: 0, nonce: 5 }));
    let rows = vec![vec![5, 0, 0, 1, 0, 0], vec![5, 0, 0, 0, 0, 0]];
    let trace = TraceMatrix::from_rows(rows, 6).unwrap();
    assert!(StarkraAir::accepts(&trace, PublicInputs { start: 0, end: 0, nonce: 5 }));
}

#[test]
fn public_inputs_need_both_declared_nodes() {
    assert_eq!(
        PublicInputs::from_declared(Some(3), Some(8), 7),
        Ok(PublicInputs { start: 3, end: 8, nonce: 7 })
    );
    assert_eq!(PublicInputs::from_declared(None, Some(8), 7), Err(MissingPublicInput::InitialNode));
    assert_eq!(PublicInputs::from_declared(Some(3), None, 7), Err(MissingPublicInput::FinalNode));
    assert_eq!(PublicInputs::from_declared(None, None, 7), Err(MissingPublicInput::InitialNode));
}
