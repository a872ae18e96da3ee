use starkra::error::{ParseError, ParseErrorKind};
use starkra::exe_path::{parse_execution_path, JmpType, Step};

fn call(target: u32, return_address: u32) -> Step {
    Step { jmp_type: JmpType::Call, addrs: vec![target, return_address] }
}

fn jump(target: u32) -> Step {
    Step { jmp_type: JmpType::Jump, addrs: vec![target] }
}

fn ret(target: u32) -> Step {
    Step { jmp_type: JmpType::Ret, addrs: vec![target] }
}

fn error(line: usize, kind: ParseErrorKind, token: &str) -> ParseError {
    ParseError { line, kind, token: token.to_string() }
}

#[test]
fn instructions_in_order() {
    let (steps, first, last) = parse_execution_path("call 1 2\njump 3\nret 2\n").unwrap();
    assert_eq!(steps, vec![call(1, 2), jump(3), ret(2)]);
    assert_eq!(first, None);
    assert_eq!(last, None);
}

#[test]
fn empty_text_is_an_empty_path() {
    for text in ["", "\n", "   \n\t\r\n\n"] {
        assert_eq!(parse_execution_path(text).unwrap(), (Vec::new(), None, None));
    }
}

#[test]
fn initial_node_adds_a_jump() {
    let (steps, first, last) =
        parse_execution_path("initial_node=0\njump 1\njump 2\nfinal_node=2\n").unwrap();
    assert_eq!(steps, vec![jump(0), jump(1), jump(2)]);
    assert_eq!(first, Some(0));
    assert_eq!(last, Some(2));
}

#[test]
fn headers_share_a_line() {
    let (steps, first, last) =
        parse_execution_path("  initial_node=4   final_node=9\njump 9").unwrap();
    assert_eq!(steps, vec![jump(4), jump(9)]);
    assert_eq!(first, Some(4));
    assert_eq!(last, Some(9));
}

#[test]
fn header_line_is_no_instruction() {
    let (steps, first, last) = parse_execution_path("jump 7 final_node=3 what\n").unwrap();
    assert_eq!(steps, Vec::new());
    assert_eq!(first, None);
    assert_eq!(last, Some(3));
}

#[test]
fn later_header_replaces_earlier() {
    let (steps, first, last) =
        parse_execution_path("initial_node=1\nfinal_node=2\ninitial_node=3 final_node=4\n")
            .unwrap();
    assert_eq!(steps, vec![jump(1), jump(3)]);
    assert_eq!(first, Some(3));
    assert_eq!(last, Some(4));
}

#[test]
fn jump_of_a_header_leads_the_path() {
    let (steps, first, last) = parse_execution_path("jump 1\ninitial_node=0").unwrap();
    assert_eq!(steps, vec![jump(0), jump(1)]);
    assert_eq!(first, Some(0));
    assert_eq!(last, None);
    let (steps, first, _) = parse_execution_path("jump 1\ninitial_node=5\njump 2\n").unwrap();
    assert_eq!(steps, vec![jump(5), jump(1), jump(2)]);
    assert_eq!(first, Some(5));
    let (steps, first, last) =
        parse_execution_path("call 1 2\nret 2\nfinal_node=2 initial_node=9\njump 3\n").unwrap();
    assert_eq!(steps, vec![jump(9), call(1, 2), ret(2), jump(3)]);
    assert_eq!(first, Some(9));
    assert_eq!(last, Some(2));
}

#[test]
fn jumps_of_several_headers_lead_in_header_order() {
    let (steps, first, _) =
        parse_execution_path("initial_node=1\njump 7\ninitial_node=2 initial_node=3\nret 8\n")
            .unwrap();
    assert_eq!(steps, vec![jump(1), jump(2), jump(3), jump(7), ret(8)]);
    assert_eq!(first, Some(3));
}

#[test]
fn header_value_must_be_a_number() {
    assert_eq!(
        parse_execution_path("jump 1\ninitial_node=x\n").unwrap_err(),
        error(2, ParseErrorKind::InvalidNumber, "x")
    );
    assert_eq!(
        parse_execution_path("final_node=\n").unwrap_err(),
        error(1, ParseErrorKind::InvalidNumber, "")
    );
    assert_eq!(
        parse_execution_path("initial_node=1 final_node=-2 initial_node=y\n").unwrap_err(),
        error(1, ParseErrorKind::InvalidNumber, "-2")
    );
    assert_eq!(
        parse_execution_path("initial_node=final_node=3\n").unwrap_err(),
        error(1, ParseErrorKind::InvalidNumber, "final_node=3")
    );
}

#[test]
fn header_must_start_the_token() {
    assert_eq!(
        parse_execution_path("xinitial_node=3\n").unwrap_err(),
        error(1, ParseErrorKind::UnknownOpcode, "xinitial_node=3")
    );
}

#[test]
fn unknown_opcode_is_named() {
    assert_eq!(
        parse_execution_path("jump 1\n\nleap 2\n").unwrap_err(),
        error(3, ParseErrorKind::UnknownOpcode, "leap")
    );
    assert_eq!(
        parse_execution_path("CALL 1 2\n").unwrap_err(),
        error(1, ParseErrorKind::UnknownOpcode, "CALL")
    );
    assert_eq!(
        parse_execution_path("7\n").unwrap_err(),
        error(1, ParseErrorKind::UnknownOpcode, "7")
    );
}

#[test]
fn argument_count_is_checked() {
    assert_eq!(
        parse_execution_path("call 1\n").unwrap_err(),
        error(1, ParseErrorKind::WrongArgumentCount, "call")
    );
    assert_eq!(
        parse_execution_path("call 1 2 3\n").unwrap_err(),
        error(1, ParseErrorKind::WrongArgumentCount, "call")
    );
    assert_eq!(
        parse_execution_path("jump\n").unwrap_err(),
        error(1, ParseErrorKind::WrongArgumentCount, "jump")
    );
    assert_eq!(
        parse_execution_path("jump 1 2\n").unwrap_err(),
        error(1, ParseErrorKind::WrongArgumentCount, "jump")
    );
    assert_eq!(
        parse_execution_path("jump 1\nret\n").unwrap_err(),
        error(2, ParseErrorKind::WrongArgumentCount, "ret")
    );
    assert_eq!(
        parse_execution_path("ret 1 2\n").unwrap_err(),
        error(1, ParseErrorKind::WrongArgumentCount, "ret")
    );
}

#[test]
fn arguments_are_read_before_the_opcode() {
    assert_eq!(
        parse_execution_path("leap 1 two 3\n").unwrap_err(),
        error(1, ParseErrorKind::InvalidNumber, "two")
    );
    assert_eq!(
        parse_execution_path("jump 1 2 x\n").unwrap_err(),
        error(1, ParseErrorKind::InvalidNumber, "x")
    );
}

#[test]
fn numbers_are_unsigned_and_fit_32_bits() {
    assert_eq!(parse_execution_path("jump 4294967295").unwrap().0, vec![jump(4294967295)]);
    assert_eq!(parse_execution_path("jump +17").unwrap().0, vec![jump(17)]);
    assert_eq!(parse_execution_path("jump 007").unwrap().0, vec![jump(7)]);
    assert_eq!(
        parse_execution_path("jump 00000000000000000004294967295").unwrap().0,
        vec![jump(4294967295)]
    );
    for bad in ["4294967296", "99999999999999999999999999", "-1", "+", "-", "1.5", "0x10", "1_0", "++1", "١"] {
        assert_eq!(
            parse_execution_path(&format!("jump {}", bad)).unwrap_err(),
            error(1, ParseErrorKind::InvalidNumber, bad)
        );
    }
}

#[test]
fn white_space_is_free() {
    let (steps, _, _) =
        parse_execution_path("\t call\u{a0}1 \u{3000} 2\r\n\u{2003}ret   2\u{85}\n").unwrap();
    assert_eq!(steps, vec![call(1, 2), ret(2)]);
}

#[test]
fn lines_count_from_one_and_include_blank_lines() {
    assert_eq!(
        parse_execution_path("\n\n\njump x\n").unwrap_err(),
        error(4, ParseErrorKind::InvalidNumber, "x")
    );
    assert_eq!(
        parse_execution_path("jump 1\r\njump 2\r\nbad\r\n").unwrap_err(),
        error(3, ParseErrorKind::UnknownOpcode, "bad")
    );
}

#[test]
fn first_error_wins() {
    assert_eq!(
        parse_execution_path("jump 1\nleap\ncall 1\n").unwrap_err(),
        error(2, ParseErrorKind::UnknownOpcode, "leap")
    );
}

#[test]
fn target_and_return_address_default_to_zero() {
    assert_eq!(call(5, 6).target(), 5);
    assert_eq!(call(5, 6).return_address(), 6);
    assert_eq!(jump(5).target(), 5);
    assert_eq!(jump(5).return_address(), 0);
    let bare = Step { jmp_type: JmpType::Ret, addrs: vec![] };
    assert_eq!(bare.target(), 0);
    assert_eq!(bare.return_address(), 0);
}
