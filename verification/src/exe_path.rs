//! Execution paths: the control-flow steps that a program took, in order.

use vstd::prelude::*;
use crate::error::{ParseError, ParseErrorKind, ParseErrorView};
use crate::text::{
    chars_of, first_bad_number, has_prefix, is_word, lemma_first_bad_number, line_ranges,
    numbers_of, parse_number, parse_u32, ranges_within, slices, split_lines, starts_with,
    text_between, token_ranges, tokens,
};

verus! {

/// The kind of a control-flow step.
#[derive(Debug, Clone, Copy, PartialEq, Eq, Structural)]
pub enum JmpType {
    Call,
    Jump,
    Ret,
}

/// One control-flow step. `addrs` holds the target first; a call holds its
/// return address second.
#[derive(Debug, Clone, PartialEq, Eq)]
pub struct Step {
    pub jmp_type: JmpType,
    pub addrs: Vec<u32>,
}

/// A step as a mathematical value.
pub struct StepView {
    pub jmp_type: JmpType,
    pub addrs: Seq<u32>,
}

impl StepView {
    /// The node that the step moves to; 0 where the step names none.
    pub open spec fn target(self) -> u32 {
        if self.addrs.len() > 0 {
            self.addrs[0]
        } else {
            0
        }
    }

    /// The address that a call leaves on the shadow stack; 0 where the step names none.
    pub open spec fn return_address(self) -> u32 {
        if self.addrs.len() > 1 {
            self.addrs[1]
        } else {
            0
        }
    }
}

impl DeepView for Step {
    type V = StepView;

    open spec fn deep_view(&self) -> StepView {
        StepView { jmp_type: self.jmp_type, addrs: self.addrs@ }
    }
}

impl Step {
    /// The node that the step moves to; 0 where the step names none.
    pub fn target(&self) -> (t: u32)
        ensures
            t == self.deep_view().target(),
    {
        if self.addrs.len() > 0 {
            self.addrs[0]
        } else {
            0
        }
    }

    /// The address that a call leaves on the shadow stack; 0 where the step names none.
    pub fn return_address(&self) -> (a: u32)
        ensures
            a == self.deep_view().return_address(),
    {
        if self.addrs.len() > 1 {
            self.addrs[1]
        } else {
            0
        }
    }
}

/// What a path text says: the jumps that its `initial_node=` headers add, the
/// steps of its instruction lines, and the declared first and last nodes.
pub struct PathView {
    pub leading: Seq<StepView>,
    pub steps: Seq<StepView>,
    pub initial_node: Option<u32>,
    pub final_node: Option<u32>,
}

impl PathView {
    /// The steps of the path: the jumps of the headers, in the order of the
    /// headers, lead; the instructions follow in their order.
    pub open spec fn all_steps(self) -> Seq<StepView> {
        self.leading + self.steps
    }
}

/// The header token that declares the first node.
pub open spec fn initial_prefix() -> Seq<char> {
    "initial_node="@
}

/// The header token that declares the last node.
pub open spec fn final_prefix() -> Seq<char> {
    "final_node="@
}

/// Whether a token is a header token: it starts with one of the two prefixes.
pub open spec fn is_header(token: Seq<char>) -> bool {
    starts_with(token, initial_prefix()) || starts_with(token, final_prefix())
}

/// Whether one of the tokens is a header token.
pub open spec fn has_header(words: Seq<Seq<char>>) -> bool {
    exists|i: int| 0 <= i < words.len() && is_header(#[trigger] words[i])
}

/// The jump to `node`.
pub open spec fn jump_to(node: u32) -> StepView {
    StepView { jmp_type: JmpType::Jump, addrs: seq![node] }
}

/// The error that `token` on `line` writes no number.
pub open spec fn number_error(line: nat, token: Seq<char>) -> ParseErrorView {
    ParseErrorView { line, kind: ParseErrorKind::InvalidNumber, token }
}

/// The effect of one token of a header line. `initial_node=<n>` declares the
/// first node and adds a jump to it, which leads the path wherever the
/// header stands; `final_node=<n>` declares the last node; any other token
/// has no effect. What follows the `=` must be a number.
pub open spec fn apply_header(state: PathView, token: Seq<char>, line: nat) -> Result<
    PathView,
    ParseErrorView,
> {
    if starts_with(token, initial_prefix()) {
        let value = token.skip(initial_prefix().len() as int);
        match parse_u32(value) {
            Some(v) => Ok(
                PathView {
                    leading: state.leading.push(jump_to(v)),
                    steps: state.steps,
                    initial_node: Some(v),
                    final_node: state.final_node,
                },
            ),
            None => Err(number_error(line, value)),
        }
    } else if starts_with(token, final_prefix()) {
        let value = token.skip(final_prefix().len() as int);
        match parse_u32(value) {
            Some(v) => Ok(
                PathView {
                    leading: state.leading,
                    steps: state.steps,
                    initial_node: state.initial_node,
                    final_node: Some(v),
                },
            ),
            None => Err(number_error(line, value)),
        }
    } else {
        Ok(state)
    }
}

/// The effect of the first `n` tokens of a header line, from left to right,
/// up to the first error.
pub open spec fn apply_headers(state: PathView, words: Seq<Seq<char>>, n: nat, line: nat) -> Result<
    PathView,
    ParseErrorView,
>
    decreases n,
{
    if n == 0 {
        Ok(state)
    } else {
        match apply_headers(state, words, (n - 1) as nat, line) {
            Ok(s) => apply_header(s, words[n - 1], line),
            Err(e) => Err(e),
        }
    }
}

/// The error of the given kind at `token` on `line`.
pub open spec fn instruction_error(line: nat, kind: ParseErrorKind, token: Seq<char>) -> Result<
    StepView,
    ParseErrorView,
> {
    Err(ParseErrorView { line, kind, token })
}

/// The step that an instruction line writes. The first token is the opcode,
/// the others are its arguments: `call` takes a target and a return address,
/// `jump` and `ret` take a target. The arguments are read before the opcode,
/// so an argument that is no number is reported first.
pub open spec fn instruction(words: Seq<Seq<char>>, line: nat) -> Result<StepView, ParseErrorView> {
    let op = words[0];
    let args = words.skip(1);
    let bad = first_bad_number(args, 0);
    if bad < args.len() {
        instruction_error(line, ParseErrorKind::InvalidNumber, args[bad])
    } else if op == "call"@ {
        if args.len() == 2 {
            Ok(StepView { jmp_type: JmpType::Call, addrs: numbers_of(args) })
        } else {
            instruction_error(line, ParseErrorKind::WrongArgumentCount, op)
        }
    } else if op == "jump"@ {
        if args.len() == 1 {
            Ok(StepView { jmp_type: JmpType::Jump, addrs: numbers_of(args) })
        } else {
            instruction_error(line, ParseErrorKind::WrongArgumentCount, op)
        }
    } else if op == "ret"@ {
        if args.len() == 1 {
            Ok(StepView { jmp_type: JmpType::Ret, addrs: numbers_of(args) })
        } else {
            instruction_error(line, ParseErrorKind::WrongArgumentCount, op)
        }
    } else {
        instruction_error(line, ParseErrorKind::UnknownOpcode, op)
    }
}

/// The effect of one line. A line without tokens has none. A line with a
/// header token is a header line, and its other tokens are passed over. Any
/// other line is an instruction.
pub open spec fn apply_line(state: PathView, text: Seq<char>, line: nat) -> Result<
    PathView,
    ParseErrorView,
> {
    let words = tokens(text);
    if words.len() == 0 {
        Ok(state)
    } else if has_header(words) {
        apply_headers(state, words, words.len(), line)
    } else {
        match instruction(words, line) {
            Ok(step) => Ok(
                PathView {
                    leading: state.leading,
                    steps: state.steps.push(step),
                    initial_node: state.initial_node,
                    final_node: state.final_node,
                },
            ),
            Err(e) => Err(e),
        }
    }
}

/// The effect of the first `n` lines, up to the first error. Lines count from 1.
pub open spec fn parse_lines(lines: Seq<Seq<char>>, n: nat) -> Result<PathView, ParseErrorView>
    decreases n,
{
    if n == 0 {
        Ok(
            PathView {
                leading: Seq::empty(),
                steps: Seq::empty(),
                initial_node: None,
                final_node: None,
            },
        )
    } else {
        match parse_lines(lines, (n - 1) as nat) {
            Ok(s) => apply_line(s, lines[n - 1], n),
            Err(e) => Err(e),
        }
    }
}

/// What a path text says, or the first error in it.
pub open spec fn parse_path(text: Seq<char>) -> Result<PathView, ParseErrorView> {
    parse_lines(split_lines(text), split_lines(text).len())
}

/// The first error on a header line is the result, whatever follows it.
pub proof fn lemma_header_error_stays(
    state: PathView,
    words: Seq<Seq<char>>,
    n: nat,
    m: nat,
    line: nat,
)
    requires
        n <= m,
        apply_headers(state, words, n, line) is Err,
    ensures
        apply_headers(state, words, m, line) == apply_headers(state, words, n, line),
    decreases m,
{
    if n < m {
        lemma_header_error_stays(state, words, n, (m - 1) as nat, line);
    }
}

/// The first error in a text is the result, whatever follows it.
pub proof fn lemma_line_error_stays(lines: Seq<Seq<char>>, n: nat, m: nat)
    requires
        n <= m,
        parse_lines(lines, n) is Err,
    ensures
        parse_lines(lines, m) == parse_lines(lines, n),
    decreases m,
{
    if n < m {
        lemma_line_error_stays(lines, n, (m - 1) as nat);
    }
}

/// Tokens that are no header leave the state as it is.
pub proof fn lemma_no_header_no_effect(state: PathView, words: Seq<Seq<char>>, n: nat, line: nat)
    requires
        n <= words.len(),
        forall|i: int| 0 <= i < n ==> !is_header(#[trigger] words[i]),
    ensures
        apply_headers(state, words, n, line) == Ok::<PathView, ParseErrorView>(state),
    decreases n,
{
    if n > 0 {
        lemma_no_header_no_effect(state, words, (n - 1) as nat, line);
    }
}

/// The leading jumps go with the declared first node.
pub open spec fn leading_matches(path: PathView) -> bool {
    match path.initial_node {
        None => path.leading.len() == 0,
        Some(node) => path.leading.len() > 0 && path.leading.last() == jump_to(node),
    }
}

proof fn lemma_headers_keep_leading(state: PathView, words: Seq<Seq<char>>, t: nat, line: nat)
    requires
        leading_matches(state),
        apply_headers(state, words, t, line) is Ok,
    ensures
        leading_matches(apply_headers(state, words, t, line)->Ok_0),
    decreases t,
{
    if t > 0 {
        lemma_headers_keep_leading(state, words, (t - 1) as nat, line);
    }
}

proof fn lemma_lines_keep_leading(lines: Seq<Seq<char>>, n: nat)
    requires
        parse_lines(lines, n) is Ok,
    ensures
        leading_matches(parse_lines(lines, n)->Ok_0),
    decreases n,
{
    if n > 0 {
        lemma_lines_keep_leading(lines, (n - 1) as nat);
        let before = parse_lines(lines, (n - 1) as nat)->Ok_0;
        let words = tokens(lines[n - 1]);
        if words.len() > 0 && has_header(words) {
            lemma_headers_keep_leading(before, words, words.len(), n);
        }
    }
}

/// A path declares its first node exactly where a jump leads it, and the
/// last of the leading jumps goes to the declared node. So where a text
/// declares its first node once, the path starts with the jump to that node.
pub proof fn lemma_declared_node_leads(text: Seq<char>)
    requires
        parse_path(text) is Ok,
    ensures
        leading_matches(parse_path(text)->Ok_0),
        parse_path(text)->Ok_0.leading.len() == 1 ==> parse_path(text)->Ok_0.all_steps()[0]
            == jump_to(parse_path(text)->Ok_0.initial_node->Some_0),
{
    lemma_lines_keep_leading(split_lines(text), split_lines(text).len());
}

/// A step is complete where it names its target, and a call its return address as well.
pub open spec fn is_complete(step: StepView) -> bool {
    step.addrs.len() == if step.jmp_type == JmpType::Call {
        2nat
    } else {
        1nat
    }
}

/// Every step is complete.
pub open spec fn all_complete(steps: Seq<StepView>) -> bool {
    forall|i: int| 0 <= i < steps.len() ==> is_complete(#[trigger] steps[i])
}

proof fn lemma_headers_keep_complete(state: PathView, words: Seq<Seq<char>>, t: nat, line: nat)
    requires
        all_complete(state.leading),
        all_complete(state.steps),
        apply_headers(state, words, t, line) is Ok,
    ensures
        all_complete(apply_headers(state, words, t, line)->Ok_0.leading),
        all_complete(apply_headers(state, words, t, line)->Ok_0.steps),
    decreases t,
{
    if t > 0 {
        lemma_headers_keep_complete(state, words, (t - 1) as nat, line);
    }
}

/// Every step of a parsed path is complete.
pub proof fn lemma_parsed_steps_are_complete(text: Seq<char>)
    requires
        parse_path(text) is Ok,
    ensures
        all_complete(parse_path(text)->Ok_0.all_steps()),
{
    lemma_parsed_lines_are_complete(split_lines(text), split_lines(text).len());
}

proof fn lemma_parsed_lines_are_complete(lines: Seq<Seq<char>>, n: nat)
    requires
        parse_lines(lines, n) is Ok,
    ensures
        all_complete(parse_lines(lines, n)->Ok_0.leading),
        all_complete(parse_lines(lines, n)->Ok_0.steps),
    decreases n,
{
    if n > 0 {
        lemma_parsed_lines_are_complete(lines, (n - 1) as nat);
        let before = parse_lines(lines, (n - 1) as nat)->Ok_0;
        let words = tokens(lines[n - 1]);
        if words.len() > 0 && has_header(words) {
            lemma_headers_keep_complete(before, words, words.len(), n);
        }
    }
}

/// The state of the parser between two lines.
struct PathState {
    leading: Vec<Step>,
    steps: Vec<Step>,
    initial_node: Option<u32>,
    final_node: Option<u32>,
}

impl View for PathState {
    type V = PathView;

    closed spec fn view(&self) -> PathView {
        PathView {
            leading: self.leading.deep_view(),
            steps: self.steps.deep_view(),
            initial_node: self.initial_node,
            final_node: self.final_node,
        }
    }
}

fn one_address(node: u32) -> (addrs: Vec<u32>)
    ensures
        addrs@ == seq![node],
{
    let mut addrs: Vec<u32> = Vec::new();
    addrs.push(node);
    addrs
}

/// Applies the header tokens of a line, and says whether there was one.
fn read_headers(
    input: &str,
    chars: &Vec<char>,
    toks: &Vec<(usize, usize)>,
    line: usize,
    entry: PathState,
) -> (r: Result<(PathState, bool), ParseError>)
    requires
        input@ == chars@,
        ranges_within(toks@, 0, chars@.len() as int),
    ensures
        match apply_headers(entry@, slices(chars@, toks@), toks@.len(), line as nat) {
            Ok(s) => r matches Ok((after, found)) && after@ == s && found == has_header(
                slices(chars@, toks@),
            ),
            Err(e) => r matches Err(err) && err@ == e,
        },
{
    let ghost words = slices(chars@, toks@);
    let ghost start = entry@;
    let mut state = entry;
    let mut found = false;
    let mut t: usize = 0;
    while t < toks.len()
        invariant
            t <= toks@.len(),
            input@ == chars@,
            start == entry@,
            words == slices(chars@, toks@),
            ranges_within(toks@, 0, chars@.len() as int),
            apply_headers(start, words, t as nat, line as nat) == Ok::<PathView, ParseErrorView>(
                state@,
            ),
            found == exists|i: int| 0 <= i < t && is_header(#[trigger] words[i]),
        decreases toks@.len() - t,
    {
        let from = toks[t].0;
        let to = toks[t].1;
        let ghost word = words[t as int];
        let ghost before = state@;
        proof {
            assert(word == chars@.subrange(from as int, to as int));
        }
        if has_prefix(chars, from, to, "initial_node=") {
            let skip = "initial_node=".unicode_len();
            proof {
                assert(chars@.subrange(from + skip, to as int) == word.skip(skip as int));
            }
            match parse_number(chars, from + skip, to) {
                Some(v) => {
                    state.leading.push(Step { jmp_type: JmpType::Jump, addrs: one_address(v) });
                    state.initial_node = Some(v);
                    proof {
                        assert(state.leading.deep_view() =~= before.leading.push(jump_to(v)));
                    }
                },
                None => {
                    let token = text_between(input, from + skip, to);
                    proof {
                        assert(apply_headers(start, words, (t + 1) as nat, line as nat)
                            == apply_header(before, word, line as nat));
                        lemma_header_error_stays(
                            start,
                            words,
                            (t + 1) as nat,
                            toks@.len(),
                            line as nat,
                        );
                    }
                    return Err(ParseError { line, kind: ParseErrorKind::InvalidNumber, token });
                },
            }
            found = true;
        } else if has_prefix(chars, from, to, "final_node=") {
            let skip = "final_node=".unicode_len();
            proof {
                assert(chars@.subrange(from + skip, to as int) == word.skip(skip as int));
            }
            match parse_number(chars, from + skip, to) {
                Some(v) => {
                    state.final_node = Some(v);
                },
                None => {
                    let token = text_between(input, from + skip, to);
                    proof {
                        assert(apply_headers(start, words, (t + 1) as nat, line as nat)
                            == apply_header(before, word, line as nat));
                        lemma_header_error_stays(
                            start,
                            words,
                            (t + 1) as nat,
                            toks@.len(),
                            line as nat,
                        );
                    }
                    return Err(ParseError { line, kind: ParseErrorKind::InvalidNumber, token });
                },
            }
            found = true;
        }
        t += 1;
    }
    Ok((state, found))
}

/// Reads an instruction line, given by its tokens.
fn read_instruction(input: &str, chars: &Vec<char>, toks: &Vec<(usize, usize)>, line: usize) -> (r:
    Result<Step, ParseError>)
    requires
        input@ == chars@,
        toks@.len() > 0,
        ranges_within(toks@, 0, chars@.len() as int),
    ensures
        match instruction(slices(chars@, toks@), line as nat) {
            Ok(s) => r matches Ok(step) && step.deep_view() == s,
            Err(e) => r matches Err(err) && err@ == e,
        },
{
    let ghost words = slices(chars@, toks@);
    let ghost args = words.skip(1);
    let mut numbers: Vec<u32> = Vec::new();
    let mut t: usize = 1;
    proof {
        assert(numbers@ =~= numbers_of(args.take(0)));
    }
    while t < toks.len()
        invariant
            1 <= t <= toks@.len(),
            input@ == chars@,
            words == slices(chars@, toks@),
            args == words.skip(1),
            ranges_within(toks@, 0, chars@.len() as int),
            numbers@ == numbers_of(args.take(t - 1)),
            forall|i: int| 0 <= i < t - 1 ==> parse_u32(#[trigger] args[i]) is Some,
        decreases toks@.len() - t,
    {
        let from = toks[t].0;
        let to = toks[t].1;
        proof {
            assert(args[t - 1] == chars@.subrange(from as int, to as int));
        }
        match parse_number(chars, from, to) {
            Some(v) => {
                proof {
                    assert(numbers@.push(v) =~= numbers_of(args.take(t as int)));
                }
                numbers.push(v);
            },
            None => {
                let token = text_between(input, from, to);
                proof {
                    lemma_first_bad_number(args, 0, t - 1);
                }
                return Err(ParseError { line, kind: ParseErrorKind::InvalidNumber, token });
            },
        }
        t += 1;
    }
    proof {
        lemma_first_bad_number(args, 0, args.len() as int);
        assert(args.take(args.len() as int) == args);
    }
    let from = toks[0].0;
    let to = toks[0].1;
    proof {
        assert(words[0] == chars@.subrange(from as int, to as int));
    }
    let count = numbers.len();
    if is_word(chars, from, to, "call") {
        if count == 2 {
            Ok(Step { jmp_type: JmpType::Call, addrs: numbers })
        } else {
            let token = text_between(input, from, to);
            Err(ParseError { line, kind: ParseErrorKind::WrongArgumentCount, token })
        }
    } else if is_word(chars, from, to, "jump") {
        if count == 1 {
            Ok(Step { jmp_type: JmpType::Jump, addrs: numbers })
        } else {
            let token = text_between(input, from, to);
            Err(ParseError { line, kind: ParseErrorKind::WrongArgumentCount, token })
        }
    } else if is_word(chars, from, to, "ret") {
        if count == 1 {
            Ok(Step { jmp_type: JmpType::Ret, addrs: numbers })
        } else {
            let token = text_between(input, from, to);
            Err(ParseError { line, kind: ParseErrorKind::WrongArgumentCount, token })
        }
    } else {
        let token = text_between(input, from, to);
        Err(ParseError { line, kind: ParseErrorKind::UnknownOpcode, token })
    }
}

/// Reads an execution path from its text.
///
/// The text is read line by line. A line may declare the first node with
/// `initial_node=<n>`, which also adds a jump to that node as a leading step,
/// and the last node with `final_node=<n>`. Any other line that is not blank
/// is an instruction: `call <target> <return address>`, `jump <target>` or
/// `ret <target>`. The result is the steps, the jumps of the headers first
/// and then the instructions in order, and the two declared nodes, or the
/// first error with its line.
pub fn parse_execution_path(input: &str) -> (r: Result<
    (Vec<Step>, Option<u32>, Option<u32>),
    ParseError,
>)
    ensures
        match parse_path(input@) {
            Ok(path) => r matches Ok((steps, initial_node, final_node)) && steps.deep_view()
                == path.all_steps() && initial_node == path.initial_node && final_node
                == path.final_node,
            Err(e) => r matches Err(err) && err@ == e,
        },
{
    let chars = chars_of(input);
    let lines = line_ranges(&chars);
    let ghost texts = split_lines(chars@);
    let mut state = PathState {
        leading: Vec::new(),
        steps: Vec::new(),
        initial_node: None,
        final_node: None,
    };
    let mut k: usize = 0;
    proof {
        assert(state.leading.deep_view() =~= Seq::<StepView>::empty());
        assert(state.steps.deep_view() =~= Seq::<StepView>::empty());
    }
    while k < lines.len()
        invariant
            k <= lines@.len(),
            input@ == chars@,
            texts == split_lines(chars@),
            texts == slices(chars@, lines@),
            ranges_within(lines@, 0, chars@.len() as int),
            parse_lines(texts, k as nat) == Ok::<PathView, ParseErrorView>(state@),
        decreases lines@.len() - k,
    {
        let start = lines[k].0;
        let end = lines[k].1;
        let toks = token_ranges(&chars, start, end);
        let line = k + 1;
        let ghost words = slices(chars@, toks@);
        let ghost before = state@;
        proof {
            assert(texts[k as int] == chars@.subrange(start as int, end as int));
            assert(words == tokens(texts[k as int]));
            assert(ranges_within(toks@, 0, chars@.len() as int));
        }
        match read_headers(input, &chars, &toks, line, state) {
            Err(e) => {
                proof {
                    if !has_header(words) {
                        lemma_no_header_no_effect(before, words, words.len(), line as nat);
                    }
                    lemma_line_error_stays(texts, (k + 1) as nat, texts.len());
                }
                return Err(e);
            },
            Ok((after, found)) => {
                state = after;
                proof {
                    if !found {
                        lemma_no_header_no_effect(before, words, words.len(), line as nat);
                    }
                }
                if !found && toks.len() > 0 {
                    match read_instruction(input, &chars, &toks, line) {
                        Err(e) => {
                            proof {
                                lemma_line_error_stays(texts, (k + 1) as nat, texts.len());
                            }
                            return Err(e);
                        },
                        Ok(step) => {
                            let ghost pushed = step.deep_view();
                            state.steps.push(step);
                            proof {
                                assert(state.steps.deep_view() =~= before.steps.push(pushed));
                            }
                        },
                    }
                }
            },
        }
        k += 1;
    }
    let ghost path = state@;
    let mut steps = state.leading;
    let mut instructions = state.steps;
    steps.append(&mut instructions);
    proof {
        assert(steps.deep_view() =~= path.all_steps());
    }
    Ok((steps, state.initial_node, state.final_node))
}

} // verus!
