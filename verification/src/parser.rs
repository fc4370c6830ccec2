//! The parser: it turns the tokens of a source text into the instruction
//! tree, pairing each `[` with the `]` that closes it.
use vstd::prelude::*;
use vstd::string::*;

use crate::commands::{lemma_program_push, program, Command, Instruction};
use crate::lexer::{
    all_comment, lemma_scan_gap, lemma_scan_step, lemma_tokens_concat, symbol, tokens, Lexer, Tok,
};

verus! {

/// Why a token sequence is no program.
#[derive(Debug, Clone, Copy, PartialEq, Eq, Structural)]
pub enum ParseFailure {
    /// A `]` that closes no `[`. The offsets are those of the `]`.
    UnmatchedClose { start: usize, end: usize },
    /// The text ended while a `[` was still open. The offset is the end of
    /// the last token.
    UnmatchedOpen { location: usize },
}

/// The tokens that an instruction is written with.
pub open spec fn unparse_one(instruction: Instruction) -> Seq<Tok>
    decreases instruction,
{
    match instruction {
        Instruction::MoveRight => seq![Tok::GreaterThan],
        Instruction::MoveLeft => seq![Tok::LessThan],
        Instruction::Increment => seq![Tok::Plus],
        Instruction::Decrement => seq![Tok::Minus],
        Instruction::Output => seq![Tok::Period],
        Instruction::Input => seq![Tok::Comma],
        Instruction::Loop(body) => seq![Tok::LeftBracket] + unparse(body) + seq![
            Tok::RightBracket,
        ],
    }
}

/// The tokens that an instruction sequence is written with.
pub open spec fn unparse(instructions: Seq<Instruction>) -> Seq<Tok>
    decreases instructions,
{
    if instructions.len() == 0 {
        Seq::empty()
    } else {
        unparse(instructions.drop_last()) + unparse_one(instructions.last())
    }
}

/// The instruction that a token other than a bracket stands for.
pub open spec fn leaf(tok: Tok) -> Instruction {
    match tok {
        Tok::GreaterThan => Instruction::MoveRight,
        Tok::LessThan => Instruction::MoveLeft,
        Tok::Plus => Instruction::Increment,
        Tok::Minus => Instruction::Decrement,
        Tok::Period => Instruction::Output,
        _ => Instruction::Input,
    }
}

/// What a token adds to the nesting depth.
pub open spec fn weight(tok: Tok) -> int {
    match tok {
        Tok::LeftBracket => 1,
        Tok::RightBracket => -1,
        _ => 0,
    }
}

/// The nesting depth after a token sequence: the number of `[` minus the
/// number of `]`.
pub open spec fn depth(toks: Seq<Tok>) -> int
    decreases toks.len(),
{
    if toks.len() == 0 {
        0
    } else {
        depth(toks.drop_last()) + weight(toks.last())
    }
}

/// No `]` comes without an open `[`: after no prefix is the depth negative.
pub open spec fn well_nested(toks: Seq<Tok>) -> bool {
    forall|k: int| 0 <= k <= toks.len() ==> depth(#[trigger] toks.take(k)) >= 0
}

/// The brackets are properly nested and all closed.
pub open spec fn balanced(toks: Seq<Tok>) -> bool {
    well_nested(toks) && depth(toks) == 0
}

/// `failure` says where the brackets of `bytes`, scanned from `origin` on,
/// stop matching: at the first `]` that closes nothing, or, if there is
/// none, at the end of the last token, with a `[` still open.
pub open spec fn mismatch(bytes: Seq<u8>, origin: int, failure: ParseFailure) -> bool {
    let toks = tokens(bytes.subrange(origin, bytes.len() as int));
    match failure {
        ParseFailure::UnmatchedClose { start, end } => {
            &&& !well_nested(toks)
            &&& origin <= start < bytes.len()
            &&& end == start + 1
            &&& symbol(bytes[start as int]) == Some(Tok::RightBracket)
            &&& balanced(tokens(bytes.subrange(origin, start as int)))
        },
        ParseFailure::UnmatchedOpen { location } => {
            &&& well_nested(toks)
            &&& depth(toks) > 0
            &&& origin < location <= bytes.len()
            &&& symbol(bytes[location - 1]) is Some
            &&& all_comment(bytes, location as int, bytes.len() as int)
        },
    }
}

/// The tokens of the open sequences below the innermost one: each is
/// followed by the `[` that opened the next.
spec fn enclosing(outer: Seq<Vec<Command>>) -> Seq<Tok>
    decreases outer.len(),
{
    if outer.len() == 0 {
        Seq::empty()
    } else {
        enclosing(outer.drop_last()) + unparse(program(outer.last()@)) + seq![Tok::LeftBracket]
    }
}

/// What holds while the text is parsed, with everything before `position`
/// read: the tokens read so far are those of the open sequences, from the
/// outermost to `current`, the innermost; there are as many open `[` as
/// sequences below `current`; and no `]` came without an open `[`.
spec fn parsing(
    bytes: Seq<u8>,
    origin: int,
    position: int,
    outer: Seq<Vec<Command>>,
    current: Seq<Command>,
) -> bool {
    let seen = tokens(bytes.subrange(origin, position));
    &&& 0 <= origin <= position <= bytes.len()
    &&& seen == enclosing(outer) + unparse(program(current))
    &&& depth(seen) == outer.len()
    &&& well_nested(seen)
}

/// Parses the tokens that `lexer` has left to give.
///
/// Succeeds exactly when their brackets are balanced, with the one
/// instruction sequence that is written with those tokens. Otherwise says
/// where the matching failed: at the first `]` that closes nothing, or, if
/// there is none, at the end of the last token.
pub fn parse(lexer: Lexer<'_>) -> (res: Result<Vec<Command>, ParseFailure>)
    requires
        lexer.wf(),
    ensures
        res is Ok <==> balanced(tokens(lexer.rest())),
        match res {
            Ok(commands) => unparse(program(commands@)) == tokens(lexer.rest()),
            Err(failure) => mismatch(lexer.source(), lexer.position(), failure),
        },
{
    let ghost src = lexer.source();
    let ghost origin = lexer.position();
    let mut scanner = lexer;
    let mut outer: Vec<Vec<Command>> = Vec::new();
    let mut current: Vec<Command> = Vec::new();
    let mut location: usize = 0;
    proof {
        lemma_parse_begin(src, origin);
    }
    loop
        invariant
            scanner.wf(),
            scanner.source() == src,
            src == lexer.source(),
            origin == lexer.position(),
            parsing(src, origin, scanner.position(), outer@, current@),
            outer.len() > 0 ==> {
                &&& origin < location == scanner.position()
                &&& symbol(src[location - 1]) is Some
            },
        decreases src.len() - scanner.position(),
    {
        let ghost before = scanner.position();
        match scanner.next() {
            Some(Ok((start, tok, end))) => {
                location = end;
                match tok {
                    Tok::LeftBracket => {
                        proof {
                            lemma_parse_open(src, origin, before, start as int, outer@, current);
                        }
                        outer.push(current);
                        current = Vec::new();
                    },
                    Tok::RightBracket => {
                        let ghost below = outer@;
                        match outer.pop() {
                            Some(parent) => {
                                proof {
                                    lemma_parse_close(
                                        src,
                                        origin,
                                        before,
                                        start as int,
                                        below,
                                        current,
                                    );
                                }
                                let mut parent = parent;
                                parent.push(Command::Jump(current));
                                current = parent;
                            },
                            None => {
                                proof {
                                    lemma_parse_unmatched_close(
                                        src,
                                        origin,
                                        before,
                                        start,
                                        end,
                                        current@,
                                    );
                                }
                                return Err(ParseFailure::UnmatchedClose { start, end });
                            },
                        }
                    },
                    _ => {
                        let command = match tok {
                            Tok::GreaterThan => Command::Right,
                            Tok::LessThan => Command::Left,
                            Tok::Plus => Command::Increment,
                            Tok::Minus => Command::Decrement,
                            Tok::Period => Command::Output,
                            _ => Command::Input,
                        };
                        proof {
                            lemma_parse_leaf(
                                src,
                                origin,
                                before,
                                start as int,
                                outer@,
                                current@,
                                command,
                            );
                        }
                        current.push(command);
                    },
                }
            },
            _ => {
                proof {
                    lemma_parse_end(src, origin, before, outer@, current@);
                    assert(lexer.rest() == src.subrange(origin, src.len() as int));
                }
                if outer.len() > 0 {
                    return Err(ParseFailure::UnmatchedOpen { location });
                }
                return Ok(current);
            },
        }
    }
}

/// A token at the end adds its weight to the depth.
proof fn lemma_depth_push(toks: Seq<Tok>, tok: Tok)
    ensures
        depth(toks.push(tok)) == depth(toks) + weight(tok),
{
    assert(toks.push(tok).drop_last() == toks);
}

/// A token at the end keeps a sequence well nested unless it takes the depth
/// below zero.
proof fn lemma_well_nested_push(toks: Seq<Tok>, tok: Tok)
    requires
        well_nested(toks),
        depth(toks) + weight(tok) >= 0,
    ensures
        well_nested(toks.push(tok)),
{
    let all = toks.push(tok);
    lemma_depth_push(toks, tok);
    assert forall|k: int| 0 <= k <= all.len() implies depth(#[trigger] all.take(k)) >= 0 by {
        if k <= toks.len() {
            assert(all.take(k) == toks.take(k));
        } else {
            assert(all.take(k) == all);
        }
    }
}

/// A command at the end of a sequence adds its tokens at the end.
proof fn lemma_append_leaf(current: Seq<Command>, command: Command)
    ensures
        unparse(program(current.push(command))) == unparse(program(current)) + unparse_one(
            command@,
        ),
{
    lemma_program_push(current, command);
    assert(program(current).push(command@).drop_last() == program(current));
}

/// Before the first token nothing is open.
proof fn lemma_parse_begin(bytes: Seq<u8>, origin: int)
    requires
        0 <= origin <= bytes.len(),
    ensures
        parsing(bytes, origin, origin, Seq::<Vec<Command>>::empty(), Seq::<Command>::empty()),
{
    let seen = tokens(bytes.subrange(origin, origin));
    assert(bytes.subrange(origin, origin) == Seq::<u8>::empty());
    assert(program(Seq::<Command>::empty()) == Seq::<Instruction>::empty());
    assert(seen == Seq::<Tok>::empty());
    assert(seen == enclosing(Seq::<Vec<Command>>::empty()) + unparse(
        program(Seq::<Command>::empty()),
    ));
    assert forall|k: int| 0 <= k <= seen.len() implies depth(#[trigger] seen.take(k)) >= 0 by {
        assert(seen.take(k) == seen);
    }
}

/// A token that is no bracket adds its command to the innermost sequence.
proof fn lemma_parse_leaf(
    bytes: Seq<u8>,
    origin: int,
    from: int,
    at: int,
    outer: Seq<Vec<Command>>,
    current: Seq<Command>,
    command: Command,
)
    requires
        parsing(bytes, origin, from, outer, current),
        from <= at < bytes.len(),
        all_comment(bytes, from, at),
        symbol(bytes[at]) is Some,
        weight(symbol(bytes[at]).unwrap()) == 0,
        command@ == leaf(symbol(bytes[at]).unwrap()),
    ensures
        parsing(bytes, origin, at + 1, outer, current.push(command)),
{
    let tok = symbol(bytes[at]).unwrap();
    let seen = tokens(bytes.subrange(origin, from));
    lemma_scan_step(bytes, origin, from, at);
    lemma_depth_push(seen, tok);
    lemma_well_nested_push(seen, tok);
    lemma_append_leaf(current, command);
    assert(unparse_one(leaf(tok)) == seq![tok]);
    assert(seen.push(tok) == enclosing(outer) + unparse(program(current.push(command))));
}

/// A `[` opens a new, empty innermost sequence.
proof fn lemma_parse_open(
    bytes: Seq<u8>,
    origin: int,
    from: int,
    at: int,
    outer: Seq<Vec<Command>>,
    current: Vec<Command>,
)
    requires
        parsing(bytes, origin, from, outer, current@),
        from <= at < bytes.len(),
        all_comment(bytes, from, at),
        symbol(bytes[at]) == Some(Tok::LeftBracket),
    ensures
        parsing(bytes, origin, at + 1, outer.push(current), Seq::<Command>::empty()),
{
    let tok = Tok::LeftBracket;
    let seen = tokens(bytes.subrange(origin, from));
    lemma_scan_step(bytes, origin, from, at);
    lemma_depth_push(seen, tok);
    lemma_well_nested_push(seen, tok);
    assert(outer.push(current).drop_last() == outer);
    assert(program(Seq::<Command>::empty()) == Seq::<Instruction>::empty());
    assert(seen.push(tok) == enclosing(outer.push(current)) + unparse(
        program(Seq::<Command>::empty()),
    ));
}

/// A `]` makes the innermost sequence the body of a loop at the end of the
/// sequence below it.
proof fn lemma_parse_close(
    bytes: Seq<u8>,
    origin: int,
    from: int,
    at: int,
    outer: Seq<Vec<Command>>,
    current: Vec<Command>,
)
    requires
        parsing(bytes, origin, from, outer, current@),
        from <= at < bytes.len(),
        all_comment(bytes, from, at),
        symbol(bytes[at]) == Some(Tok::RightBracket),
        outer.len() > 0,
    ensures
        parsing(
            bytes,
            origin,
            at + 1,
            outer.drop_last(),
            outer.last()@.push(Command::Jump(current)),
        ),
{
    let tok = Tok::RightBracket;
    let seen = tokens(bytes.subrange(origin, from));
    let parent = outer.last()@;
    lemma_scan_step(bytes, origin, from, at);
    lemma_depth_push(seen, tok);
    lemma_well_nested_push(seen, tok);
    lemma_append_leaf(parent, Command::Jump(current));
    assert(seen == enclosing(outer.drop_last()) + unparse(program(parent)) + seq![
        Tok::LeftBracket,
    ] + unparse(program(current@)));
    assert(seen.push(tok) == enclosing(outer.drop_last()) + unparse(
        program(parent.push(Command::Jump(current))),
    ));
}

/// A `]` with nothing open is where the matching fails.
proof fn lemma_parse_unmatched_close(
    bytes: Seq<u8>,
    origin: int,
    from: int,
    at: usize,
    end: usize,
    current: Seq<Command>,
)
    requires
        parsing(bytes, origin, from, Seq::<Vec<Command>>::empty(), current),
        from <= at < bytes.len(),
        end == at + 1,
        all_comment(bytes, from, at as int),
        symbol(bytes[at as int]) == Some(Tok::RightBracket),
    ensures
        mismatch(
            bytes,
            origin,
            ParseFailure::UnmatchedClose { start: at, end: end },
        ),
{
    let tok = Tok::RightBracket;
    let seen = tokens(bytes.subrange(origin, from));
    let rest = tokens(bytes.subrange(origin, bytes.len() as int));
    let upto = bytes.subrange(origin, at + 1);
    let tail = bytes.subrange(at + 1, bytes.len() as int);
    lemma_scan_step(bytes, origin, from, at as int);
    lemma_scan_gap(bytes, origin, from, at as int);
    lemma_depth_push(seen, tok);
    lemma_tokens_concat(upto, tail);
    assert(upto + tail == bytes.subrange(origin, bytes.len() as int));
    assert(rest.take(seen.len() as int + 1) == seen.push(tok));
}

/// At the end of the text, with nothing open, the innermost sequence is the
/// whole program.
proof fn lemma_parse_end(
    bytes: Seq<u8>,
    origin: int,
    from: int,
    outer: Seq<Vec<Command>>,
    current: Seq<Command>,
)
    requires
        parsing(bytes, origin, from, outer, current),
        all_comment(bytes, from, bytes.len() as int),
    ensures
        parsing(bytes, origin, bytes.len() as int, outer, current),
        outer.len() == 0 ==> unparse(program(current)) == tokens(
            bytes.subrange(origin, bytes.len() as int),
        ),
{
    lemma_scan_gap(bytes, origin, from, bytes.len() as int);
    if outer.len() == 0 {
        assert(enclosing(outer) + unparse(program(current)) == unparse(program(current)));
    }
}

/// The decimal digit for a number below ten.
pub open spec fn digit(d: nat) -> char {
    if d == 0 {
        '0'
    } else if d == 1 {
        '1'
    } else if d == 2 {
        '2'
    } else if d == 3 {
        '3'
    } else if d == 4 {
        '4'
    } else if d == 5 {
        '5'
    } else if d == 6 {
        '6'
    } else if d == 7 {
        '7'
    } else if d == 8 {
        '8'
    } else {
        '9'
    }
}

/// A number written in decimal, without leading zeros.
pub open spec fn decimal(n: nat) -> Seq<char>
    decreases n,
{
    if n < 10 {
        seq![digit(n)]
    } else {
        decimal(n / 10).push(digit(n % 10))
    }
}

impl ParseFailure {
    /// The text that reports this failure: which bracket has no partner,
    /// and the byte offset in decimal.
    pub open spec fn describe(self) -> Seq<char> {
        match self {
            ParseFailure::UnmatchedClose { start, end } => "unmatched `]` at byte "@ + decimal(
                start as nat,
            ),
            ParseFailure::UnmatchedOpen { location } => "unmatched `[` at end of input, byte "@
                + decimal(location as nat),
        }
    }

    /// The text that reports this failure.
    pub fn message(&self) -> (text: String)
        ensures
            text@ == self.describe(),
    {
        match self {
            ParseFailure::UnmatchedClose { start, end } => {
                let mut text = String::from_str("unmatched `]` at byte ");
                push_decimal(&mut text, *start);
                text
            },
            ParseFailure::UnmatchedOpen { location } => {
                let mut text = String::from_str("unmatched `[` at end of input, byte ");
                push_decimal(&mut text, *location);
                text
            },
        }
    }
}

/// The one-character text of a decimal digit.
fn digit_text(d: usize) -> (text: &'static str)
    requires
        d < 10,
    ensures
        text@ == seq![digit(d as nat)],
{
    proof {
        reveal_strlit("0");
        reveal_strlit("1");
        reveal_strlit("2");
        reveal_strlit("3");
        reveal_strlit("4");
        reveal_strlit("5");
        reveal_strlit("6");
        reveal_strlit("7");
        reveal_strlit("8");
        reveal_strlit("9");
    }
    let text = if d == 0 {
        "0"
    } else if d == 1 {
        "1"
    } else if d == 2 {
        "2"
    } else if d == 3 {
        "3"
    } else if d == 4 {
        "4"
    } else if d == 5 {
        "5"
    } else if d == 6 {
        "6"
    } else if d == 7 {
        "7"
    } else if d == 8 {
        "8"
    } else {
        "9"
    };
    assert(text@ == seq![digit(d as nat)]);
    text
}

/// Appends `n` in decimal to `text`.
fn push_decimal(text: &mut String, n: usize)
    ensures
        final(text)@ == old(text)@ + decimal(n as nat),
    decreases n,
{
    if n >= 10 {
        push_decimal(text, n / 10);
    }
    text.append(digit_text(n % 10));
}

/// The depth after two token sequences in a row is the sum of their depths.
pub proof fn lemma_depth_concat(a: Seq<Tok>, b: Seq<Tok>)
    ensures
        depth(a + b) == depth(a) + depth(b),
    decreases b.len(),
{
    if b.len() == 0 {
        assert(a + b == a);
    } else {
        assert((a + b).drop_last() == a + b.drop_last());
        assert((a + b).last() == b.last());
        lemma_depth_concat(a, b.drop_last());
    }
}

/// The depth of a single token is its weight.
proof fn lemma_depth_single(tok: Tok)
    ensures
        depth(seq![tok]) == weight(tok),
{
    assert(seq![tok].drop_last() == Seq::<Tok>::empty());
    assert(depth(Seq::<Tok>::empty()) == 0);
}

/// Two balanced token sequences in a row are balanced.
pub proof fn lemma_balanced_concat(a: Seq<Tok>, b: Seq<Tok>)
    requires
        balanced(a),
        balanced(b),
    ensures
        balanced(a + b),
{
    let all = a + b;
    lemma_depth_concat(a, b);
    assert forall|k: int| 0 <= k <= all.len() implies depth(#[trigger] all.take(k)) >= 0 by {
        if k <= a.len() {
            assert(all.take(k) == a.take(k));
        } else {
            assert(all.take(k) == a + b.take(k - a.len()));
            lemma_depth_concat(a, b.take(k - a.len()));
        }
    }
}

/// A balanced token sequence between `[` and `]` is balanced.
pub proof fn lemma_balanced_wrap(inner: Seq<Tok>)
    requires
        balanced(inner),
    ensures
        balanced(seq![Tok::LeftBracket] + inner + seq![Tok::RightBracket]),
{
    let open = seq![Tok::LeftBracket];
    let close = seq![Tok::RightBracket];
    let all = open + inner + close;
    lemma_depth_single(Tok::LeftBracket);
    lemma_depth_single(Tok::RightBracket);
    lemma_depth_concat(open, inner);
    lemma_depth_concat(open + inner, close);
    assert forall|k: int| 0 <= k <= all.len() implies depth(#[trigger] all.take(k)) >= 0 by {
        if k == 0 {
            assert(all.take(k) == Seq::<Tok>::empty());
        } else if k <= inner.len() + 1 {
            assert(all.take(k) == open + inner.take(k - 1));
            lemma_depth_concat(open, inner.take(k - 1));
        } else {
            assert(all.take(k) == all);
        }
    }
}

/// The tokens of an instruction are balanced.
pub proof fn lemma_unparse_one_balanced(instruction: Instruction)
    ensures
        balanced(unparse_one(instruction)),
        unparse_one(instruction).len() >= 1,
    decreases instruction,
{
    match instruction {
        Instruction::Loop(body) => {
            lemma_unparse_balanced(body);
            lemma_balanced_wrap(unparse(body));
        },
        _ => {
            let toks = unparse_one(instruction);
            lemma_depth_single(toks[0]);
            assert forall|k: int| 0 <= k <= toks.len() implies depth(#[trigger] toks.take(k))
                >= 0 by {
                if k == 0 {
                    assert(toks.take(k) == Seq::<Tok>::empty());
                } else {
                    assert(toks.take(k) == toks);
                }
            }
        },
    }
}

/// The tokens of every program are balanced: each `[` has its `]`.
pub proof fn lemma_unparse_balanced(instructions: Seq<Instruction>)
    ensures
        balanced(unparse(instructions)),
    decreases instructions,
{
    if instructions.len() == 0 {
        assert(unparse(instructions).take(0) == unparse(instructions));
        assert forall|k: int| 0 <= k <= unparse(instructions).len() implies depth(
            #[trigger] unparse(instructions).take(k),
        ) >= 0 by {
            assert(unparse(instructions).take(k) == Seq::<Tok>::empty());
        }
    } else {
        lemma_unparse_balanced(instructions.drop_last());
        lemma_unparse_one_balanced(instructions.last());
        lemma_balanced_concat(unparse(instructions.drop_last()), unparse_one(instructions.last()));
    }
}

/// Two ways to split a token sequence at a `[`, with as many tokens behind
/// the one `[` as behind the other, are the same split.
proof fn lemma_same_split(
    front_a: Seq<Tok>,
    inner_a: Seq<Tok>,
    front_b: Seq<Tok>,
    inner_b: Seq<Tok>,
)
    requires
        front_a + seq![Tok::LeftBracket] + inner_a == front_b + seq![Tok::LeftBracket] + inner_b,
        inner_a.len() == inner_b.len(),
    ensures
        front_a == front_b,
        inner_a == inner_b,
{
    let all = front_a + seq![Tok::LeftBracket] + inner_a;
    let other = front_b + seq![Tok::LeftBracket] + inner_b;
    assert(all.len() == front_a.len() + 1 + inner_a.len());
    assert(other.len() == front_b.len() + 1 + inner_b.len());
    assert(front_a.len() == front_b.len());
    assert forall|i: int| 0 <= i < front_a.len() implies front_a[i] == front_b[i] by {
        assert(front_a[i] == all[i]);
        assert(front_b[i] == other[i]);
    }
    assert(front_a =~= front_b);
    assert forall|i: int| 0 <= i < inner_a.len() implies inner_a[i] == inner_b[i] by {
        assert(inner_a[i] == all[front_a.len() + 1 + i]);
        assert(inner_b[i] == other[front_b.len() + 1 + i]);
    }
    assert(inner_a =~= inner_b);
}

/// Of two ways to split a token sequence at a `[`, the one with more tokens
/// behind its `[` holds the other `[` and all that follows it.
proof fn lemma_nested_split(
    front_a: Seq<Tok>,
    inner_a: Seq<Tok>,
    front_b: Seq<Tok>,
    inner_b: Seq<Tok>,
)
    requires
        front_a + seq![Tok::LeftBracket] + inner_a == front_b + seq![Tok::LeftBracket] + inner_b,
        inner_a.len() < inner_b.len(),
    ensures
        inner_b == inner_b.take(inner_b.len() - inner_a.len() - 1) + seq![Tok::LeftBracket]
            + inner_a,
{
    let all = front_a + seq![Tok::LeftBracket] + inner_a;
    let other = front_b + seq![Tok::LeftBracket] + inner_b;
    let q = inner_b.len() - inner_a.len() - 1;
    let joined = inner_b.take(q) + seq![Tok::LeftBracket] + inner_a;
    assert(all.len() == front_a.len() + 1 + inner_a.len());
    assert(other.len() == front_b.len() + 1 + inner_b.len());
    assert(front_a.len() == front_b.len() + 1 + q);
    assert(joined.len() == inner_b.len());
    assert forall|i: int| 0 <= i < inner_b.len() implies inner_b[i] == joined[i] by {
        assert(inner_b[i] == other[front_b.len() + 1 + i]);
        if i < q {
        } else if i == q {
            assert(all[front_a.len() as int] == Tok::LeftBracket);
        } else {
            assert(joined[i] == inner_a[i - q - 1]);
            assert(inner_a[i - q - 1] == all[front_a.len() + 1 + (i - q - 1)]);
        }
    }
    assert(inner_b =~= joined);
}

/// Of two balanced sequences that end a token sequence, each behind a `[`,
/// neither is shorter than the other.
proof fn lemma_open_not_inside(
    front_a: Seq<Tok>,
    inner_a: Seq<Tok>,
    front_b: Seq<Tok>,
    inner_b: Seq<Tok>,
)
    requires
        depth(inner_a) == 0,
        balanced(inner_b),
        front_a + seq![Tok::LeftBracket] + inner_a == front_b + seq![Tok::LeftBracket] + inner_b,
    ensures
        inner_a.len() >= inner_b.len(),
{
    if inner_a.len() < inner_b.len() {
        let head = inner_b.take(inner_b.len() - inner_a.len() - 1);
        lemma_nested_split(front_a, inner_a, front_b, inner_b);
        lemma_depth_single(Tok::LeftBracket);
        lemma_depth_concat(head, seq![Tok::LeftBracket]);
        lemma_depth_concat(head + seq![Tok::LeftBracket], inner_a);
        assert(depth(head) == -1);
    }
}

/// A token sequence that ends in a balanced sequence behind a `[` does so
/// in one way only: the `[` that a `]` closes is fixed by the tokens.
proof fn lemma_matching_open(
    front_a: Seq<Tok>,
    inner_a: Seq<Tok>,
    front_b: Seq<Tok>,
    inner_b: Seq<Tok>,
)
    requires
        balanced(inner_a),
        balanced(inner_b),
        front_a + seq![Tok::LeftBracket] + inner_a == front_b + seq![Tok::LeftBracket] + inner_b,
    ensures
        front_a == front_b,
        inner_a == inner_b,
{
    lemma_open_not_inside(front_a, inner_a, front_b, inner_b);
    lemma_open_not_inside(front_b, inner_b, front_a, inner_a);
    lemma_same_split(front_a, inner_a, front_b, inner_b);
}

/// The last token of an instruction is `]` exactly when it is a loop, and
/// an instruction that is no loop is written with one token.
proof fn lemma_last_token(instruction: Instruction)
    ensures
        unparse_one(instruction).len() >= 1,
        (unparse_one(instruction).last() == Tok::RightBracket) <==> instruction is Loop,
        !(instruction is Loop) ==> unparse_one(instruction) == seq![
            unparse_one(instruction).last(),
        ] && instruction == leaf(unparse_one(instruction).last()),
{
}

/// The last token of a sequence that ends in an instruction is the last
/// token of that instruction.
proof fn lemma_last_of_concat(front: Seq<Tok>, last: Seq<Tok>)
    requires
        last.len() >= 1,
    ensures
        (front + last).last() == last.last(),
{
}

/// Two token sequences that are equal and end in one more token each agree
/// before that token and in it.
proof fn lemma_split_leaf(front_a: Seq<Tok>, tok_a: Tok, front_b: Seq<Tok>, tok_b: Tok)
    requires
        front_a + seq![tok_a] == front_b + seq![tok_b],
    ensures
        front_a == front_b,
        tok_a == tok_b,
{
    let all = front_a + seq![tok_a];
    let other = front_b + seq![tok_b];
    assert(all.drop_last() == front_a);
    assert(other.drop_last() == front_b);
    assert(all.last() == tok_a);
    assert(other.last() == tok_b);
}

/// Two token sequences that are equal and end in one more loop each agree
/// before that loop and in its body.
proof fn lemma_split_loop(
    front_a: Seq<Tok>,
    inner_a: Seq<Tok>,
    front_b: Seq<Tok>,
    inner_b: Seq<Tok>,
)
    requires
        balanced(inner_a),
        balanced(inner_b),
        front_a + (seq![Tok::LeftBracket] + inner_a + seq![Tok::RightBracket]) == front_b + (
        seq![Tok::LeftBracket] + inner_b + seq![Tok::RightBracket]),
    ensures
        front_a == front_b,
        inner_a == inner_b,
{
    let open = seq![Tok::LeftBracket];
    let close = seq![Tok::RightBracket];
    let all = front_a + (open + inner_a + close);
    let other = front_b + (open + inner_b + close);
    assert(all == (front_a + open + inner_a) + close);
    assert(other == (front_b + open + inner_b) + close);
    assert(((front_a + open + inner_a) + close).drop_last() == front_a + open + inner_a);
    assert(((front_b + open + inner_b) + close).drop_last() == front_b + open + inner_b);
    lemma_matching_open(front_a, inner_a, front_b, inner_b);
}

/// A program is fixed by its tokens: two instruction sequences that are
/// written with the same tokens are the same.
pub proof fn lemma_unparse_injective(a: Seq<Instruction>, b: Seq<Instruction>)
    requires
        unparse(a) == unparse(b),
    ensures
        a == b,
    decreases unparse(a).len(),
{
    if a.len() == 0 {
        if b.len() > 0 {
            lemma_last_token(b.last());
        }
        assert(a =~= b);
    } else if b.len() == 0 {
        lemma_last_token(a.last());
    } else {
        let front_a = unparse(a.drop_last());
        let front_b = unparse(b.drop_last());
        lemma_last_token(a.last());
        lemma_last_token(b.last());
        lemma_last_of_concat(front_a, unparse_one(a.last()));
        lemma_last_of_concat(front_b, unparse_one(b.last()));
        if a.last() is Loop {
            let body_a = a.last()->Loop_0;
            let body_b = b.last()->Loop_0;
            lemma_unparse_balanced(body_a);
            lemma_unparse_balanced(body_b);
            lemma_split_loop(front_a, unparse(body_a), front_b, unparse(body_b));
            lemma_unparse_injective(body_a, body_b);
        } else {
            lemma_split_leaf(
                front_a,
                unparse_one(a.last()).last(),
                front_b,
                unparse_one(b.last()).last(),
            );
        }
        lemma_unparse_injective(a.drop_last(), b.drop_last());
        assert(a.last() == b.last());
        assert(a =~= a.drop_last().push(a.last()));
        assert(b =~= b.drop_last().push(b.last()));
    }
}

/// Of two `]` that each follow balanced tokens, the later one does not: the
/// earlier one already closes nothing.
proof fn lemma_first_unmatched_close(bytes: Seq<u8>, origin: int, first: int, second: int)
    requires
        0 <= origin <= first < second <= bytes.len(),
        symbol(bytes[first]) == Some(Tok::RightBracket),
        balanced(tokens(bytes.subrange(origin, first))),
    ensures
        !well_nested(tokens(bytes.subrange(origin, second))),
{
    let seen = tokens(bytes.subrange(origin, first));
    let upto = bytes.subrange(origin, first + 1);
    let tail = bytes.subrange(first + 1, second);
    let all = tokens(bytes.subrange(origin, second));
    assert(upto.drop_last() == bytes.subrange(origin, first));
    assert(upto.last() == bytes[first]);
    assert(tokens(upto) == seen.push(Tok::RightBracket));
    lemma_depth_push(seen, Tok::RightBracket);
    lemma_tokens_concat(upto, tail);
    assert(upto + tail == bytes.subrange(origin, second));
    assert(all.take(seen.len() as int + 1) == seen.push(Tok::RightBracket));
}

/// Where the brackets of a text stop matching is fixed by the text: no two
/// failures describe the same text.
pub proof fn lemma_mismatch_unique(bytes: Seq<u8>, origin: int, a: ParseFailure, b: ParseFailure)
    requires
        0 <= origin <= bytes.len(),
        mismatch(bytes, origin, a),
        mismatch(bytes, origin, b),
    ensures
        a == b,
{
    match (a, b) {
        (
            ParseFailure::UnmatchedClose { start: first, end: _ },
            ParseFailure::UnmatchedClose { start: second, end: _ },
        ) => {
            if first < second {
                lemma_first_unmatched_close(bytes, origin, first as int, second as int);
            } else if second < first {
                lemma_first_unmatched_close(bytes, origin, second as int, first as int);
            }
        },
        (
            ParseFailure::UnmatchedOpen { location: first },
            ParseFailure::UnmatchedOpen { location: second },
        ) => {
            if first < second {
                assert(symbol(bytes[second - 1]) is None);
            } else if second < first {
                assert(symbol(bytes[first - 1]) is None);
            }
        },
        _ => {},
    }
}

} // verus!
