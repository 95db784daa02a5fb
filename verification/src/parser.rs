//! The lexer and the recursive-descent parser.
//!
//! `tokenize` maps every source character to exactly one token, so the
//! token sequence always has the length of the input. `parse` then builds
//! the instruction tree, tracking bracket nesting through a cursor-based
//! [`Context`]; its result — success and every failure alike — equals what
//! the specification machine in [`crate::model`] computes on those tokens.

use vstd::prelude::*;
use vstd::string::StrSliceExecFns;

use crate::common::{axis_for, Axis, Direction, Instruction, Program};
use crate::model::{
    finish, frame_done, frame_init, inst_view, prog_view, run, spec_parse, stack_append, step,
    with_base, Ast, PState,
};
use crate::model::{
    lemma_finish_frame, lemma_prog_view_push, lemma_run_app, lemma_run_frame, lemma_run_one,
};

verus! {

broadcast use vstd::slice::group_slice_axioms;

/// The lexical classification of a single source character, prior to
/// grammar-level validation. `Null` stands for a character outside the
/// language's alphabet; it is kept (not discarded) so that the token
/// sequence stays in step with the input, and rejected later by the parser.
#[derive(Debug, Copy, Clone, PartialEq, Eq, Structural)]
pub enum Token {
    Move(Direction),
    Duplicate(Direction),
    Digit(u8),
    Undo,
    Kill,
    PlacePortal,
    JumpPortal,
    Inc,
    Dec,
    NoOp,
    Read,
    Write,
    Open,
    Close,
    Null,
}

/// Why a parse was rejected. Every violation aborts the whole parse at
/// once; there is no recovery and no partial result.
#[derive(Debug, Copy, Clone, PartialEq, Eq, Structural)]
pub enum ParseError {
    /// A close bracket appeared while the nesting depth was already zero.
    UnmatchedClose,
    /// The input ended while at least one loop was still open.
    UnmatchedOpen,
    /// A move or duplicate token was not immediately followed by a digit.
    MissingOperand,
    /// A token that cannot start an instruction appeared in instruction
    /// position: a bare digit, or an unrecognized character.
    UnexpectedToken,
}

/// The fixed lexing table: the token that classifies one source character.
pub open spec fn token_of(c: char) -> Token {
    if c == 'M' {
        Token::Move(Direction::Pos)
    } else if c == 'm' {
        Token::Move(Direction::Neg)
    } else if c == 'X' {
        Token::Duplicate(Direction::Pos)
    } else if c == 'x' {
        Token::Duplicate(Direction::Neg)
    } else if c == 'u' {
        Token::Undo
    } else if c == 'k' {
        Token::Kill
    } else if c == 'o' {
        Token::PlacePortal
    } else if c == 'j' {
        Token::JumpPortal
    } else if c == '+' {
        Token::Inc
    } else if c == '-' {
        Token::Dec
    } else if c == '|' {
        Token::NoOp
    } else if c == '.' {
        Token::Read
    } else if c == ',' {
        Token::Write
    } else if c == '[' {
        Token::Open
    } else if c == ']' {
        Token::Close
    } else if '0' <= c && c <= '9' {
        Token::Digit((c as u32 - 48) as u8)
    } else {
        Token::Null
    }
}

/// A token sequence as the lexer produces it: every digit token carries a
/// value below 10.
pub open spec fn wf_tokens(ts: Seq<Token>) -> bool {
    forall|k: int|
        0 <= k < ts.len() ==> (#[trigger] ts[k] matches Token::Digit(d) ==> d < 10)
}

/// Converts source text to tokens, one per character. Lexing cannot fail:
/// characters outside the alphabet become `Token::Null`.
pub fn tokenize(program: &str) -> (r: Vec<Token>)
    ensures
        r@.len() == program@.len(),
        forall|k: int| 0 <= k < r@.len() ==> r@[k] == token_of(program@[k]),
        wf_tokens(r@),
{
    let n = program.unicode_len();
    let mut r: Vec<Token> = Vec::new();
    let mut i: usize = 0;
    while i < n
        invariant
            n == program@.len(),
            i <= n,
            r@.len() == i,
            forall|k: int| 0 <= k < i ==> r@[k] == token_of(program@[k]),
        decreases n - i,
    {
        let c = program.get_char(i);
        let t = match c {
            'M' => Token::Move(Direction::Pos),
            'm' => Token::Move(Direction::Neg),
            'X' => Token::Duplicate(Direction::Pos),
            'x' => Token::Duplicate(Direction::Neg),
            'u' => Token::Undo,
            'k' => Token::Kill,
            'o' => Token::PlacePortal,
            'j' => Token::JumpPortal,
            '+' => Token::Inc,
            '-' => Token::Dec,
            '|' => Token::NoOp,
            '.' => Token::Read,
            ',' => Token::Write,
            '[' => Token::Open,
            ']' => Token::Close,
            _ => {
                let v = c as u32;
                if 48 <= v && v <= 57 {
                    Token::Digit((v - 48) as u8)
                } else {
                    Token::Null
                }
            },
        };
        r.push(t);
        i = i + 1;
    }
    r
}

/// True of the nine tokens that name a zero-payload instruction.
pub open spec fn is_marker(t: Token) -> bool {
    match t {
        Token::Undo => true,
        Token::Kill => true,
        Token::PlacePortal => true,
        Token::JumpPortal => true,
        Token::Inc => true,
        Token::Dec => true,
        Token::NoOp => true,
        Token::Read => true,
        Token::Write => true,
        _ => false,
    }
}

/// The zero-payload instruction a marker token names; meaningful only
/// where [`is_marker`] holds.
pub open spec fn marker_instruction(t: Token) -> Instruction {
    match t {
        Token::Kill => Instruction::Kill,
        Token::PlacePortal => Instruction::PlacePortal,
        Token::JumpPortal => Instruction::JumpPortal,
        Token::Inc => Instruction::Inc,
        Token::Dec => Instruction::Dec,
        Token::NoOp => Instruction::NoOp,
        Token::Read => Instruction::Read,
        Token::Write => Instruction::Write,
        _ => Instruction::Undo,
    }
}

/// Transient parsing state: a read-only view of the token sequence, a
/// cursor into it, and the current loop-nesting depth. One parse call owns
/// one context; nothing is shared across parse calls.
pub struct Context<'a> {
    pub tokens: &'a [Token],
    pub index: usize,
    pub loop_depth: usize,
}

impl<'a> Context<'a> {
    /// The cursor stays inside the sequence, the nesting depth never
    /// exceeds the cursor (a loop can only have been opened by a consumed
    /// bracket), and the tokens are lexer output: digits below 10.
    pub open spec fn wf(self) -> bool {
        &&& self.index <= self.tokens@.len()
        &&& self.loop_depth <= self.index
        &&& wf_tokens(self.tokens@)
    }

    /// A fresh context over `t`: cursor at the start, no open loop.
    pub fn new(t: &'a [Token]) -> (r: Context<'a>)
        ensures
            r.tokens == t,
            r.index == 0,
            r.loop_depth == 0,
    {
        Context { tokens: t, index: 0, loop_depth: 0 }
    }

    /// Advances the cursor past the current token.
    pub fn next(&mut self)
        requires
            old(self).index < old(self).tokens@.len(),
        ensures
            final(self).tokens == old(self).tokens,
            final(self).index == old(self).index + 1,
            final(self).loop_depth == old(self).loop_depth,
    {
        proof {
            assert(vstd::slice::spec_slice_len(self.tokens) == self.tokens@.len());
        }
        self.index = self.index + 1;
    }

    /// The token under the cursor.
    pub fn curr(&self) -> (t: Token)
        requires
            self.index < self.tokens@.len(),
        ensures
            t == self.tokens@[self.index as int],
    {
        self.tokens[self.index]
    }

    /// Records that a loop was opened.
    pub fn descend(&mut self)
        requires
            old(self).loop_depth < usize::MAX,
        ensures
            final(self).tokens == old(self).tokens,
            final(self).index == old(self).index,
            final(self).loop_depth == old(self).loop_depth + 1,
    {
        self.loop_depth = self.loop_depth + 1;
    }

    /// Records that a loop was closed. Closing with no loop open is the
    /// caller's error to report; it is ruled out here.
    pub fn asscend(&mut self)
        requires
            old(self).loop_depth > 0,
        ensures
            final(self).tokens == old(self).tokens,
            final(self).index == old(self).index,
            final(self).loop_depth == old(self).loop_depth - 1,
    {
        self.loop_depth = self.loop_depth - 1;
    }
}

/// Parses a move instruction: the move token under the cursor must be
/// followed by a digit, which becomes the axis. On success the cursor
/// rests on the digit (the caller advances past it); a missing digit is
/// a `MissingOperand` failure.
pub fn parse_move(ctx: &mut Context) -> (r: Result<Instruction, ParseError>)
    requires
        old(ctx).wf(),
        old(ctx).index < old(ctx).tokens@.len(),
        old(ctx).tokens@[old(ctx).index as int] matches Token::Move(_),
    ensures
        final(ctx).wf(),
        final(ctx).tokens == old(ctx).tokens,
        final(ctx).loop_depth == old(ctx).loop_depth,
        old(ctx).index <= final(ctx).index <= old(ctx).tokens@.len(),
        (match r {
            Ok(inst) => {
                let ts = old(ctx).tokens@;
                let a = old(ctx).index as int;
                &&& a + 1 < ts.len()
                &&& final(ctx).index == a + 1
                &&& (match (ts[a], ts[a + 1]) {
                    (Token::Move(dir), Token::Digit(d)) => inst == Instruction::Move(
                        dir,
                        axis_for(d),
                    ),
                    _ => false,
                })
            },
            Err(e) => {
                let ts = old(ctx).tokens@;
                let a = old(ctx).index as int;
                &&& e == ParseError::MissingOperand
                &&& (a + 1 == ts.len() || !(ts[a + 1] matches Token::Digit(_)))
            },
        }),
{
    match ctx.curr() {
        Token::Move(dir) => {
            ctx.next();
            if ctx.index < ctx.tokens.len() {
                match ctx.curr() {
                    Token::Digit(d) => {
                        let axis = Axis::from_digit(d).unwrap();
                        Ok(Instruction::Move(dir, axis))
                    },
                    _ => Err(ParseError::MissingOperand),
                }
            } else {
                Err(ParseError::MissingOperand)
            }
        },
        _ => Err(ParseError::MissingOperand),
    }
}

/// Parses a duplicate instruction, exactly as [`parse_move`] parses a
/// move: duplicate token, then its digit operand.
pub fn parse_duplicate(ctx: &mut Context) -> (r: Result<Instruction, ParseError>)
    requires
        old(ctx).wf(),
        old(ctx).index < old(ctx).tokens@.len(),
        old(ctx).tokens@[old(ctx).index as int] matches Token::Duplicate(_),
    ensures
        final(ctx).wf(),
        final(ctx).tokens == old(ctx).tokens,
        final(ctx).loop_depth == old(ctx).loop_depth,
        old(ctx).index <= final(ctx).index <= old(ctx).tokens@.len(),
        (match r {
            Ok(inst) => {
                let ts = old(ctx).tokens@;
                let a = old(ctx).index as int;
                &&& a + 1 < ts.len()
                &&& final(ctx).index == a + 1
                &&& (match (ts[a], ts[a + 1]) {
                    (Token::Duplicate(dir), Token::Digit(d)) => inst == Instruction::Duplicate(
                        dir,
                        axis_for(d),
                    ),
                    _ => false,
                })
            },
            Err(e) => {
                let ts = old(ctx).tokens@;
                let a = old(ctx).index as int;
                &&& e == ParseError::MissingOperand
                &&& (a + 1 == ts.len() || !(ts[a + 1] matches Token::Digit(_)))
            },
        }),
{
    match ctx.curr() {
        Token::Duplicate(dir) => {
            ctx.next();
            if ctx.index < ctx.tokens.len() {
                match ctx.curr() {
                    Token::Digit(d) => {
                        let axis = Axis::from_digit(d).unwrap();
                        Ok(Instruction::Duplicate(dir, axis))
                    },
                    _ => Err(ParseError::MissingOperand),
                }
            } else {
                Err(ParseError::MissingOperand)
            }
        },
        _ => Err(ParseError::MissingOperand),
    }
}

/// Parses one non-bracket instruction at the cursor and advances past it.
///
/// Success is owed whenever the cursor holds a valid instruction start: a
/// marker token yields its same-named instruction with the cursor moved
/// one past it, and a move or duplicate followed by a digit yields the
/// combined instruction, direction and digit carried through, with the
/// cursor moved past both. On success, running the machine over exactly
/// the consumed tokens, from any state with no pending operand, appends
/// the instruction's view to the top of the stack. On failure, the machine
/// rejects the whole rest of the input from any such state, with the same
/// error: a bare digit or an unrecognized character can start nothing, and
/// a move or duplicate without its digit lacks its operand.
pub fn parse_instruction(ctx: &mut Context) -> (r: Result<Instruction, ParseError>)
    requires
        old(ctx).wf(),
        old(ctx).index < old(ctx).tokens@.len(),
        !(old(ctx).tokens@[old(ctx).index as int] matches Token::Open),
        !(old(ctx).tokens@[old(ctx).index as int] matches Token::Close),
    ensures
        final(ctx).wf(),
        final(ctx).tokens == old(ctx).tokens,
        final(ctx).loop_depth == old(ctx).loop_depth,
        old(ctx).index <= final(ctx).index <= old(ctx).tokens@.len(),
        (match r {
            Ok(inst) => {
                let ts = old(ctx).tokens@;
                let a = old(ctx).index as int;
                let b = final(ctx).index as int;
                &&& a < b
                &&& forall|s: PState|
                    s.pending is None && s.stack.len() >= 1 ==> #[trigger] run(
                        s,
                        ts.subrange(a, b),
                    ) == Ok::<PState, ParseError>(
                        PState { stack: stack_append(s.stack, inst_view(inst)), pending: None },
                    )
            },
            Err(e) => {
                let ts = old(ctx).tokens@;
                let a = old(ctx).index as int;
                &&& e != ParseError::UnmatchedClose
                &&& forall|s: PState|
                    s.pending is None && s.stack.len() >= 1 ==> finish(
                        #[trigger] run(s, ts.subrange(a, ts.len() as int)),
                    ) == Err::<Seq<Ast>, ParseError>(e)
            },
        }),
        ({
            let ts = old(ctx).tokens@;
            let a = old(ctx).index as int;
            &&& (is_marker(ts[a]) ==> r == Ok::<Instruction, ParseError>(marker_instruction(ts[a]))
                && final(ctx).index == a + 1)
            &&& (a + 1 < ts.len() ==> (match (ts[a], ts[a + 1]) {
                (Token::Move(dir), Token::Digit(d)) => r == Ok::<Instruction, ParseError>(
                    Instruction::Move(dir, axis_for(d)),
                ) && final(ctx).index == a + 2,
                (Token::Duplicate(dir), Token::Digit(d)) => r == Ok::<Instruction, ParseError>(
                    Instruction::Duplicate(dir, axis_for(d)),
                ) && final(ctx).index == a + 2,
                _ => true,
            }))
        }),
{
    let ghost ts = ctx.tokens@;
    let ghost a = ctx.index as int;
    let ghost n = ts.len() as int;
    let t = ctx.curr();
    match t {
        Token::Move(_) => {
            let r = parse_move(ctx);
            match r {
                Ok(inst) => {
                    ctx.next();
                    proof {
                        lemma_operand_pair_run(ts, a, inst_view(inst));
                    }
                    Ok(inst)
                },
                Err(e) => {
                    proof {
                        lemma_operand_missing_run(ts, a, n);
                    }
                    Err(e)
                },
            }
        },
        Token::Duplicate(_) => {
            let r = parse_duplicate(ctx);
            match r {
                Ok(inst) => {
                    ctx.next();
                    proof {
                        lemma_operand_pair_run(ts, a, inst_view(inst));
                    }
                    Ok(inst)
                },
                Err(e) => {
                    proof {
                        lemma_operand_missing_run(ts, a, n);
                    }
                    Err(e)
                },
            }
        },
        Token::Digit(_) | Token::Null | Token::Open | Token::Close => {
            proof {
                let seg = ts.subrange(a, n);
                assert forall|s: PState| s.pending is None && s.stack.len() >= 1 implies finish(
                    #[trigger] run(s, seg),
                ) == Err::<Seq<Ast>, ParseError>(ParseError::UnexpectedToken) by {
                    assert(seg[0] == ts[a]);
                    assert(step(s, ts[a]) == Err::<PState, ParseError>(
                        ParseError::UnexpectedToken,
                    ));
                }
            }
            Err(ParseError::UnexpectedToken)
        },
        _ => {
            let inst = match t {
                Token::Undo => Instruction::Undo,
                Token::Kill => Instruction::Kill,
                Token::PlacePortal => Instruction::PlacePortal,
                Token::JumpPortal => Instruction::JumpPortal,
                Token::Inc => Instruction::Inc,
                Token::Dec => Instruction::Dec,
                Token::NoOp => Instruction::NoOp,
                Token::Read => Instruction::Read,
                _ => Instruction::Write,
            };
            ctx.next();
            proof {
                let seg = ts.subrange(a, a + 1);
                assert(seg =~= seq![ts[a]]);
                assert forall|s: PState| s.pending is None && s.stack.len() >= 1 implies #[trigger] run(
                    s,
                    seg,
                ) == Ok::<PState, ParseError>(
                    PState { stack: stack_append(s.stack, inst_view(inst)), pending: None },
                ) by {
                    lemma_run_one(s, ts[a]);
                }
            }
            Ok(inst)
        },
    }
}

/// The token sequence that lexing a source text yields.
pub open spec fn lex(s: Seq<char>) -> Seq<Token> {
    s.map_values(|c: char| token_of(c))
}

/// Translates source text into a program: lexes every character to one
/// token, then parses the token sequence. The result — the program on
/// success, the reason on failure — is exactly the machine's verdict
/// [`spec_parse`] on the lexed tokens.
pub fn parse(text: &str) -> (r: Result<Program, ParseError>)
    ensures
        (match r {
            Ok(p) => spec_parse(lex(text@)) == Ok::<Seq<Ast>, ParseError>(prog_view(p@)),
            Err(e) => spec_parse(lex(text@)) == Err::<Seq<Ast>, ParseError>(e),
        }),
{
    let tokens = tokenize(text);
    proof {
        assert(tokens@ =~= lex(text@));
    }
    let mut ctx = Context::new(tokens.as_slice());
    let r = parse_program(&mut ctx);
    proof {
        assert(ctx.tokens@.subrange(0, ctx.tokens@.len() as int) =~= tokens@);
    }
    match r {
        Ok(program) => {
            if ctx.index == tokens.len() {
                Ok(program)
            } else {
                // the frame can only stop early on a close bracket with a loop
                // open, and no loop is open at the top level
                proof {
                    assert(false);
                }
                Err(ParseError::UnmatchedClose)
            }
        },
        Err(e) => Err(e),
    }
}

/// Parses instructions from the cursor onward, recursing into each loop,
/// until the input is exhausted or a close bracket ends the current frame.
///
/// On success, running the machine over exactly the consumed tokens, from
/// a fresh frame, yields the returned program's view — and the frame
/// stopped either at the end of the input (nesting depth unchanged) or on
/// an unconsumed close bracket belonging to an enclosing loop (depth
/// decremented by one). On failure, the machine's verdict on everything
/// from the entry cursor to the end of the input is that same error; an
/// unmatched close is only ever reported with no loop open.
pub fn parse_program(ctx: &mut Context) -> (r: Result<Program, ParseError>)
    requires
        old(ctx).wf(),
    ensures
        final(ctx).wf(),
        final(ctx).tokens == old(ctx).tokens,
        old(ctx).index <= final(ctx).index <= old(ctx).tokens@.len(),
        (match r {
            Ok(prog) => {
                let ts = old(ctx).tokens@;
                let a = old(ctx).index as int;
                let b = final(ctx).index as int;
                &&& run(frame_init(), ts.subrange(a, b)) == Ok::<PState, ParseError>(
                    frame_done(prog_view(prog@)),
                )
                &&& (b < ts.len() ==> (ts[b] matches Token::Close) && old(ctx).loop_depth > 0
                    && final(ctx).loop_depth == old(ctx).loop_depth - 1)
                &&& (b == ts.len() ==> final(ctx).loop_depth == old(ctx).loop_depth)
            },
            Err(e) => {
                let ts = old(ctx).tokens@;
                let a = old(ctx).index as int;
                &&& spec_parse(ts.subrange(a, ts.len() as int)) == Err::<Seq<Ast>, ParseError>(e)
                &&& (e == ParseError::UnmatchedClose ==> old(ctx).loop_depth == 0)
            },
        }),
    decreases old(ctx).tokens@.len() - old(ctx).index,
{
    let ghost ctx0 = *ctx;
    let ghost ts = ctx.tokens@;
    let ghost a = ctx.index as int;
    let ghost n_spec = ts.len() as int;
    let n = ctx.tokens.len();
    let mut program: Program = Vec::new();
    while ctx.index < n
        invariant
            ctx0 == *old(ctx),
            ctx.wf(),
            ctx.tokens == ctx0.tokens,
            ts == ctx.tokens@,
            a == ctx0.index as int,
            n == ts.len(),
            n_spec == n as int,
            ctx0.index <= ctx.index <= n,
            ctx.loop_depth == ctx0.loop_depth,
            ctx0.wf(),
            run(frame_init(), ts.subrange(a, ctx.index as int)) == Ok::<PState, ParseError>(
                frame_done(prog_view(program@)),
            ),
        decreases n - ctx.index,
    {
        let ghost i = ctx.index as int;
        let ghost progsnap = program@;
        let ghost pv = prog_view(program@);
        let ghost cur = frame_done(pv);
        let t = ctx.curr();
        match t {
            Token::Open => {
                ctx.descend();
                ctx.next();
                let ghost mid = ctx.index as int;
                match parse_program(ctx) {
                    Ok(body) => {
                        let ghost j = ctx.index as int;
                        let ghost bv = prog_view(body@);
                        if ctx.index < n {
                            // the recursive frame only ever stops early on a close bracket
                            ctx.next();
                            program.push(Instruction::Loop(body));
                            proof {
                                assert(ts.subrange(a, j + 1) =~= ts.subrange(a, i) + (seq![ts[i]]
                                    + (ts.subrange(mid, j) + seq![ts[j]])));
                                lemma_run_app(
                                    frame_init(),
                                    ts.subrange(a, i),
                                    seq![ts[i]] + (ts.subrange(mid, j) + seq![ts[j]]),
                                );
                                lemma_run_app(cur, seq![ts[i]], ts.subrange(mid, j) + seq![ts[j]]);
                                lemma_run_one(cur, ts[i]);
                                let opened = PState {
                                    stack: cur.stack.push(Seq::empty()),
                                    pending: None,
                                };
                                assert(opened.stack =~= seq![pv] + frame_init().stack);
                                assert(opened == with_base(seq![pv], frame_init()));
                                lemma_run_frame(seq![pv], frame_init(), ts.subrange(mid, j));
                                let inner_done = with_base(seq![pv], frame_done(bv));
                                assert(inner_done.stack =~= seq![pv, bv]);
                                lemma_run_app(opened, ts.subrange(mid, j), seq![ts[j]]);
                                lemma_run_one(inner_done, ts[j]);
                                assert(inner_done.stack.drop_last() =~= seq![pv]);
                                assert(inner_done.stack.last() == bv);
                                assert(stack_append(seq![pv], Ast::Loop(bv)) =~= seq![
                                    pv.push(Ast::Loop(bv)),
                                ]);
                                lemma_prog_view_push(progsnap, Instruction::Loop(body));
                                assert(program@ == progsnap.push(Instruction::Loop(body)));
                            }
                        } else {
                            proof {
                                assert(ts.subrange(a, n_spec) =~= ts.subrange(a, i) + (seq![ts[i]]
                                    + ts.subrange(mid, n_spec)));
                                lemma_run_app(
                                    frame_init(),
                                    ts.subrange(a, i),
                                    seq![ts[i]] + ts.subrange(mid, n_spec),
                                );
                                lemma_run_app(cur, seq![ts[i]], ts.subrange(mid, n_spec));
                                lemma_run_one(cur, ts[i]);
                                let opened = PState {
                                    stack: cur.stack.push(Seq::empty()),
                                    pending: None,
                                };
                                assert(opened.stack =~= seq![pv] + frame_init().stack);
                                assert(opened == with_base(seq![pv], frame_init()));
                                lemma_run_frame(seq![pv], frame_init(), ts.subrange(mid, n_spec));
                                let inner_done = with_base(seq![pv], frame_done(bv));
                                assert(inner_done.stack.len() == 2);
                            }
                            return Err(ParseError::UnmatchedOpen);
                        }
                    },
                    Err(e) => {
                        proof {
                            assert(ts.subrange(a, n_spec) =~= ts.subrange(a, i) + (seq![ts[i]]
                                + ts.subrange(mid, n_spec)));
                            lemma_run_app(
                                frame_init(),
                                ts.subrange(a, i),
                                seq![ts[i]] + ts.subrange(mid, n_spec),
                            );
                            lemma_run_app(cur, seq![ts[i]], ts.subrange(mid, n_spec));
                            lemma_run_one(cur, ts[i]);
                            let opened = PState {
                                stack: cur.stack.push(Seq::empty()),
                                pending: None,
                            };
                            assert(opened.stack =~= seq![pv] + frame_init().stack);
                            assert(opened == with_base(seq![pv], frame_init()));
                            lemma_finish_frame(
                                seq![pv],
                                frame_init(),
                                ts.subrange(mid, n_spec),
                                e,
                            );
                        }
                        return Err(e);
                    },
                }
            },
            Token::Close => {
                if ctx.loop_depth > 0 {
                    ctx.asscend();
                    return Ok(program);
                } else {
                    proof {
                        assert(ts.subrange(a, n_spec) =~= ts.subrange(a, i) + ts.subrange(
                            i,
                            n_spec,
                        ));
                        lemma_run_app(frame_init(), ts.subrange(a, i), ts.subrange(i, n_spec));
                        assert(ts.subrange(i, n_spec)[0] == ts[i]);
                        assert(step(cur, ts[i]) == Err::<PState, ParseError>(
                            ParseError::UnmatchedClose,
                        ));
                    }
                    return Err(ParseError::UnmatchedClose);
                }
            },
            _ => {
                match parse_instruction(ctx) {
                    Ok(inst) => {
                        let ghost b2 = ctx.index as int;
                        program.push(inst);
                        proof {
                            assert(ts.subrange(a, b2) =~= ts.subrange(a, i) + ts.subrange(i, b2));
                            lemma_run_app(frame_init(), ts.subrange(a, i), ts.subrange(i, b2));
                            assert(stack_append(cur.stack, inst_view(inst)) =~= seq![
                                pv.push(inst_view(inst)),
                            ]);
                            lemma_prog_view_push(progsnap, inst);
                            assert(program@ == progsnap.push(inst));
                        }
                    },
                    Err(e) => {
                        proof {
                            assert(ts.subrange(a, n_spec) =~= ts.subrange(a, i) + ts.subrange(
                                i,
                                n_spec,
                            ));
                            lemma_run_app(frame_init(), ts.subrange(a, i), ts.subrange(i, n_spec));
                        }
                        return Err(e);
                    },
                }
            },
        }
    }
    Ok(program)
}

/// After a move or duplicate token and its digit were both consumed, a run
/// over those two tokens appends the combined node: the first step stores
/// the pending token, the second resolves it with the digit.
proof fn lemma_operand_pair_run(ts: Seq<Token>, a: int, node: Ast)
    requires
        0 <= a,
        a + 1 < ts.len(),
        ts[a] matches Token::Move(_) || ts[a] matches Token::Duplicate(_),
        ts[a + 1] matches Token::Digit(_),
        (match (ts[a], ts[a + 1]) {
            (Token::Move(dir), Token::Digit(d)) => node == Ast::Move(dir, d),
            (Token::Duplicate(dir), Token::Digit(d)) => node == Ast::Duplicate(dir, d),
            _ => true,
        }),
    ensures
        forall|s: PState|
            s.pending is None && s.stack.len() >= 1 ==> #[trigger] run(
                s,
                ts.subrange(a, a + 2),
            ) == Ok::<PState, ParseError>(
                PState { stack: stack_append(s.stack, node), pending: None },
            ),
{
    let seg = ts.subrange(a, a + 2);
    assert(seg =~= seq![ts[a]] + seq![ts[a + 1]]);
    assert forall|s: PState| s.pending is None && s.stack.len() >= 1 implies #[trigger] run(
        s,
        seg,
    ) == Ok::<PState, ParseError>(
        PState { stack: stack_append(s.stack, node), pending: None },
    ) by {
        lemma_run_app(s, seq![ts[a]], seq![ts[a + 1]]);
        lemma_run_one(s, ts[a]);
        let s1 = PState { stack: s.stack, pending: Some(ts[a]) };
        lemma_run_one(s1, ts[a + 1]);
    }
}

/// A move or duplicate token whose digit never comes dooms the rest of the
/// input: either the input ends with the operand still pending, or the
/// next token is not a digit and the machine fails at once.
proof fn lemma_operand_missing_run(ts: Seq<Token>, a: int, n: int)
    requires
        0 <= a < ts.len(),
        n == ts.len(),
        ts[a] matches Token::Move(_) || ts[a] matches Token::Duplicate(_),
        a + 1 == n || !(ts[a + 1] matches Token::Digit(_)),
    ensures
        forall|s: PState|
            s.pending is None && s.stack.len() >= 1 ==> finish(
                #[trigger] run(s, ts.subrange(a, n)),
            ) == Err::<Seq<Ast>, ParseError>(ParseError::MissingOperand),
{
    let seg = ts.subrange(a, n);
    assert forall|s: PState| s.pending is None && s.stack.len() >= 1 implies finish(
        #[trigger] run(s, seg),
    ) == Err::<Seq<Ast>, ParseError>(ParseError::MissingOperand) by {
        let s1 = PState { stack: s.stack, pending: Some(ts[a]) };
        if a + 1 == n {
            assert(seg =~= seq![ts[a]]);
            lemma_run_one(s, ts[a]);
        } else {
            assert(seg =~= seq![ts[a]] + ts.subrange(a + 1, n));
            lemma_run_app(s, seq![ts[a]], ts.subrange(a + 1, n));
            lemma_run_one(s, ts[a]);
            assert(ts.subrange(a + 1, n)[0] == ts[a + 1]);
            assert(step(s1, ts[a + 1]) == Err::<PState, ParseError>(ParseError::MissingOperand));
        }
    }
}

} // verus!
