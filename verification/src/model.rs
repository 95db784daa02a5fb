//! The mathematical model of parsing.
//!
//! An [`Ast`] is the specification-level picture of an instruction tree.
//! Parsing is modelled as a pushdown machine: [`step`] consumes one token,
//! keeping a stack of partially built instruction sequences (one per open
//! loop) and at most one pending move/duplicate token waiting for its
//! digit; [`run`] folds `step` over a token sequence; [`spec_parse`] runs
//! the machine over the whole input and then rejects a dangling operand or
//! an unclosed loop. The executable parser's contracts state that it
//! returns exactly `spec_parse` of its token sequence.

use vstd::prelude::*;

use crate::common::{Direction, Instruction};
use crate::parser::{ParseError, Token};

verus! {

/// One instruction node, as specifications see it: axes are bare digits,
/// and a loop body is a `Seq` of child nodes.
pub enum Ast {
    Move(Direction, u8),
    Duplicate(Direction, u8),
    Undo,
    Kill,
    PlacePortal,
    JumpPortal,
    Inc,
    Dec,
    NoOp,
    Read,
    Write,
    Loop(Seq<Ast>),
}

/// The specification-level picture of one executable instruction.
pub open spec fn inst_view(i: Instruction) -> Ast
    decreases i,
{
    match i {
        Instruction::Move(d, a) => Ast::Move(d, a.as_u8()),
        Instruction::Duplicate(d, a) => Ast::Duplicate(d, a.as_u8()),
        Instruction::Undo => Ast::Undo,
        Instruction::Kill => Ast::Kill,
        Instruction::PlacePortal => Ast::PlacePortal,
        Instruction::JumpPortal => Ast::JumpPortal,
        Instruction::Inc => Ast::Inc,
        Instruction::Dec => Ast::Dec,
        Instruction::NoOp => Ast::NoOp,
        Instruction::Read => Ast::Read,
        Instruction::Write => Ast::Write,
        Instruction::Loop(body) => Ast::Loop(prog_view(body@)),
    }
}

/// The specification-level picture of an executable instruction sequence.
pub open spec fn prog_view(p: Seq<Instruction>) -> Seq<Ast>
    decreases p,
{
    if p.len() == 0 {
        Seq::empty()
    } else {
        prog_view(p.drop_last()).push(inst_view(p.last()))
    }
}

/// The machine's state: one stack entry per loop that is still open (the
/// bottom entry is the top-level program, the top entry the innermost open
/// loop body), plus the move or duplicate token still waiting for its
/// digit operand, if any.
pub struct PState {
    pub stack: Seq<Seq<Ast>>,
    pub pending: Option<Token>,
}

/// `st` with `a` appended to its top (innermost) sequence.
pub open spec fn stack_append(st: Seq<Seq<Ast>>, a: Ast) -> Seq<Seq<Ast>> {
    st.update(st.len() - 1, st.last().push(a))
}

/// The instruction node formed by a pending move/duplicate token and its
/// digit operand. Meaningful only for those two token shapes: nothing else
/// is ever held pending.
pub open spec fn operand_ast(p: Token, d: u8) -> Ast {
    match p {
        Token::Move(dir) => Ast::Move(dir, d),
        Token::Duplicate(dir) => Ast::Duplicate(dir, d),
        _ => Ast::Undo,
    }
}

/// One transition of the machine: consume token `t` in state `s`, or fail.
pub open spec fn step(s: PState, t: Token) -> Result<PState, ParseError> {
    match s.pending {
        Some(p) => match t {
            Token::Digit(d) => Ok(
                PState { stack: stack_append(s.stack, operand_ast(p, d)), pending: None },
            ),
            _ => Err(ParseError::MissingOperand),
        },
        None => match t {
            Token::Move(_) => Ok(PState { stack: s.stack, pending: Some(t) }),
            Token::Duplicate(_) => Ok(PState { stack: s.stack, pending: Some(t) }),
            Token::Digit(_) => Err(ParseError::UnexpectedToken),
            Token::Null => Err(ParseError::UnexpectedToken),
            Token::Open => Ok(PState { stack: s.stack.push(Seq::empty()), pending: None }),
            Token::Close => if s.stack.len() <= 1 {
                Err(ParseError::UnmatchedClose)
            } else {
                Ok(
                    PState {
                        stack: stack_append(s.stack.drop_last(), Ast::Loop(s.stack.last())),
                        pending: None,
                    },
                )
            },
            Token::Undo => Ok(PState { stack: stack_append(s.stack, Ast::Undo), pending: None }),
            Token::Kill => Ok(PState { stack: stack_append(s.stack, Ast::Kill), pending: None }),
            Token::PlacePortal => Ok(
                PState { stack: stack_append(s.stack, Ast::PlacePortal), pending: None },
            ),
            Token::JumpPortal => Ok(
                PState { stack: stack_append(s.stack, Ast::JumpPortal), pending: None },
            ),
            Token::Inc => Ok(PState { stack: stack_append(s.stack, Ast::Inc), pending: None }),
            Token::Dec => Ok(PState { stack: stack_append(s.stack, Ast::Dec), pending: None }),
            Token::NoOp => Ok(PState { stack: stack_append(s.stack, Ast::NoOp), pending: None }),
            Token::Read => Ok(PState { stack: stack_append(s.stack, Ast::Read), pending: None }),
            Token::Write => Ok(PState { stack: stack_append(s.stack, Ast::Write), pending: None }),
        },
    }
}

/// Folds [`step`] over a token sequence, stopping at the first failure.
pub open spec fn run(s: PState, ts: Seq<Token>) -> Result<PState, ParseError>
    decreases ts.len(),
{
    if ts.len() == 0 {
        Ok(s)
    } else {
        match step(s, ts[0]) {
            Ok(s1) => run(s1, ts.drop_first()),
            Err(e) => Err(e),
        }
    }
}

/// The state a parse frame starts in: one empty program, nothing pending.
pub open spec fn frame_init() -> PState {
    PState { stack: seq![Seq::empty()], pending: None }
}

/// The state a completed parse frame ends in: the finished program `p`.
pub open spec fn frame_done(p: Seq<Ast>) -> PState {
    PState { stack: seq![p], pending: None }
}

/// Judges a finished run: a still-pending operand means its digit never
/// came, and more than one stack entry means a loop was never closed.
pub open spec fn finish(r: Result<PState, ParseError>) -> Result<Seq<Ast>, ParseError> {
    match r {
        Err(e) => Err(e),
        Ok(s) => if s.pending is Some {
            Err(ParseError::MissingOperand)
        } else if s.stack.len() > 1 {
            Err(ParseError::UnmatchedOpen)
        } else {
            Ok(s.stack[0])
        },
    }
}

/// The parse of a token sequence: the program it denotes, or the first
/// structural violation found.
pub open spec fn spec_parse(ts: Seq<Token>) -> Result<Seq<Ast>, ParseError> {
    finish(run(frame_init(), ts))
}

/// Instruction sequences whose elements depict the same nodes depict the
/// same program.
proof fn lemma_prog_view_pointwise(p: Seq<Instruction>, q: Seq<Instruction>)
    requires
        p.len() == q.len(),
        forall|k: int| 0 <= k < p.len() ==> inst_view(#[trigger] p[k]) == inst_view(q[k]),
    ensures
        prog_view(p) == prog_view(q),
    decreases p.len(),
{
    if p.len() > 0 {
        assert forall|k: int| 0 <= k < p.drop_last().len() implies inst_view(
            #[trigger] p.drop_last()[k],
        ) == inst_view(q.drop_last()[k]) by {
            assert(p.drop_last()[k] == p[k]);
            assert(q.drop_last()[k] == q[k]);
        }
        lemma_prog_view_pointwise(p.drop_last(), q.drop_last());
        assert(inst_view(p[p.len() - 1]) == inst_view(q[p.len() - 1]));
    }
}

impl Clone for Instruction {
    /// Clones the instruction tree: the copy depicts the same tree.
    fn clone(&self) -> (r: Instruction)
        ensures
            inst_view(r) == inst_view(*self),
        decreases *self,
    {
        match self {
            Instruction::Move(d, a) => Instruction::Move(*d, *a),
            Instruction::Duplicate(d, a) => Instruction::Duplicate(*d, *a),
            Instruction::Undo => Instruction::Undo,
            Instruction::Kill => Instruction::Kill,
            Instruction::PlacePortal => Instruction::PlacePortal,
            Instruction::JumpPortal => Instruction::JumpPortal,
            Instruction::Inc => Instruction::Inc,
            Instruction::Dec => Instruction::Dec,
            Instruction::NoOp => Instruction::NoOp,
            Instruction::Read => Instruction::Read,
            Instruction::Write => Instruction::Write,
            Instruction::Loop(body) => {
                let mut cloned: Vec<Instruction> = Vec::new();
                let mut i: usize = 0;
                while i < body.len()
                    invariant
                        *self == Instruction::Loop(*body),
                        i <= body@.len(),
                        cloned@.len() == i,
                        forall|k: int|
                            0 <= k < i ==> inst_view(#[trigger] cloned@[k]) == inst_view(body@[k]),
                    decreases body@.len() - i,
                {
                    proof {
                        // the element is a strict subterm of the loop node
                        assert(decreases_to!(*self => (*self)->Loop_0));
                        assert((*self)->Loop_0 == *body);
                    }
                    let c = body[i].clone();
                    cloned.push(c);
                    i = i + 1;
                }
                proof {
                    lemma_prog_view_pointwise(cloned@, body@);
                }
                Instruction::Loop(cloned)
            },
        }
    }
}

/// Appending one instruction appends its view.
pub proof fn lemma_prog_view_push(p: Seq<Instruction>, i: Instruction)
    ensures
        prog_view(p.push(i)) == prog_view(p).push(inst_view(i)),
{
    assert(p.push(i).drop_last() =~= p);
    assert(p.push(i).last() == i);
}

/// A one-token run is a single step.
pub proof fn lemma_run_one(s: PState, t: Token)
    ensures
        run(s, seq![t]) == step(s, t),
{
    let ts = seq![t];
    assert(ts.drop_first() =~= Seq::<Token>::empty());
    match step(s, t) {
        Ok(s1) => {
            assert(run(s1, ts.drop_first()) == Ok::<PState, ParseError>(s1));
        },
        Err(_) => {},
    }
}

/// Running over a concatenation runs the pieces in order; a failure in the
/// first piece is final.
pub proof fn lemma_run_app(s: PState, a: Seq<Token>, b: Seq<Token>)
    ensures
        run(s, a + b) == (match run(s, a) {
            Ok(s1) => run(s1, b),
            Err(e) => Err(e),
        }),
    decreases a.len(),
{
    if a.len() == 0 {
        assert(a + b =~= b);
    } else {
        assert((a + b)[0] == a[0]);
        assert((a + b).drop_first() =~= a.drop_first() + b);
        match step(s, a[0]) {
            Ok(s1) => {
                lemma_run_app(s1, a.drop_first(), b);
            },
            Err(_) => {},
        }
    }
}

/// `s` with `base` laid under its stack.
pub open spec fn with_base(base: Seq<Seq<Ast>>, s: PState) -> PState {
    PState { stack: base + s.stack, pending: s.pending }
}

/// Frame lemma: a run that starts on a nonempty stack and does not fail
/// with an unmatched close behaves the same with extra entries laid under
/// its stack — every step touches only the top entries.
pub proof fn lemma_run_frame(base: Seq<Seq<Ast>>, s: PState, ts: Seq<Token>)
    requires
        s.stack.len() >= 1,
    ensures
        match run(s, ts) {
            Ok(s2) => s2.stack.len() >= 1 && run(with_base(base, s), ts) == Ok::<
                PState,
                ParseError,
            >(with_base(base, s2)),
            Err(e) => e == ParseError::UnmatchedClose || run(with_base(base, s), ts) == Err::<
                PState,
                ParseError,
            >(e),
        },
    decreases ts.len(),
{
    let sb = with_base(base, s);
    if ts.len() == 0 {
    } else {
        let t = ts[0];
        match step(s, t) {
            Err(e) => {
                if e != ParseError::UnmatchedClose {
                    assert(step(sb, t) == Err::<PState, ParseError>(e));
                }
            },
            Ok(s1) => {
                assert(s1.stack.len() >= 1);
                assert(step(sb, t) == Ok::<PState, ParseError>(with_base(base, s1))) by {
                    match s.pending {
                        Some(p) => {
                            match t {
                                Token::Digit(d) => {
                                    lemma_stack_append_base(base, s.stack, operand_ast(p, d));
                                },
                                _ => {},
                            }
                        },
                        None => {
                            match t {
                                Token::Open => {
                                    assert((base + s.stack).push(Seq::empty()) =~= base + s.stack.push(Seq::empty()));
                                },
                                Token::Close => {
                                    assert((base + s.stack).drop_last() =~= base + s.stack.drop_last());
                                    assert((base + s.stack).last() == s.stack.last());
                                    lemma_stack_append_base(base, s.stack.drop_last(), Ast::Loop(s.stack.last()));
                                },
                                Token::Move(_) => {},
                                Token::Duplicate(_) => {},
                                Token::Digit(_) => {},
                                Token::Null => {},
                                _ => {
                                    lemma_stack_append_base_any(base, s.stack);
                                },
                            }
                        },
                    }
                };
                lemma_run_frame(base, s1, ts.drop_first());
            },
        }
    }
}

/// Appending to the top entry commutes with laying a base underneath.
proof fn lemma_stack_append_base(base: Seq<Seq<Ast>>, st: Seq<Seq<Ast>>, a: Ast)
    requires
        st.len() >= 1,
    ensures
        stack_append(base + st, a) == base + stack_append(st, a),
{
    assert((base + st).last() == st.last());
    assert(stack_append(base + st, a) =~= base + stack_append(st, a));
}

/// As [`lemma_stack_append_base`], for every possible appended node.
proof fn lemma_stack_append_base_any(base: Seq<Seq<Ast>>, st: Seq<Seq<Ast>>)
    requires
        st.len() >= 1,
    ensures
        forall|a: Ast| stack_append(base + st, a) == base + stack_append(st, a),
{
    assert forall|a: Ast| stack_append(base + st, a) == base + stack_append(st, a) by {
        lemma_stack_append_base(base, st, a);
    }
}

/// Frame lemma for judged runs: a frame that is rejected for any reason
/// other than an unmatched close is rejected the same way with extra
/// stack entries underneath.
pub proof fn lemma_finish_frame(base: Seq<Seq<Ast>>, s: PState, ts: Seq<Token>, e: ParseError)
    requires
        s.stack.len() >= 1,
        base.len() >= 1,
        finish(run(s, ts)) == Err::<Seq<Ast>, ParseError>(e),
        e != ParseError::UnmatchedClose,
    ensures
        finish(run(with_base(base, s), ts)) == Err::<Seq<Ast>, ParseError>(e),
{
    lemma_run_frame(base, s, ts);
}

/// The token spelling of one instruction node: the tokens that lex from
/// the source text this node is written as.
pub open spec fn ast_tokens(a: Ast) -> Seq<Token>
    decreases a,
{
    match a {
        Ast::Move(d, v) => seq![Token::Move(d), Token::Digit(v)],
        Ast::Duplicate(d, v) => seq![Token::Duplicate(d), Token::Digit(v)],
        Ast::Undo => seq![Token::Undo],
        Ast::Kill => seq![Token::Kill],
        Ast::PlacePortal => seq![Token::PlacePortal],
        Ast::JumpPortal => seq![Token::JumpPortal],
        Ast::Inc => seq![Token::Inc],
        Ast::Dec => seq![Token::Dec],
        Ast::NoOp => seq![Token::NoOp],
        Ast::Read => seq![Token::Read],
        Ast::Write => seq![Token::Write],
        Ast::Loop(body) => seq![Token::Open] + prog_tokens(body) + seq![Token::Close],
    }
}

/// The token spelling of an instruction sequence, in order.
pub open spec fn prog_tokens(p: Seq<Ast>) -> Seq<Token>
    decreases p,
{
    if p.len() == 0 {
        Seq::empty()
    } else {
        prog_tokens(p.drop_last()) + ast_tokens(p.last())
    }
}

/// Running the machine over one node's spelling appends that node to the
/// top of the stack.
proof fn lemma_run_ast(s: PState, a: Ast)
    requires
        s.pending is None,
        s.stack.len() >= 1,
    ensures
        run(s, ast_tokens(a)) == Ok::<PState, ParseError>(
            PState { stack: stack_append(s.stack, a), pending: None },
        ),
    decreases a,
{
    match a {
        Ast::Move(d, v) => {
            assert(ast_tokens(a) =~= seq![Token::Move(d)] + seq![Token::Digit(v)]);
            lemma_run_app(s, seq![Token::Move(d)], seq![Token::Digit(v)]);
            lemma_run_one(s, Token::Move(d));
            lemma_run_one(PState { stack: s.stack, pending: Some(Token::Move(d)) }, Token::Digit(v));
        },
        Ast::Duplicate(d, v) => {
            assert(ast_tokens(a) =~= seq![Token::Duplicate(d)] + seq![Token::Digit(v)]);
            lemma_run_app(s, seq![Token::Duplicate(d)], seq![Token::Digit(v)]);
            lemma_run_one(s, Token::Duplicate(d));
            lemma_run_one(
                PState { stack: s.stack, pending: Some(Token::Duplicate(d)) },
                Token::Digit(v),
            );
        },
        Ast::Loop(body) => {
            assert(ast_tokens(a) =~= seq![Token::Open] + (prog_tokens(body) + seq![Token::Close]));
            lemma_run_app(s, seq![Token::Open], prog_tokens(body) + seq![Token::Close]);
            lemma_run_one(s, Token::Open);
            let opened = PState { stack: s.stack.push(Seq::empty()), pending: None };
            lemma_run_app(opened, prog_tokens(body), seq![Token::Close]);
            lemma_run_prog(opened, body);
            assert(opened.stack.drop_last() =~= s.stack);
            assert(Seq::<Ast>::empty() + body =~= body);
            let inner_done = PState { stack: s.stack.push(body), pending: None };
            lemma_run_one(inner_done, Token::Close);
            assert(inner_done.stack.drop_last() =~= s.stack);
            assert(inner_done.stack.last() == body);
        },
        _ => {
            lemma_run_one(s, ast_tokens(a)[0]);
        },
    }
}

/// Running the machine over a sequence's spelling appends the whole
/// sequence to the top of the stack, in order.
proof fn lemma_run_prog(s: PState, p: Seq<Ast>)
    requires
        s.pending is None,
        s.stack.len() >= 1,
    ensures
        run(s, prog_tokens(p)) == Ok::<PState, ParseError>(
            PState { stack: s.stack.drop_last().push(s.stack.last() + p), pending: None },
        ),
    decreases p,
{
    if p.len() == 0 {
        assert(s.stack.last() + p =~= s.stack.last());
        assert(s.stack.drop_last().push(s.stack.last()) =~= s.stack);
    } else {
        lemma_run_app(s, prog_tokens(p.drop_last()), ast_tokens(p.last()));
        lemma_run_prog(s, p.drop_last());
        let s_mid = PState {
            stack: s.stack.drop_last().push(s.stack.last() + p.drop_last()),
            pending: None,
        };
        lemma_run_ast(s_mid, p.last());
        assert((s.stack.last() + p.drop_last()).push(p.last()) =~= s.stack.last() + p);
        assert(stack_append(s_mid.stack, p.last()) =~= s.stack.drop_last().push(
            s.stack.last() + p,
        ));
    }
}

/// Round trip: the token spelling of any program parses back to exactly
/// that program. In particular the parse succeeds, and its top-level
/// length is the number of top-level instruction and loop groups spelled.
pub proof fn lemma_parse_round_trip(p: Seq<Ast>)
    ensures
        spec_parse(prog_tokens(p)) == Ok::<Seq<Ast>, ParseError>(p),
{
    lemma_run_prog(frame_init(), p);
    assert(frame_init().stack.drop_last() =~= Seq::<Seq<Ast>>::empty());
    assert(Seq::<Ast>::empty() + p =~= p);
    assert(frame_init().stack.drop_last().push(frame_init().stack.last() + p) =~= seq![p]);
}

/// How many open brackets a token sequence holds.
pub open spec fn open_count(ts: Seq<Token>) -> nat
    decreases ts.len(),
{
    if ts.len() == 0 {
        0
    } else {
        (if ts[0] is Open {
            1nat
        } else {
            0nat
        }) + open_count(ts.drop_first())
    }
}

/// How many close brackets a token sequence holds.
pub open spec fn close_count(ts: Seq<Token>) -> nat
    decreases ts.len(),
{
    if ts.len() == 0 {
        0
    } else {
        (if ts[0] is Close {
            1nat
        } else {
            0nat
        }) + close_count(ts.drop_first())
    }
}

/// A run that does not fail moves the stack height by exactly the open
/// brackets consumed minus the close brackets consumed.
proof fn lemma_run_delta(s: PState, ts: Seq<Token>)
    requires
        s.stack.len() >= 1,
        run(s, ts) is Ok,
    ensures
        (run(s, ts)->Ok_0).stack.len() + close_count(ts) == s.stack.len() + open_count(ts),
    decreases ts.len(),
{
    if ts.len() > 0 {
        match step(s, ts[0]) {
            Ok(s1) => {
                assert(run(s, ts) == run(s1, ts.drop_first()));
                assert(s1.stack.len() >= 1 && s1.stack.len() + (if ts[0] is Close {
                    1int
                } else {
                    0int
                }) == s.stack.len() + (if ts[0] is Open {
                    1int
                } else {
                    0int
                }));
                lemma_run_delta(s1, ts.drop_first());
            },
            Err(_) => {},
        }
    }
}

/// A run from a nonempty stack that does not fail keeps the stack nonempty.
proof fn lemma_run_stack_nonempty(s: PState, ts: Seq<Token>)
    requires
        s.stack.len() >= 1,
        run(s, ts) is Ok,
    ensures
        (run(s, ts)->Ok_0).stack.len() >= 1,
    decreases ts.len(),
{
    if ts.len() > 0 {
        match step(s, ts[0]) {
            Ok(s1) => {
                lemma_run_stack_nonempty(s1, ts.drop_first());
            },
            Err(_) => {},
        }
    }
}

/// Bracket balance: an input that parses has equally many open and close
/// brackets, and no prefix of it closes more loops than it has opened.
/// Contrapositive: a sequence with unequal bracket counts, or with a close
/// bracket preceding its matching open, is rejected.
pub proof fn lemma_brackets_balanced(ts: Seq<Token>)
    requires
        spec_parse(ts) is Ok,
    ensures
        open_count(ts) == close_count(ts),
        forall|k: int|
            0 <= k <= ts.len() ==> close_count(#[trigger] ts.subrange(0, k)) <= open_count(
                ts.subrange(0, k),
            ),
{
    lemma_run_delta(frame_init(), ts);
    lemma_run_stack_nonempty(frame_init(), ts);
    assert forall|k: int| 0 <= k <= ts.len() implies close_count(#[trigger] ts.subrange(0, k))
        <= open_count(ts.subrange(0, k)) by {
        assert(ts =~= ts.subrange(0, k) + ts.subrange(k, ts.len() as int));
        lemma_run_app(frame_init(), ts.subrange(0, k), ts.subrange(k, ts.len() as int));
        lemma_run_delta(frame_init(), ts.subrange(0, k));
        lemma_run_stack_nonempty(frame_init(), ts.subrange(0, k));
    }
}

/// An input whose open and close bracket counts differ is always rejected.
pub proof fn lemma_unbalanced_rejected(ts: Seq<Token>)
    requires
        open_count(ts) != close_count(ts),
    ensures
        spec_parse(ts) is Err,
{
    match spec_parse(ts) {
        Ok(_) => {
            lemma_brackets_balanced(ts);
        },
        Err(_) => {},
    }
}

/// The bracket counts of a single token.
proof fn lemma_count_one(t: Token)
    ensures
        open_count(seq![t]) == (if t is Open {
            1nat
        } else {
            0nat
        }),
        close_count(seq![t]) == (if t is Close {
            1nat
        } else {
            0nat
        }),
{
    assert(seq![t].drop_first() =~= Seq::<Token>::empty());
    assert(open_count(Seq::<Token>::empty()) == 0);
    assert(close_count(Seq::<Token>::empty()) == 0);
}

/// Splitting a token sequence splits its bracket counts.
proof fn lemma_count_app(a: Seq<Token>, b: Seq<Token>)
    ensures
        open_count(a + b) == open_count(a) + open_count(b),
        close_count(a + b) == close_count(a) + close_count(b),
    decreases a.len(),
{
    if a.len() == 0 {
        assert(a + b =~= b);
    } else {
        assert((a + b)[0] == a[0]);
        assert((a + b).drop_first() =~= a.drop_first() + b);
        lemma_count_app(a.drop_first(), b);
    }
}

/// When a run fails with an unmatched close, some consumed prefix closed
/// at least as many brackets as it opened plus the whole starting height.
proof fn lemma_err_close_prefix(s: PState, ts: Seq<Token>)
    requires
        s.stack.len() >= 1,
        run(s, ts) == Err::<PState, ParseError>(ParseError::UnmatchedClose),
    ensures
        exists|k: int|
            0 <= k < ts.len() && close_count(#[trigger] ts.subrange(0, k + 1)) >= open_count(
                ts.subrange(0, k + 1),
            ) + s.stack.len(),
    decreases ts.len(),
{
    match step(s, ts[0]) {
        Err(_) => {
            assert(ts.subrange(0, 1) =~= seq![ts[0]]);
            lemma_count_one(ts[0]);
            assert(0 <= 0 < ts.len() && close_count(ts.subrange(0, 1)) >= open_count(
                ts.subrange(0, 1),
            ) + s.stack.len());
        },
        Ok(s1) => {
            assert(s1.stack.len() >= 1 && s1.stack.len() + (if ts[0] is Close {
                1int
            } else {
                0int
            }) == s.stack.len() + (if ts[0] is Open {
                1int
            } else {
                0int
            }));
            lemma_err_close_prefix(s1, ts.drop_first());
            let k1 = choose|k1: int|
                0 <= k1 < ts.drop_first().len() && close_count(
                    #[trigger] ts.drop_first().subrange(0, k1 + 1),
                ) >= open_count(ts.drop_first().subrange(0, k1 + 1)) + s1.stack.len();
            let k = k1 + 1;
            assert(ts.subrange(0, k + 1) =~= seq![ts[0]] + ts.drop_first().subrange(0, k1 + 1));
            lemma_count_app(seq![ts[0]], ts.drop_first().subrange(0, k1 + 1));
            lemma_count_one(ts[0]);
            assert(0 <= k < ts.len() && close_count(ts.subrange(0, k + 1)) >= open_count(
                ts.subrange(0, k + 1),
            ) + s.stack.len());
        },
    }
}

/// The bracket errors point at real bracket defects: an unmatched close is
/// only reported when some prefix of the input closes more brackets than
/// it opened, and an unmatched open only when the whole input opens more
/// brackets than it closes.
pub proof fn lemma_bracket_errors_attributed(ts: Seq<Token>)
    ensures
        spec_parse(ts) == Err::<Seq<Ast>, ParseError>(ParseError::UnmatchedClose) ==> exists|
            k: int,
        |
            0 <= k <= ts.len() && close_count(#[trigger] ts.subrange(0, k)) > open_count(
                ts.subrange(0, k),
            ),
        spec_parse(ts) == Err::<Seq<Ast>, ParseError>(ParseError::UnmatchedOpen) ==> open_count(ts)
            > close_count(ts),
{
    if spec_parse(ts) == Err::<Seq<Ast>, ParseError>(ParseError::UnmatchedClose) {
        assert(run(frame_init(), ts) == Err::<PState, ParseError>(ParseError::UnmatchedClose));
        lemma_err_close_prefix(frame_init(), ts);
        let k1 = choose|k1: int|
            0 <= k1 < ts.len() && close_count(#[trigger] ts.subrange(0, k1 + 1)) >= open_count(
                ts.subrange(0, k1 + 1),
            ) + frame_init().stack.len();
        assert(0 <= k1 + 1 <= ts.len() && close_count(ts.subrange(0, k1 + 1)) > open_count(
            ts.subrange(0, k1 + 1),
        ));
    }
    if spec_parse(ts) == Err::<Seq<Ast>, ParseError>(ParseError::UnmatchedOpen) {
        lemma_run_no_unmatched_open(frame_init(), ts);
        match run(frame_init(), ts) {
            Ok(s) => {
                lemma_run_delta(frame_init(), ts);
            },
            Err(_) => {},
        }
    }
}

/// Unmatched open, attributed positively: an input that the machine
/// consumes without any token-level violation and with no operand left
/// pending — otherwise well-formed — but that opens more loops than it
/// closes, is rejected exactly with `UnmatchedOpen`.
pub proof fn lemma_excess_opens_unmatched_open(ts: Seq<Token>)
    requires
        run(frame_init(), ts) is Ok,
        (run(frame_init(), ts)->Ok_0).pending is None,
        open_count(ts) > close_count(ts),
    ensures
        spec_parse(ts) == Err::<Seq<Ast>, ParseError>(ParseError::UnmatchedOpen),
{
    lemma_run_delta(frame_init(), ts);
}

/// Unmatched close, attributed positively: an input that cleanly consumes
/// a bracket-balanced prefix with nothing pending and then meets a close
/// bracket is rejected exactly with `UnmatchedClose` — that close bracket
/// precedes any open that could match it.
pub proof fn lemma_balanced_prefix_close_unmatched(ts: Seq<Token>, k: int)
    requires
        0 <= k < ts.len(),
        ts[k] is Close,
        run(frame_init(), ts.subrange(0, k)) is Ok,
        (run(frame_init(), ts.subrange(0, k))->Ok_0).pending is None,
        open_count(ts.subrange(0, k)) == close_count(ts.subrange(0, k)),
    ensures
        spec_parse(ts) == Err::<Seq<Ast>, ParseError>(ParseError::UnmatchedClose),
{
    lemma_run_delta(frame_init(), ts.subrange(0, k));
    let s = run(frame_init(), ts.subrange(0, k))->Ok_0;
    // the balanced prefix leaves only the top-level frame on the stack
    assert(s.stack.len() == 1);
    assert(ts =~= ts.subrange(0, k) + ts.subrange(k, ts.len() as int));
    lemma_run_app(frame_init(), ts.subrange(0, k), ts.subrange(k, ts.len() as int));
    assert(ts.subrange(k, ts.len() as int)[0] == ts[k]);
    assert(step(s, ts[k]) == Err::<PState, ParseError>(ParseError::UnmatchedClose));
}

/// The machine itself never reports an unmatched open: that verdict is
/// only passed at the end of a whole run, by [`finish`].
proof fn lemma_run_no_unmatched_open(s: PState, ts: Seq<Token>)
    ensures
        run(s, ts) != Err::<PState, ParseError>(ParseError::UnmatchedOpen),
    decreases ts.len(),
{
    if ts.len() > 0 {
        match step(s, ts[0]) {
            Ok(s1) => {
                lemma_run_no_unmatched_open(s1, ts.drop_first());
            },
            Err(_) => {},
        }
    }
}

/// Operand requirement: a token sequence that ends right after a move or
/// duplicate token never parses. The error is `MissingOperand`, except
/// where a violation earlier in the sequence already failed the parse, in
/// which case that earlier failure stands unchanged.
pub proof fn lemma_trailing_operand_missing(ts: Seq<Token>)
    requires
        ts.len() > 0,
        ts.last() matches Token::Move(_) || ts.last() matches Token::Duplicate(_),
    ensures
        spec_parse(ts) is Err,
        spec_parse(ts) == (match spec_parse(ts.drop_last()) {
            Ok(_) => Err::<Seq<Ast>, ParseError>(ParseError::MissingOperand),
            Err(ParseError::UnmatchedOpen) => Err::<Seq<Ast>, ParseError>(
                ParseError::MissingOperand,
            ),
            Err(e) => Err::<Seq<Ast>, ParseError>(e),
        }),
{
    assert(ts =~= ts.drop_last() + seq![ts.last()]);
    lemma_run_app(frame_init(), ts.drop_last(), seq![ts.last()]);
    lemma_run_no_unmatched_open(frame_init(), ts.drop_last());
    match run(frame_init(), ts.drop_last()) {
        Ok(s) => {
            lemma_run_one(s, ts.last());
        },
        Err(_) => {},
    }
}

/// True of the nine instruction nodes that carry no payload.
pub open spec fn is_plain(a: Ast) -> bool {
    match a {
        Ast::Move(_, _) => false,
        Ast::Duplicate(_, _) => false,
        Ast::Loop(_) => false,
        _ => true,
    }
}

/// The spelling of a sequence of zero-payload instructions has one token
/// per instruction.
proof fn lemma_plain_tokens_len(body: Seq<Ast>)
    requires
        forall|k: int| 0 <= k < body.len() ==> is_plain(#[trigger] body[k]),
    ensures
        prog_tokens(body).len() == body.len(),
    decreases body.len(),
{
    if body.len() > 0 {
        assert forall|k: int| 0 <= k < body.drop_last().len() implies is_plain(
            #[trigger] body.drop_last()[k],
        ) by {
            assert(body.drop_last()[k] == body[k]);
        }
        lemma_plain_tokens_len(body.drop_last());
        assert(is_plain(body[body.len() - 1]));
        assert(ast_tokens(body.last()).len() == 1);
    }
}

/// A loop holding only zero-payload instructions parses to a single
/// `Loop` node whose body is exactly those instructions: same count, same
/// order — the bracketed spelling has one token per body instruction,
/// plus the two brackets.
pub proof fn lemma_plain_loop(body: Seq<Ast>)
    requires
        forall|k: int| 0 <= k < body.len() ==> is_plain(#[trigger] body[k]),
    ensures
        spec_parse(seq![Token::Open] + prog_tokens(body) + seq![Token::Close]) == Ok::<
            Seq<Ast>,
            ParseError,
        >(seq![Ast::Loop(body)]),
        prog_tokens(body).len() == body.len(),
{
    lemma_parse_round_trip(seq![Ast::Loop(body)]);
    assert(seq![Ast::Loop(body)].drop_last() =~= Seq::<Ast>::empty());
    assert(ast_tokens(Ast::Loop(body)) == seq![Token::Open] + prog_tokens(body) + seq![
        Token::Close,
    ]);
    assert(prog_tokens(Seq::<Ast>::empty()) == Seq::<Token>::empty());
    assert(seq![Ast::Loop(body)].last() == Ast::Loop(body));
    assert(prog_tokens(seq![Ast::Loop(body)]) == prog_tokens(seq![Ast::Loop(body)].drop_last())
        + ast_tokens(seq![Ast::Loop(body)].last()));
    assert(prog_tokens(seq![Ast::Loop(body)]) =~= seq![Token::Open] + prog_tokens(body) + seq![
        Token::Close,
    ]);
    lemma_plain_tokens_len(body);
}

} // verus!
