//! The push parser: pulls tokens from the lexer, applies token-driven
//! transitions on the [`Context`], and dispatches typed events to a
//! [`Handler`].
//!
//! The transition table is given mathematically by [`machine_step`] and
//! the dispatched events by [`events_of`]; `Parser::parse` is proved to
//! follow both over the token sequence of its input, with every
//! dispatched callback recorded in the handler's own ghost
//! [`Handler::observations`] log.

use crate::common::Context;
use crate::common::Enclosing;
use crate::common::Event;
use crate::common::Handler;
use crate::common::Observation;
use crate::common::ParserStatus;
use crate::common::Status;
use crate::common::count_of;
use crate::lexer::Lexed;
use crate::lexer::SpecLexed;
use crate::lexer::SpecToken;
use crate::lexer::TokenType;
use crate::lexer::lex_at;
use crate::lexer::token_at;
use crate::numbers::int_text_val;
use crate::numbers::is_int_text;
use crate::numbers::parse_i64;
use vstd::prelude::*;
use vstd::string::*;

verus! {

/// A parse error.
#[derive(Debug, PartialEq, Eq)]
pub enum ParseError {
    /// Bytes can't be decoded as UTF-8 to a string.
    Utf8Error(String),
    /// The json is malformed in some way: a missing closing brace or
    /// bracket, or a value that can't be parsed due to being malformed.
    MalformedJson(String),
    /// Error of the underlying reader.
    ReadError(String),
}

impl ParseError {
    /// The human-readable message carried by the error.
    pub fn message(&self) -> (r: &String)
        ensures
            self matches ParseError::Utf8Error(m) ==> r == m,
            self matches ParseError::MalformedJson(m) ==> r == m,
            self matches ParseError::ReadError(m) ==> r == m,
    {
        match self {
            ParseError::Utf8Error(m) => m,
            ParseError::MalformedJson(m) => m,
            ParseError::ReadError(m) => m,
        }
    }
}

/// The part of the parse state that the transition table acts on.
#[verifier::ext_equal]
pub ghost struct MachineState {
    pub stack: Seq<Enclosing>,
    pub status: ParserStatus,
}

/// The machine state held in a context.
pub open spec fn machine_of(ctx: Context) -> MachineState {
    MachineState { stack: ctx.stack@, status: ctx.status }
}

/// A status in which a value may begin.
pub open spec fn is_value_status(st: ParserStatus) -> bool {
    st == ParserStatus::Start || st == ParserStatus::MapNeedVal || st == ParserStatus::ArrayStart
        || st == ParserStatus::ArrayNeedVal
}

/// The status after accepting a scalar value in `st`.
pub open spec fn value_got_status(st: ParserStatus) -> ParserStatus
    recommends
        is_value_status(st),
{
    if st == ParserStatus::ArrayStart || st == ParserStatus::ArrayNeedVal {
        ParserStatus::ArrayGotVal
    } else if st == ParserStatus::MapNeedVal {
        ParserStatus::MapGotVal
    } else {
        ParserStatus::GotValue
    }
}

/// The status after closing an enclosing, read off the remaining stack.
pub open spec fn close_status(stack: Seq<Enclosing>) -> ParserStatus {
    if stack.len() == 0 {
        ParserStatus::GotValue
    } else if stack.last() == Enclosing::LeftBrace {
        ParserStatus::MapGotVal
    } else {
        ParserStatus::ArrayGotVal
    }
}

/// A status in which a string token is read as a map key.
pub open spec fn is_key_status(st: ParserStatus) -> bool {
    st == ParserStatus::MapStart || st == ParserStatus::MapNeedKey
}

/// The transition table: how one token takes the machine from `m` to
/// its next state. Combinations outside the table set
/// [`ParserStatus::LexicalError`] and leave the stack alone.
pub open spec fn machine_step(m: MachineState, t: SpecToken) -> MachineState {
    match t {
        SpecToken::LeftBrace => {
            if is_value_status(m.status) {
                MachineState {
                    stack: m.stack.push(Enclosing::LeftBrace),
                    status: ParserStatus::MapStart,
                }
            } else {
                MachineState { stack: m.stack, status: ParserStatus::LexicalError }
            }
        },
        SpecToken::LeftBracket => {
            if is_value_status(m.status) {
                MachineState {
                    stack: m.stack.push(Enclosing::LeftBracket),
                    status: ParserStatus::ArrayStart,
                }
            } else {
                MachineState { stack: m.stack, status: ParserStatus::LexicalError }
            }
        },
        SpecToken::RightBrace => {
            if m.stack.len() > 0 && m.stack.last() == Enclosing::LeftBrace {
                MachineState {
                    stack: m.stack.drop_last(),
                    status: close_status(m.stack.drop_last()),
                }
            } else {
                MachineState { stack: m.stack, status: ParserStatus::LexicalError }
            }
        },
        SpecToken::RightBracket => {
            if m.stack.len() > 0 && m.stack.last() == Enclosing::LeftBracket {
                MachineState {
                    stack: m.stack.drop_last(),
                    status: close_status(m.stack.drop_last()),
                }
            } else {
                MachineState { stack: m.stack, status: ParserStatus::LexicalError }
            }
        },
        SpecToken::Comma => {
            if m.status == ParserStatus::MapGotVal {
                MachineState { stack: m.stack, status: ParserStatus::MapNeedKey }
            } else if m.status == ParserStatus::ArrayGotVal {
                MachineState { stack: m.stack, status: ParserStatus::ArrayNeedVal }
            } else {
                MachineState { stack: m.stack, status: ParserStatus::LexicalError }
            }
        },
        SpecToken::Colon => {
            if m.status == ParserStatus::MapSep {
                MachineState { stack: m.stack, status: ParserStatus::MapNeedVal }
            } else {
                MachineState { stack: m.stack, status: ParserStatus::LexicalError }
            }
        },
        SpecToken::String(v) => {
            if is_key_status(m.status) {
                MachineState { stack: m.stack, status: ParserStatus::MapSep }
            } else if is_value_status(m.status) {
                MachineState { stack: m.stack, status: value_got_status(m.status) }
            } else {
                MachineState { stack: m.stack, status: ParserStatus::LexicalError }
            }
        },
        _ => {
            // null, true, false and numbers are scalar values
            if is_value_status(m.status) {
                MachineState { stack: m.stack, status: value_got_status(m.status) }
            } else {
                MachineState { stack: m.stack, status: ParserStatus::LexicalError }
            }
        },
    }
}

/// The events that processing `t` in state `m` dispatches: one for a
/// token the table accepts, none for separators and refused tokens.
pub open spec fn events_of(m: MachineState, t: SpecToken) -> Seq<Event> {
    match t {
        SpecToken::LeftBrace => {
            if is_value_status(m.status) {
                seq![Event::StartMap]
            } else {
                seq![]
            }
        },
        SpecToken::LeftBracket => {
            if is_value_status(m.status) {
                seq![Event::StartArray]
            } else {
                seq![]
            }
        },
        SpecToken::RightBrace => {
            if m.stack.len() > 0 && m.stack.last() == Enclosing::LeftBrace {
                seq![Event::EndMap]
            } else {
                seq![]
            }
        },
        SpecToken::RightBracket => {
            if m.stack.len() > 0 && m.stack.last() == Enclosing::LeftBracket {
                seq![Event::EndArray]
            } else {
                seq![]
            }
        },
        SpecToken::Comma => seq![],
        SpecToken::Colon => seq![],
        SpecToken::Null => {
            if is_value_status(m.status) {
                seq![Event::Null]
            } else {
                seq![]
            }
        },
        SpecToken::BoolTrue => {
            if is_value_status(m.status) {
                seq![Event::Bool(true)]
            } else {
                seq![]
            }
        },
        SpecToken::BoolFalse => {
            if is_value_status(m.status) {
                seq![Event::Bool(false)]
            } else {
                seq![]
            }
        },
        SpecToken::Number(v) => {
            if is_value_status(m.status) {
                if is_int_text(v) && i64::MIN <= int_text_val(v) <= i64::MAX {
                    seq![Event::Int(int_text_val(v))]
                } else {
                    seq![Event::Double(vstd::utf8::decode_utf8(v))]
                }
            } else {
                seq![]
            }
        },
        SpecToken::String(v) => {
            if is_key_status(m.status) {
                seq![Event::MapKey(vstd::utf8::decode_utf8(v))]
            } else if is_value_status(m.status) {
                seq![Event::Str(vstd::utf8::decode_utf8(v))]
            } else {
                seq![]
            }
        },
    }
}

/// The machine state after a run of tokens.
pub open spec fn fold_machine(m: MachineState, toks: Seq<SpecToken>) -> MachineState
    decreases toks.len(),
{
    if toks.len() == 0 {
        m
    } else {
        fold_machine(machine_step(m, toks[0]), toks.skip(1))
    }
}

/// The events a run of tokens dispatches.
pub open spec fn fold_events(m: MachineState, toks: Seq<SpecToken>) -> Seq<Event>
    decreases toks.len(),
{
    if toks.len() == 0 {
        seq![]
    } else {
        events_of(m, toks[0]) + fold_events(machine_step(m, toks[0]), toks.skip(1))
    }
}

/// Folding one more token steps the folded state once more, and
/// appends at most one more dispatched callback.
pub proof fn lemma_fold_machine_snoc(m: MachineState, toks: Seq<SpecToken>, t: SpecToken)
    ensures
        fold_machine(m, toks.push(t)) == machine_step(fold_machine(m, toks), t),
        fold_events(m, toks.push(t)) == fold_events(m, toks) + events_of(
            fold_machine(m, toks),
            t,
        ),
        expected_obs(m, toks.push(t)) == expected_obs(m, toks) + obs_of_step(
            fold_machine(m, toks),
            t,
        ),
    decreases toks.len(),
{
    if toks.len() == 0 {
        let p = toks.push(t);
        assert(p.len() == 1);
        assert(p[0] == t);
        assert(p.skip(1) =~= Seq::<SpecToken>::empty());
        assert(fold_machine(m, p) == fold_machine(machine_step(m, t), p.skip(1)));
        assert(fold_machine(m, p) == machine_step(m, t));
        assert(fold_events(m, p) == events_of(m, t) + fold_events(machine_step(m, t), p.skip(1)));
        assert(fold_events(m, p) =~= events_of(m, t));
        assert(fold_events(m, toks) + events_of(fold_machine(m, toks), t) =~= events_of(m, t));
        assert(expected_obs(m, p) == obs_of_step(m, t) + expected_obs(machine_step(m, t), p.skip(1)));
        assert(expected_obs(m, p) =~= obs_of_step(m, t));
        assert(expected_obs(m, toks) + obs_of_step(fold_machine(m, toks), t) =~= obs_of_step(m, t));
    } else {
        assert(toks.push(t)[0] == toks[0]);
        assert(toks.push(t).skip(1) =~= toks.skip(1).push(t));
        lemma_fold_machine_snoc(machine_step(m, toks[0]), toks.skip(1), t);
        assert(fold_events(m, toks.push(t)) =~= fold_events(m, toks) + events_of(
            fold_machine(m, toks),
            t,
        ));
        assert(expected_obs(m, toks.push(t)) =~= expected_obs(m, toks) + obs_of_step(
            fold_machine(m, toks),
            t,
        ));
    }
}

/// The sequence of tokens that the lexer yields from offset `pos` on.
pub open spec fn tokens_from(s: Seq<u8>, pos: int) -> Seq<SpecToken>
    recommends
        0 <= pos <= s.len(),
    decreases s.len() - pos,
{
    match lex_at(s, pos) {
        SpecLexed::Token(t, n) => {
            if pos < n <= s.len() {
                seq![t] + tokens_from(s, n)
            } else {
                seq![t]
            }
        },
        _ => seq![],
    }
}

/// What the lexer reports after its last token: the clean end of the
/// input, a truncated token, or an unreadable byte.
pub open spec fn tail_outcome(s: Seq<u8>, pos: int) -> SpecLexed
    recommends
        0 <= pos <= s.len(),
    decreases s.len() - pos,
{
    match lex_at(s, pos) {
        SpecLexed::Token(t, n) => {
            if pos < n <= s.len() {
                tail_outcome(s, n)
            } else {
                SpecLexed::Invalid
            }
        },
        outcome => outcome,
    }
}

/// How many events of `evs` equal `e`.
pub open spec fn count_events(evs: Seq<Event>, e: Event) -> nat
    decreases evs.len(),
{
    if evs.len() == 0 {
        0
    } else {
        count_events(evs.drop_last(), e) + if evs.last() == e {
            1nat
        } else {
            0nat
        }
    }
}

/// Main parser struct. It owns the handler and the [`Context`]; the
/// handler can be read back through the `handler` field once parsing is
/// done. What the parse dispatched is recorded on the handler itself,
/// in its ghost [`Handler::observations`] log.
pub struct Parser<H> {
    /// The handler that receives the events.
    pub handler: H,
    /// Where the parse stands.
    pub context: Context,
}

impl<H: Handler> Parser<H> {
    /// The context counters stay in step with its stack.
    pub open spec fn wf(&self) -> bool {
        self.context.wf()
    }

    /// Construct a new parser from a handler.
    pub fn new(handler: H) -> (r: Self)
        ensures
            r.wf(),
            r.handler == handler,
            r.context.status == ParserStatus::Start,
            r.context.stack@ == Seq::<Enclosing>::empty(),
            r.context.num_open_braces == 0,
            r.context.num_open_brackets == 0,
    {
        Parser { handler, context: Context::default() }
    }

    /// Parse has already returned after consuming all input. This
    /// method checks that there were the right number of closing braces
    /// and brackets: it succeeds exactly when the parse reached
    /// [`ParserStatus::ParseComplete`] with both counters zero.
    pub fn finish_parse(&self) -> (r: Result<(), ParseError>)
        ensures
            r is Ok <==> self.context.status == ParserStatus::ParseComplete
                && self.context.num_open_braces == 0 && self.context.num_open_brackets == 0,
            r matches Result::Err(e) ==> e is MalformedJson,
    {
        if self.context.parser_status() != ParserStatus::ParseComplete {
            return Err(ParseError::MalformedJson(("did not reach a complete parse").to_owned()));
        }
        if self.context.num_open_braces() != 0 {
            return Err(ParseError::MalformedJson(("open braces remain").to_owned()));
        }
        if self.context.num_open_brackets() != 0 {
            return Err(ParseError::MalformedJson(("open brackets remain").to_owned()));
        }
        Ok(())
    }

    /// Parse `input` until it is exhausted, the handler returns
    /// [`Status::Abort`], or an error is found: a token that no
    /// transition of [`machine_step`] accepts, an input that ends
    /// inside a token or at a byte no token can start with, or token
    /// text that is not UTF-8.
    ///
    /// The context follows the transition table over the tokens of
    /// `input`, and the handler's ghost [`Handler::observations`] log
    /// records every dispatched callback with the context it was shown
    /// and the status it answered, as [`parse_outcome`] states
    /// precisely.
    ///
    /// # Errors
    ///    - Returns an error `Result` if the json is malformed.
    pub fn parse(&mut self, input: &[u8]) -> (r: Result<(), ParseError>)
        requires
            old(self).wf(),
        ensures
            final (self).wf(),
            r is Ok ==> exists|k: int|
                0 <= k <= tokens_from(input@, 0).len() && #[trigger] parse_outcome(
                    machine_of(old(self).context),
                    old(self).handler.observations(),
                    tokens_from(input@, 0),
                    tail_outcome(input@, 0),
                    k,
                    final (self).context,
                    final (self).handler.observations(),
                    true,
                ),
            r is Err ==> exists|k: int|
                0 <= k <= tokens_from(input@, 0).len() && #[trigger] parse_outcome(
                    machine_of(old(self).context),
                    old(self).handler.observations(),
                    tokens_from(input@, 0),
                    tail_outcome(input@, 0),
                    k,
                    final (self).context,
                    final (self).handler.observations(),
                    false,
                ),
            machine_of(old(self).context).status != ParserStatus::LexicalError && clean_steps(
                machine_of(old(self).context),
                tokens_from(input@, 0),
            ) && tokens_text_ok(tokens_from(input@, 0)) && tail_outcome(input@, 0)
                is End ==> r is Ok,
            r matches Result::Err(e) && e is Utf8Error ==> !tokens_text_ok(
                tokens_from(input@, 0),
            ),
            r matches Result::Err(e) && e is MalformedJson ==> final (self).context.status
                == ParserStatus::LexicalError || tail_outcome(input@, 0) is Incomplete
                || tail_outcome(input@, 0) is Invalid,
    {
        let ghost m0 = machine_of(old(self).context);
        let ghost obs0 = old(self).handler.observations();
        let ghost toks = tokens_from(input@, 0);
        let ghost tail = tail_outcome(input@, 0);
        let mut pos: usize = 0;
        let ghost mut processed = Seq::<SpecToken>::empty();
        proof {
            assert(toks.take(0) =~= Seq::<SpecToken>::empty());
            assert(processed + tokens_from(input@, 0) =~= tokens_from(input@, 0));
            assert(self.handler.observations().take(obs0.len() as int) =~= obs0);
            assert(self.handler.observations().skip(obs0.len() as int) =~= Seq::<
                Observation,
            >::empty());
            assert(obs_match(
                expected_obs(m0, processed),
                self.handler.observations().skip(obs0.len() as int),
            ));
        }
        loop
            invariant
                self.wf(),
                pos <= input@.len(),
                machine_of(self.context) == fold_machine(m0, processed),
                self.handler.observations().len() >= obs0.len(),
                self.handler.observations().take(obs0.len() as int) == obs0,
                obs_match(
                    expected_obs(m0, processed),
                    self.handler.observations().skip(obs0.len() as int),
                ),
                all_continue(self.handler.observations().skip(obs0.len() as int)),
                self.context.status != ParserStatus::LexicalError ==> clean_steps(m0, processed),
                toks == processed + tokens_from(input@, pos as int),
                tail == tail_outcome(input@, pos as int),
                processed.len() > 0 ==> self.context.status != ParserStatus::ParseComplete,
                toks == tokens_from(input@, 0),
                tail == tail_outcome(input@, 0),
                m0 == machine_of(old(self).context),
                obs0 == old(self).handler.observations(),
            decreases input@.len() - pos,
        {
            proof {
                assert(toks.take(processed.len() as int) =~= processed);
            }
            let st = self.context.parser_status();
            if st == ParserStatus::ParseComplete {
                proof {
                    assert(parse_outcome(
                        m0,
                        obs0,
                        toks,
                        tail,
                        processed.len() as int,
                        self.context,
                        self.handler.observations(),
                        true,
                    ));
                }
                return Ok(());
            }
            if st == ParserStatus::LexicalError {
                proof {
                    if m0.status != ParserStatus::LexicalError && clean_steps(m0, toks)
                        && tokens_text_ok(toks) && (tail is End) {
                        // a clean run can reach no refused transition
                        let k = processed.len() as int;
                        if k == 0 {
                            assert(fold_machine(m0, processed) == m0);
                        } else {
                            assert(toks.take(k - 1).push(toks[k - 1]) =~= toks.take(k));
                            lemma_fold_machine_snoc(m0, toks.take(k - 1), toks[k - 1]);
                            assert(machine_step(
                                fold_machine(m0, toks.take(k - 1)),
                                toks[k - 1],
                            ).status != ParserStatus::LexicalError);
                        }
                        assert(false);
                    }
                    assert(parse_outcome(
                        m0,
                        obs0,
                        toks,
                        tail,
                        processed.len() as int,
                        self.context,
                        self.handler.observations(),
                        false,
                    ));
                }
                return Err(ParseError::MalformedJson(("parse failed due to malformed json").to_owned()));
            }
            match token_at(input, pos) {
                Lexed::End => {
                    proof {
                        assert(tokens_from(input@, pos as int) =~= Seq::<SpecToken>::empty());
                        assert(toks =~= processed);
                    }
                    self.context.update_status(ParserStatus::ParseComplete);
                    proof {
                        assert(parse_outcome(
                            m0,
                            obs0,
                            toks,
                            tail,
                            processed.len() as int,
                            self.context,
                            self.handler.observations(),
                            true,
                        ));
                    }
                    return Ok(());
                },
                Lexed::Incomplete => {
                    proof {
                        assert(parse_outcome(
                            m0,
                            obs0,
                            toks,
                            tail,
                            processed.len() as int,
                            self.context,
                            self.handler.observations(),
                            false,
                        ));
                    }
                    return Err(ParseError::MalformedJson(("input ends inside a token").to_owned()));
                },
                Lexed::Invalid => {
                    proof {
                        assert(parse_outcome(
                            m0,
                            obs0,
                            toks,
                            tail,
                            processed.len() as int,
                            self.context,
                            self.handler.observations(),
                            false,
                        ));
                    }
                    return Err(ParseError::MalformedJson(("no token can start here").to_owned()));
                },
                Lexed::Token(tok, n) => {
                    proof {
                        assert(tokens_from(input@, pos as int) == seq![tok@] + tokens_from(
                            input@,
                            n as int,
                        ));
                        assert(tail_outcome(input@, pos as int) == tail_outcome(input@, n as int));
                    }
                    let ghost pre_ctx = self.context;
                    let ghost pre_obs = self.handler.observations();
                    let ghost mpre = fold_machine(m0, processed);
                    let outcome = self.process_token(&tok);
                    match outcome {
                        TokenOutcome::BadUtf8 => {
                            proof {
                                let k = processed.len() as int;
                                assert(toks[k] == (seq![tok@] + tokens_from(input@, n as int))[0]);
                                assert(toks[k] == tok@);
                                assert(!tokens_text_ok(toks));
                                assert(parse_outcome(
                                    m0,
                                    obs0,
                                    toks,
                                    tail,
                                    processed.len() as int,
                                    self.context,
                                    self.handler.observations(),
                                    false,
                                ));
                            }
                            return Err(ParseError::Utf8Error(
                                ("token text is not valid utf-8").to_owned(),
                            ));
                        },
                        TokenOutcome::Abort => {
                            proof {
                                lemma_fold_machine_snoc(m0, processed, tok@);
                                lemma_dispatch_accepted(mpre, tok@);
                                lemma_clean_snoc(m0, processed, tok@);
                                let ghost o = Observation {
                                    context: pre_ctx,
                                    event: events_of(mpre, tok@)[0],
                                    response: Status::Abort,
                                };
                                assert(self.handler.observations() == pre_obs.push(o));
                                let ghost fresh = pre_obs.skip(obs0.len() as int);
                                assert(expected_obs(m0, processed.push(tok@)) =~= expected_obs(
                                    m0,
                                    processed,
                                ).push((mpre, events_of(mpre, tok@)[0])));
                                lemma_obs_match_push(
                                    expected_obs(m0, processed),
                                    fresh,
                                    mpre,
                                    events_of(mpre, tok@)[0],
                                    o,
                                );
                                processed = processed.push(tok@);
                                assert(toks.take(processed.len() as int) =~= processed);
                                assert(toks =~= processed + tokens_from(input@, n as int));
                                assert(pre_obs.push(o).skip(obs0.len() as int) =~= fresh.push(o));
                                assert(pre_obs.push(o).take(obs0.len() as int) =~= obs0);
                                assert(fresh.push(o).drop_last() =~= fresh);
                                assert(continue_then_abort(fresh.push(o)));
                                assert(parse_outcome(
                                    m0,
                                    obs0,
                                    toks,
                                    tail,
                                    processed.len() as int,
                                    self.context,
                                    self.handler.observations(),
                                    true,
                                ));
                            }
                            return Ok(());
                        },
                        TokenOutcome::Continue => {
                            proof {
                                lemma_fold_machine_snoc(m0, processed, tok@);
                                lemma_step_not_complete(mpre, tok@);
                                if machine_step(mpre, tok@).status != ParserStatus::LexicalError {
                                    lemma_clean_snoc(m0, processed, tok@);
                                }
                                let ghost fresh = pre_obs.skip(obs0.len() as int);
                                if events_of(mpre, tok@).len() == 1 {
                                    let ghost o = Observation {
                                        context: pre_ctx,
                                        event: events_of(mpre, tok@)[0],
                                        response: Status::Continue,
                                    };
                                    assert(self.handler.observations() == pre_obs.push(o));
                                    assert(expected_obs(m0, processed.push(tok@)) =~= expected_obs(
                                        m0,
                                        processed,
                                    ).push((mpre, events_of(mpre, tok@)[0])));
                                    lemma_obs_match_push(
                                        expected_obs(m0, processed),
                                        fresh,
                                        mpre,
                                        events_of(mpre, tok@)[0],
                                        o,
                                    );
                                    assert(pre_obs.push(o).skip(obs0.len() as int) =~= fresh.push(
                                        o,
                                    ));
                                    assert(pre_obs.push(o).take(obs0.len() as int) =~= obs0);
                                    lemma_all_continue_push(fresh, o);
                                } else {
                                    assert(self.handler.observations() == pre_obs);
                                    assert(expected_obs(m0, processed.push(tok@)) =~= expected_obs(
                                        m0,
                                        processed,
                                    ));
                                }
                                processed = processed.push(tok@);
                                assert(toks =~= processed + tokens_from(input@, n as int));
                            }
                            pos = n;
                        },
                    }
                },
            }
        }
    }

    /// Dispatch the one callback of one token to the handler and apply
    /// the token's transition: afterwards the context holds
    /// [`machine_step`] of its old state, and the handler has observed
    /// [`events_of`]'s event under the context before the transition. A
    /// token whose text cannot be decoded dispatches nothing and
    /// changes nothing.
    fn process_token(&mut self, tok: &TokenType) -> (r: TokenOutcome)
        requires
            old(self).wf(),
        ensures
            final (self).wf(),
            r is BadUtf8 ==> final (self).context == old(self).context && final (self).handler.observations() == old(self).handler.observations() && match tok@ {
                SpecToken::String(v) => !vstd::utf8::valid_utf8(v),
                SpecToken::Number(v) => !vstd::utf8::valid_utf8(v),
                _ => false,
            },
            !(r is BadUtf8) ==> {
                let m = machine_of(old(self).context);
                let stepped = machine_step(m, tok@);
                &&& final (self).context.stack@ == stepped.stack
                &&& final (self).context.status == stepped.status
                &&& events_of(m, tok@).len() == 1 ==> final (self).handler.observations() == old(self).handler.observations().push(
                    Observation {
                        context: old(self).context,
                        event: events_of(m, tok@)[0],
                        response: if r is Abort {
                            Status::Abort
                        } else {
                            Status::Continue
                        },
                    },
                )
                &&& events_of(m, tok@).len() == 0 ==> final (self).handler.observations() == old(self).handler.observations()
                &&& (r is Abort ==> events_of(m, tok@).len() == 1)
            },
    {
        let ghost m = machine_of(old(self).context);
        let st = self.context.parser_status();
        match tok {
            TokenType::LeftBrace => {
                if value_status(st) {
                    let hs = self.handler.handle_start_map(&self.context);
                    self.context.push_enclosing(Enclosing::LeftBrace);
                    self.context.update_status(ParserStatus::MapStart);
                    outcome_of(hs)
                } else {
                    self.refuse()
                }
            },
            TokenType::LeftBracket => {
                if value_status(st) {
                    let hs = self.handler.handle_start_array(&self.context);
                    self.context.push_enclosing(Enclosing::LeftBracket);
                    self.context.update_status(ParserStatus::ArrayStart);
                    outcome_of(hs)
                } else {
                    self.refuse()
                }
            },
            TokenType::RightBrace => {
                let matched = match self.context.last_enclosing() {
                    Option::Some(Enclosing::LeftBrace) => true,
                    _ => false,
                };
                if matched {
                    let hs = self.handler.handle_end_map(&self.context);
                    self.context.pop_enclosing(Enclosing::LeftBrace);
                    let after = self.close_status_now();
                    self.context.update_status(after);
                    outcome_of(hs)
                } else {
                    self.refuse()
                }
            },
            TokenType::RightBracket => {
                let matched = match self.context.last_enclosing() {
                    Option::Some(Enclosing::LeftBracket) => true,
                    _ => false,
                };
                if matched {
                    let hs = self.handler.handle_end_array(&self.context);
                    self.context.pop_enclosing(Enclosing::LeftBracket);
                    let after = self.close_status_now();
                    self.context.update_status(after);
                    outcome_of(hs)
                } else {
                    self.refuse()
                }
            },
            TokenType::Comma => {
                if st == ParserStatus::MapGotVal {
                    self.context.update_status(ParserStatus::MapNeedKey);
                    TokenOutcome::Continue
                } else if st == ParserStatus::ArrayGotVal {
                    self.context.update_status(ParserStatus::ArrayNeedVal);
                    TokenOutcome::Continue
                } else {
                    self.refuse()
                }
            },
            TokenType::Colon => {
                if st == ParserStatus::MapSep {
                    self.context.update_status(ParserStatus::MapNeedVal);
                    TokenOutcome::Continue
                } else {
                    self.refuse()
                }
            },
            TokenType::Null => {
                if value_status(st) {
                    let hs = self.handler.handle_null(&self.context);
                    self.context.update_status(got_value_status(st));
                    outcome_of(hs)
                } else {
                    self.refuse()
                }
            },
            TokenType::BoolTrue => {
                if value_status(st) {
                    let hs = self.handler.handle_bool(&self.context, true);
                    self.context.update_status(got_value_status(st));
                    outcome_of(hs)
                } else {
                    self.refuse()
                }
            },
            TokenType::BoolFalse => {
                if value_status(st) {
                    let hs = self.handler.handle_bool(&self.context, false);
                    self.context.update_status(got_value_status(st));
                    outcome_of(hs)
                } else {
                    self.refuse()
                }
            },
            TokenType::Number(v) => {
                if value_status(st) {
                    let hs = match parse_i64(v.as_slice()) {
                        Option::Some(i) => {
                            self.handler.handle_int(&self.context, i)
                        },
                        Option::None => {
                            match bytes_as_str(v.as_slice()) {
                                Option::Some(text) => {
                                    self.handler.handle_double(&self.context, text)
                                },
                                Option::None => {
                                    return TokenOutcome::BadUtf8;
                                },
                            }
                        },
                    };
                    self.context.update_status(got_value_status(st));
                    outcome_of(hs)
                } else {
                    self.refuse()
                }
            },
            TokenType::String(v) => {
                if st == ParserStatus::MapStart || st == ParserStatus::MapNeedKey {
                    match bytes_as_str(v.as_slice()) {
                        Option::Some(text) => {
                            let hs = self.handler.handle_map_key(&self.context, text);
                            self.context.update_status(ParserStatus::MapSep);
                            outcome_of(hs)
                        },
                        Option::None => TokenOutcome::BadUtf8,
                    }
                } else if value_status(st) {
                    match bytes_as_str(v.as_slice()) {
                        Option::Some(text) => {
                            let hs = self.handler.handle_string(&self.context, text);
                            self.context.update_status(got_value_status(st));
                            outcome_of(hs)
                        },
                        Option::None => TokenOutcome::BadUtf8,
                    }
                } else {
                    self.refuse()
                }
            },
        }
    }

    /// The status that closing an enclosing leaves, read off the top of
    /// the remaining stack.
    fn close_status_now(&self) -> (r: ParserStatus)
        ensures
            r == close_status(self.context.stack@),
    {
        match self.context.last_enclosing() {
            Option::Some(Enclosing::LeftBrace) => ParserStatus::MapGotVal,
            Option::Some(Enclosing::LeftBracket) => ParserStatus::ArrayGotVal,
            Option::None => ParserStatus::GotValue,
        }
    }

    /// Refuse a token that the table has no transition for: the status
    /// becomes [`ParserStatus::LexicalError`], nothing is dispatched.
    fn refuse(&mut self) -> (r: TokenOutcome)
        ensures
            final (self).context.stack == old(self).context.stack,
            final (self).context.status == ParserStatus::LexicalError,
            final (self).context.num_open_braces == old(self).context.num_open_braces,
            final (self).context.num_open_brackets == old(self).context.num_open_brackets,
            final (self).handler == old(self).handler,
            r is Continue,
    {
        self.context.update_status(ParserStatus::LexicalError);
        TokenOutcome::Continue
    }
}

/// Translate the handler's answer into the token's outcome.
fn outcome_of(hs: Status) -> (r: TokenOutcome)
    ensures
        !(r is BadUtf8),
        r is Abort <==> hs == Status::Abort,
{
    match hs {
        Status::Continue => TokenOutcome::Continue,
        Status::Abort => TokenOutcome::Abort,
    }
}

/// No token of the run is refused: from `m0` on, each token of `toks`
/// has a transition in the table.
pub open spec fn clean_steps(m0: MachineState, toks: Seq<SpecToken>) -> bool {
    forall|k: int|
        0 <= k < toks.len() ==> #[trigger] machine_step(
            fold_machine(m0, toks.take(k)),
            toks[k],
        ).status != ParserStatus::LexicalError
}

/// Every string and numeric token of `toks` carries valid UTF-8 text.
pub open spec fn tokens_text_ok(toks: Seq<SpecToken>) -> bool {
    forall|k: int|
        0 <= k < toks.len() ==> match #[trigger] toks[k] {
            SpecToken::String(v) => vstd::utf8::valid_utf8(v),
            SpecToken::Number(v) => vstd::utf8::valid_utf8(v),
            _ => true,
        }
}

/// The one callback a token dispatches, as the machine state the
/// handler observes (the state before the token's transition) paired
/// with the event; separators and refused tokens dispatch none.
pub open spec fn obs_of_step(m: MachineState, t: SpecToken) -> Seq<(MachineState, Event)> {
    if events_of(m, t).len() == 1 {
        seq![(m, events_of(m, t)[0])]
    } else {
        seq![]
    }
}

/// The callbacks a token run dispatches: each accepted token's event,
/// paired with the machine state shown to the handler.
pub open spec fn expected_obs(m: MachineState, toks: Seq<SpecToken>) -> Seq<(MachineState, Event)>
    decreases toks.len(),
{
    if toks.len() == 0 {
        seq![]
    } else {
        obs_of_step(m, toks[0]) + expected_obs(machine_step(m, toks[0]), toks.skip(1))
    }
}

/// Whether the handler's observations record exactly these machine
/// states and events: each context shown was well formed and stood at
/// the paired state (with [`Context::wf`], that also pins the counters
/// the handler read).
pub open spec fn obs_match(pairs: Seq<(MachineState, Event)>, obs: Seq<Observation>) -> bool {
    &&& obs.len() == pairs.len()
    &&& forall|i: int|
        0 <= i < obs.len() ==> {
            &&& (#[trigger] obs[i]).context.wf()
            &&& obs[i].context.stack@ == pairs[i].0.stack
            &&& obs[i].context.status == pairs[i].0.status
            &&& obs[i].event == pairs[i].1
        }
}

/// Every response among the observations is [`Status::Continue`].
pub open spec fn all_continue(obs: Seq<Observation>) -> bool {
    forall|i: int| 0 <= i < obs.len() ==> (#[trigger] obs[i]).response == Status::Continue
}

/// Every response is [`Status::Continue`] but the last, which is
/// [`Status::Abort`].
pub open spec fn continue_then_abort(obs: Seq<Observation>) -> bool {
    &&& obs.len() > 0
    &&& all_continue(obs.drop_last())
    &&& obs.last().response == Status::Abort
}

/// What one call of [`Parser::parse`] did, witnessed by the number `k`
/// of tokens it processed: the context went through the transitions of
/// the first `k` tokens, and the handler's observation log grew by
/// exactly those tokens' callbacks, each showing the machine state at
/// its dispatch. The call ended in one of three ways. Either the
/// handler answered `Abort` at the last callback, and the call
/// returned `Ok`; or every answer was `Continue` and the call returned
/// an error with the machine state as the transitions left it; or
/// every answer was `Continue`, the whole input was consumed through a
/// run the table accepts, the status was set to
/// [`ParserStatus::ParseComplete`], and the call returned `Ok` (a
/// parser already complete when called returns at once).
pub open spec fn parse_outcome(
    m0: MachineState,
    obs0: Seq<Observation>,
    toks: Seq<SpecToken>,
    tail: SpecLexed,
    k: int,
    ctx: Context,
    obs_final: Seq<Observation>,
    ok: bool,
) -> bool
    recommends
        0 <= k <= toks.len(),
{
    let m = fold_machine(m0, toks.take(k));
    let fresh = obs_final.skip(obs0.len() as int);
    &&& obs_final.len() >= obs0.len()
    &&& obs_final.take(obs0.len() as int) == obs0
    &&& obs_match(expected_obs(m0, toks.take(k)), fresh)
    &&& ctx.stack@ == m.stack
    &&& {
        ||| (ok && continue_then_abort(fresh) && ctx.status == m.status && clean_steps(
            m0,
            toks.take(k),
        ))
        ||| (!ok && all_continue(fresh) && ctx.status == m.status && m.status
            != ParserStatus::ParseComplete)
        ||| (ok && all_continue(fresh) && ctx.status == ParserStatus::ParseComplete && clean_steps(
            m0,
            toks.take(k),
        ) && ((m0.status == ParserStatus::ParseComplete && k == 0) || (k == toks.len() && tail
            is End)))
    }
}

/// A clean run stays clean when one more accepted token follows.
proof fn lemma_clean_snoc(m: MachineState, toks: Seq<SpecToken>, t: SpecToken)
    requires
        clean_steps(m, toks),
        machine_step(fold_machine(m, toks), t).status != ParserStatus::LexicalError,
    ensures
        clean_steps(m, toks.push(t)),
{
    assert forall|k: int| 0 <= k < toks.push(t).len() implies #[trigger] machine_step(
        fold_machine(m, toks.push(t).take(k)),
        toks.push(t)[k],
    ).status != ParserStatus::LexicalError by {
        if k < toks.len() {
            assert(toks.push(t).take(k) =~= toks.take(k));
            assert(toks.push(t)[k] == toks[k]);
            assert(machine_step(fold_machine(m, toks.take(k)), toks[k]).status
                != ParserStatus::LexicalError);
        } else {
            assert(toks.push(t).take(k) =~= toks);
            assert(toks.push(t)[k] == t);
        }
    }
}

/// A token that dispatches a callback is one the table accepts.
proof fn lemma_dispatch_accepted(m: MachineState, t: SpecToken)
    requires
        events_of(m, t).len() == 1,
    ensures
        machine_step(m, t).status != ParserStatus::LexicalError,
{
}

/// Matched observations extend one callback at a time.
proof fn lemma_obs_match_push(
    pairs: Seq<(MachineState, Event)>,
    obs: Seq<Observation>,
    m: MachineState,
    e: Event,
    o: Observation,
)
    requires
        obs_match(pairs, obs),
        o.context.wf(),
        o.context.stack@ == m.stack,
        o.context.status == m.status,
        o.event == e,
    ensures
        obs_match(pairs.push((m, e)), obs.push(o)),
{
    assert forall|i: int| 0 <= i < obs.push(o).len() implies {
        &&& (#[trigger] obs.push(o)[i]).context.wf()
        &&& obs.push(o)[i].context.stack@ == pairs.push((m, e))[i].0.stack
        &&& obs.push(o)[i].context.status == pairs.push((m, e))[i].0.status
        &&& obs.push(o)[i].event == pairs.push((m, e))[i].1
    } by {
        if i < obs.len() {
            assert(obs.push(o)[i] == obs[i]);
            assert(pairs.push((m, e))[i] == pairs[i]);
            assert(obs[i].context.wf() && obs[i].context.stack@ == pairs[i].0.stack && obs[i].context.status == pairs[i].0.status && obs[i].event == pairs[i].1);
        } else {
            assert(obs.push(o)[i] == o);
            assert(pairs.push((m, e))[i] == (m, e));
        }
    }
}

/// Continuing responses stay continuing when one more is appended.
proof fn lemma_all_continue_push(obs: Seq<Observation>, o: Observation)
    requires
        all_continue(obs),
        o.response == Status::Continue,
    ensures
        all_continue(obs.push(o)),
{
    assert forall|i: int| 0 <= i < obs.push(o).len() implies (#[trigger] obs.push(o)[i]).response
        == Status::Continue by {
        if i < obs.len() {
            assert(obs.push(o)[i] == obs[i]);
            assert(obs[i].response == Status::Continue);
        } else {
            assert(obs.push(o)[i] == o);
        }
    }
}

/// The machine state of a parse that has seen no input.
pub open spec fn initial_machine() -> MachineState {
    MachineState { stack: Seq::empty(), status: ParserStatus::Start }
}

/// Counting distributes over concatenation.
proof fn lemma_count_events_concat(a: Seq<Event>, b: Seq<Event>, e: Event)
    ensures
        count_events(a + b, e) == count_events(a, e) + count_events(b, e),
    decreases b.len(),
{
    if b.len() == 0 {
        assert(a + b =~= a);
    } else {
        lemma_count_events_concat(a, b.drop_last(), e);
        assert((a + b).drop_last() =~= a + b.drop_last());
        assert((a + b).last() == b.last());
    }
}

/// A run of the machine keeps its event counts and its stack in step:
/// the count of `start_map` events minus the count of `end_map` events
/// equals the growth in open braces on the stack, and likewise for
/// arrays.
#[verifier::rlimit(50)]
proof fn lemma_fold_event_counts(m: MachineState, toks: Seq<SpecToken>)
    ensures
        count_events(fold_events(m, toks), Event::StartMap) + count_of(
            m.stack,
            Enclosing::LeftBrace,
        ) == count_events(fold_events(m, toks), Event::EndMap) + count_of(
            fold_machine(m, toks).stack,
            Enclosing::LeftBrace,
        ),
        count_events(fold_events(m, toks), Event::StartArray) + count_of(
            m.stack,
            Enclosing::LeftBracket,
        ) == count_events(fold_events(m, toks), Event::EndArray) + count_of(
            fold_machine(m, toks).stack,
            Enclosing::LeftBracket,
        ),
    decreases toks.len(),
{
    if toks.len() > 0 {
        let t = toks[0];
        let m1 = machine_step(m, t);
        let ev = events_of(m, t);
        assert(fold_events(m, toks) == ev + fold_events(m1, toks.skip(1)));
        assert(fold_machine(m, toks) == fold_machine(m1, toks.skip(1)));
        lemma_fold_event_counts(m1, toks.skip(1));
        lemma_count_events_concat(ev, fold_events(m1, toks.skip(1)), Event::StartMap);
        lemma_count_events_concat(ev, fold_events(m1, toks.skip(1)), Event::EndMap);
        lemma_count_events_concat(ev, fold_events(m1, toks.skip(1)), Event::StartArray);
        lemma_count_events_concat(ev, fold_events(m1, toks.skip(1)), Event::EndArray);
        if ev.len() > 0 {
            assert(ev.drop_last() =~= Seq::<Event>::empty());
            assert(ev.last() == ev[0]);
            assert(count_events(Seq::<Event>::empty(), Event::StartMap) == 0);
            assert(count_events(Seq::<Event>::empty(), Event::EndMap) == 0);
            assert(count_events(Seq::<Event>::empty(), Event::StartArray) == 0);
            assert(count_events(Seq::<Event>::empty(), Event::EndArray) == 0);
        }
        match t {
            SpecToken::LeftBrace => {
                if is_value_status(m.status) {
                    assert(m1.stack.drop_last() =~= m.stack);
                    assert(count_of(m1.stack, Enclosing::LeftBrace) == count_of(
                        m.stack,
                        Enclosing::LeftBrace,
                    ) + 1);
                    assert(count_events(ev, Event::StartMap) == 1);
                    assert(count_events(ev, Event::EndMap) == 0);
                }
            },
            SpecToken::LeftBracket => {
                if is_value_status(m.status) {
                    assert(m1.stack.drop_last() =~= m.stack);
                    assert(count_of(m1.stack, Enclosing::LeftBracket) == count_of(
                        m.stack,
                        Enclosing::LeftBracket,
                    ) + 1);
                }
            },
            SpecToken::RightBrace => {
                if m.stack.len() > 0 && m.stack.last() == Enclosing::LeftBrace {
                    assert(count_of(m.stack, Enclosing::LeftBrace) == count_of(
                        m1.stack,
                        Enclosing::LeftBrace,
                    ) + 1);
                    assert(count_of(m.stack, Enclosing::LeftBracket) == count_of(
                        m1.stack,
                        Enclosing::LeftBracket,
                    ));
                }
            },
            SpecToken::RightBracket => {
                if m.stack.len() > 0 && m.stack.last() == Enclosing::LeftBracket {
                    assert(count_of(m.stack, Enclosing::LeftBracket) == count_of(
                        m1.stack,
                        Enclosing::LeftBracket,
                    ) + 1);
                    assert(count_of(m.stack, Enclosing::LeftBrace) == count_of(
                        m1.stack,
                        Enclosing::LeftBrace,
                    ));
                }
            },
            _ => {},
        }
    }
}

/// Over the full event sequence of every parse whose opening and
/// closing enclosings balance out, the count of `start_map` events
/// equals the count of `end_map` events, and likewise for arrays. In
/// particular this holds for every valid document: there
/// [`Parser::finish_parse`] succeeds, so both counters are zero, and
/// with [`Context::wf`] the stack is empty.
pub proof fn lemma_balanced_events(toks: Seq<SpecToken>)
    requires
        fold_machine(initial_machine(), toks).stack.len() == 0,
    ensures
        count_events(fold_events(initial_machine(), toks), Event::StartMap) == count_events(
            fold_events(initial_machine(), toks),
            Event::EndMap,
        ),
        count_events(fold_events(initial_machine(), toks), Event::StartArray) == count_events(
            fold_events(initial_machine(), toks),
            Event::EndArray,
        ),
{
    lemma_fold_event_counts(initial_machine(), toks);
    crate::common::lemma_count_of_total(fold_machine(initial_machine(), toks).stack);
}

/// The machine reaches [`ParserStatus::ParseComplete`] by no step of
/// the table: only the end of the input sets it.
proof fn lemma_step_not_complete(m: MachineState, t: SpecToken)
    ensures
        machine_step(m, t).status != ParserStatus::ParseComplete,
{
}

/// Whether `st` accepts a value.
fn value_status(st: ParserStatus) -> (r: bool)
    ensures
        r == is_value_status(st),
{
    st == ParserStatus::Start || st == ParserStatus::MapNeedVal || st == ParserStatus::ArrayStart
        || st == ParserStatus::ArrayNeedVal
}

/// The status after accepting a scalar value in `st`.
fn got_value_status(st: ParserStatus) -> (r: ParserStatus)
    requires
        is_value_status(st),
    ensures
        r == value_got_status(st),
{
    if st == ParserStatus::ArrayStart || st == ParserStatus::ArrayNeedVal {
        ParserStatus::ArrayGotVal
    } else if st == ParserStatus::MapNeedVal {
        ParserStatus::MapGotVal
    } else {
        ParserStatus::GotValue
    }
}

/// How processing one token ended.
enum TokenOutcome {
    /// The handler asked for more events.
    Continue,
    /// The handler stopped the parse.
    Abort,
    /// The token's text is no UTF-8; nothing was dispatched or changed.
    BadUtf8,
}

/// How many of the observed events equal `e`.
pub open spec fn count_obs_events(obs: Seq<Observation>, e: Event) -> nat
    decreases obs.len(),
{
    if obs.len() == 0 {
        0
    } else {
        count_obs_events(obs.drop_last(), e) + if obs.last().event == e {
            1nat
        } else {
            0nat
        }
    }
}

/// How many of the pairs' events equal `e`.
pub open spec fn count_pair_events(pairs: Seq<(MachineState, Event)>, e: Event) -> nat
    decreases pairs.len(),
{
    if pairs.len() == 0 {
        0
    } else {
        count_pair_events(pairs.drop_last(), e) + if pairs.last().1 == e {
            1nat
        } else {
            0nat
        }
    }
}

/// Observations carrying the pairs' events carry their counts.
proof fn lemma_obs_counts(pairs: Seq<(MachineState, Event)>, obs: Seq<Observation>, e: Event)
    requires
        obs.len() == pairs.len(),
        forall|i: int| 0 <= i < obs.len() ==> (#[trigger] obs[i]).event == pairs[i].1,
    ensures
        count_obs_events(obs, e) == count_pair_events(pairs, e),
    decreases obs.len(),
{
    if obs.len() > 0 {
        assert forall|i: int| 0 <= i < obs.drop_last().len() implies (#[trigger] obs.drop_last()[
            i
        ]).event == pairs.drop_last()[i].1 by {
            assert(obs.drop_last()[i] == obs[i]);
            assert(pairs.drop_last()[i] == pairs[i]);
            assert(obs[i].event == pairs[i].1);
        }
        lemma_obs_counts(pairs.drop_last(), obs.drop_last(), e);
        assert(obs.last().event == pairs.last().1) by {
            assert(obs[obs.len() - 1].event == pairs[obs.len() - 1].1);
        }
    }
}

/// Counting pair events distributes over concatenation.
proof fn lemma_count_pair_concat(
    a: Seq<(MachineState, Event)>,
    b: Seq<(MachineState, Event)>,
    e: Event,
)
    ensures
        count_pair_events(a + b, e) == count_pair_events(a, e) + count_pair_events(b, e),
    decreases b.len(),
{
    if b.len() == 0 {
        assert(a + b =~= a);
    } else {
        lemma_count_pair_concat(a, b.drop_last(), e);
        assert((a + b).drop_last() =~= a + b.drop_last());
        assert((a + b).last() == b.last());
    }
}

/// The pairs of a run carry exactly the run's events.
proof fn lemma_expected_counts(m: MachineState, toks: Seq<SpecToken>, e: Event)
    ensures
        count_pair_events(expected_obs(m, toks), e) == count_events(fold_events(m, toks), e),
    decreases toks.len(),
{
    if toks.len() > 0 {
        let t = toks[0];
        let m1 = machine_step(m, t);
        let ev = events_of(m, t);
        let head = obs_of_step(m, t);
        assert(expected_obs(m, toks) == head + expected_obs(m1, toks.skip(1)));
        assert(fold_events(m, toks) == ev + fold_events(m1, toks.skip(1)));
        lemma_expected_counts(m1, toks.skip(1), e);
        lemma_count_pair_concat(head, expected_obs(m1, toks.skip(1)), e);
        lemma_count_events_concat(ev, fold_events(m1, toks.skip(1)), e);
        if ev.len() == 1 {
            assert(head.drop_last() =~= Seq::<(MachineState, Event)>::empty());
            assert(head.last() == (m, ev[0]));
            assert(ev.drop_last() =~= Seq::<Event>::empty());
            assert(ev.last() == ev[0]);
            assert(count_pair_events(Seq::<(MachineState, Event)>::empty(), e) == 0);
            assert(count_events(Seq::<Event>::empty(), e) == 0);
        } else {
            assert(head =~= Seq::<(MachineState, Event)>::empty());
            assert(ev =~= Seq::<Event>::empty());
        }
    }
}

/// On every valid input the opening and closing events balance at the
/// handler too: observations that record a run from the initial state
/// whose stack has emptied again, as a successful
/// [`Parser::finish_parse`] guarantees through [`Context::wf`],
/// contain exactly as many `start_map` events as `end_map` events, and
/// as many `start_array` events as `end_array` events.
pub proof fn lemma_balanced_observations(toks: Seq<SpecToken>, obs: Seq<Observation>)
    requires
        obs_match(expected_obs(initial_machine(), toks), obs),
        fold_machine(initial_machine(), toks).stack.len() == 0,
    ensures
        count_obs_events(obs, Event::StartMap) == count_obs_events(obs, Event::EndMap),
        count_obs_events(obs, Event::StartArray) == count_obs_events(obs, Event::EndArray),
{
    lemma_balanced_events(toks);
    let pairs = expected_obs(initial_machine(), toks);
    assert forall|i: int| 0 <= i < obs.len() implies (#[trigger] obs[i]).event == pairs[i].1 by {
        assert(obs[i].context.wf() && obs[i].event == pairs[i].1);
    }
    lemma_obs_counts(pairs, obs, Event::StartMap);
    lemma_obs_counts(pairs, obs, Event::EndMap);
    lemma_obs_counts(pairs, obs, Event::StartArray);
    lemma_obs_counts(pairs, obs, Event::EndArray);
    lemma_expected_counts(initial_machine(), toks, Event::StartMap);
    lemma_expected_counts(initial_machine(), toks, Event::EndMap);
    lemma_expected_counts(initial_machine(), toks, Event::StartArray);
    lemma_expected_counts(initial_machine(), toks, Event::EndArray);
}

/// A parse that returned `Ok` to a handler that answered `Continue` at
/// every callback completed its document: the status reached
/// [`ParserStatus::ParseComplete`], the run was accepted transition by
/// transition, and, unless the parser was already complete when
/// called, the whole input was consumed with a clean end. In
/// particular, on the token sequence of any json value this yields the
/// empty stack and zero counters, so `finish_parse` succeeds.
pub proof fn lemma_ok_run_completes(
    m0: MachineState,
    obs0: Seq<Observation>,
    toks: Seq<SpecToken>,
    tail: SpecLexed,
    k: int,
    ctx: Context,
    obs_final: Seq<Observation>,
)
    requires
        0 <= k <= toks.len(),
        parse_outcome(m0, obs0, toks, tail, k, ctx, obs_final, true),
        all_continue(obs_final.skip(obs0.len() as int)),
    ensures
        ctx.status == ParserStatus::ParseComplete,
        ctx.stack@ == fold_machine(m0, toks.take(k)).stack,
        clean_steps(m0, toks.take(k)),
        (m0.status == ParserStatus::ParseComplete && k == 0) || (k == toks.len() && tail is End),
{
    let fresh = obs_final.skip(obs0.len() as int);
    if continue_then_abort(fresh) {
        assert(fresh.last().response == Status::Continue);
    }
}

/// On every valid input the opening and closing callbacks balance, as
/// the handler itself observed them: a parse of a fresh parser that
/// returned `Ok` with every callback answered `Continue`, whose
/// counters have both returned to zero as a successful
/// [`Parser::finish_parse`] guarantees, dispatched exactly as many
/// `start_map` events as `end_map` events, and as many `start_array`
/// events as `end_array` events.
pub proof fn lemma_valid_parse_balanced(
    toks: Seq<SpecToken>,
    tail: SpecLexed,
    k: int,
    ctx: Context,
    obs_final: Seq<Observation>,
)
    requires
        0 <= k <= toks.len(),
        parse_outcome(
            initial_machine(),
            Seq::<Observation>::empty(),
            toks,
            tail,
            k,
            ctx,
            obs_final,
            true,
        ),
        all_continue(obs_final),
        ctx.wf(),
        ctx.num_open_braces == 0,
        ctx.num_open_brackets == 0,
    ensures
        count_obs_events(obs_final, Event::StartMap) == count_obs_events(obs_final, Event::EndMap),
        count_obs_events(obs_final, Event::StartArray) == count_obs_events(
            obs_final,
            Event::EndArray,
        ),
{
    let fresh = obs_final.skip(0);
    assert(fresh =~= obs_final);
    assert(obs_final.take(0) =~= Seq::<Observation>::empty());
    lemma_ok_run_completes(
        initial_machine(),
        Seq::<Observation>::empty(),
        toks,
        tail,
        k,
        ctx,
        obs_final,
    );
    assert(k == toks.len());
    assert(toks.take(k) =~= toks);
    crate::common::lemma_count_of_total(ctx.stack@);
    lemma_balanced_observations(toks, obs_final);
}

/// Relies on `std::str::from_utf8`: it returns `Ok` exactly on valid
/// UTF-8, and then decodes the bytes.
#[verifier::external_body]
fn bytes_as_str(v: &[u8]) -> (r: Option<&str>)
    ensures
        r is Some <==> vstd::utf8::valid_utf8(v@),
        r matches Option::Some(s) ==> s@ == vstd::utf8::decode_utf8(v@),
{
    match std::str::from_utf8(v) {
        Ok(s) => Some(s),
        Err(_) => None,
    }
}

} // verus!
