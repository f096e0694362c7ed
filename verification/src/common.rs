//! Shared types: the handler status, the enclosing stack, the parser
//! status, and the [`Context`] that every handler callback observes.

use std::collections::VecDeque;
use vstd::prelude::*;

verus! {

/// The status that each [`Handler`] method returns.
#[derive(Debug, PartialEq, Eq, Structural)]
pub enum Status {
    /// Continue calling methods on the handler.
    Continue,
    /// Stop calling methods.
    Abort,
}

/// Brackets and braces to keep track of.
#[derive(Debug, PartialEq, Eq, Structural, Clone, Copy)]
pub enum Enclosing {
    /// Left brace `{`.
    LeftBrace,
    /// Left bracket `[`.
    LeftBracket,
}

/// The control state that the parser is in.
#[derive(Debug, PartialEq, Eq, Structural, Clone, Copy)]
pub enum ParserStatus {
    /// Waiting for the first token.
    Start,
    /// Received the last token.
    ParseComplete,
    /// Error.
    ParseError,
    /// The json is malformed.
    LexicalError,
    /// Received `{`.
    MapStart,
    /// Received a map key, awaiting `:`.
    MapSep,
    /// Received `:`, awaiting a map value.
    MapNeedVal,
    /// Received a map value.
    MapGotVal,
    /// Received `,` in a map.
    MapNeedKey,
    /// Received `[`.
    ArrayStart,
    /// Received an array value.
    ArrayGotVal,
    /// Received `,` in an array.
    ArrayNeedVal,
    /// Received a value that is the whole document, like `true`.
    GotValue,
}

/// How many entries of `s` equal `e`.
pub open spec fn count_of(s: Seq<Enclosing>, e: Enclosing) -> nat
    decreases s.len(),
{
    if s.len() == 0 {
        0
    } else {
        count_of(s.drop_last(), e) + if s.last() == e {
            1nat
        } else {
            0nat
        }
    }
}

/// The two counters together count every entry of the stack.
pub proof fn lemma_count_of_total(s: Seq<Enclosing>)
    ensures
        count_of(s, Enclosing::LeftBrace) + count_of(s, Enclosing::LeftBracket) == s.len(),
        count_of(s, Enclosing::LeftBrace) <= s.len(),
        count_of(s, Enclosing::LeftBracket) <= s.len(),
    decreases s.len(),
{
    if s.len() > 0 {
        lemma_count_of_total(s.drop_last());
    }
}

/// The context passed to each handler callback. It gives basic
/// information about where the parse stands in the json document.
#[derive(Debug)]
pub struct Context {
    /// Unclosed braces and brackets, outermost first.
    pub stack: VecDeque<Enclosing>,
    /// The current control state.
    pub status: ParserStatus,
    /// Count of unclosed `{`.
    pub num_open_braces: usize,
    /// Count of unclosed `[`.
    pub num_open_brackets: usize,
}

impl Context {
    /// The counters agree with the composition of the stack.
    pub open spec fn wf(&self) -> bool {
        &&& self.num_open_braces == count_of(self.stack@, Enclosing::LeftBrace)
        &&& self.num_open_brackets == count_of(self.stack@, Enclosing::LeftBracket)
    }

    /// The enclosing on top of the stack, `None` at the top level.
    pub open spec fn spec_last_enclosing(&self) -> Option<Enclosing> {
        if self.stack@.len() == 0 {
            None
        } else {
            Some(self.stack@.last())
        }
    }

    /// The number of left brackets (`[`) encountered without
    /// corresponding right brackets, at this point in the parse.
    pub fn num_open_brackets(&self) -> (r: usize)
        ensures
            r == self.num_open_brackets,
    {
        self.num_open_brackets
    }

    /// The number of left braces (`{`) encountered without
    /// corresponding right braces, at this point in the parse.
    pub fn num_open_braces(&self) -> (r: usize)
        ensures
            r == self.num_open_braces,
    {
        self.num_open_braces
    }

    /// The current [`ParserStatus`].
    pub fn parser_status(&self) -> (r: ParserStatus)
        ensures
            r == self.status,
    {
        self.status
    }

    /// Read the last [`Enclosing`].
    pub fn last_enclosing(&self) -> (r: Option<Enclosing>)
        ensures
            r == self.spec_last_enclosing(),
    {
        let n = self.stack.len();
        if n == 0 {
            None
        } else {
            Some(self.stack[n - 1])
        }
    }

    /// Update the parser status.
    pub(crate) fn update_status(&mut self, status: ParserStatus)
        ensures
            final (self).stack == old(self).stack,
            final (self).num_open_braces == old(self).num_open_braces,
            final (self).num_open_brackets == old(self).num_open_brackets,
            final (self).status == status,
    {
        self.status = status;
    }

    /// Record an unclosed brace or bracket and count it, leaving the
    /// counters in step with the stack.
    pub(crate) fn push_enclosing(&mut self, enclosing: Enclosing)
        requires
            old(self).wf(),
        ensures
            final (self).wf(),
            final (self).stack@ == old(self).stack@.push(enclosing),
            final (self).status == old(self).status,
            enclosing == Enclosing::LeftBrace ==> final (self).num_open_braces == old(
                self,
            ).num_open_braces + 1 && final (self).num_open_brackets == old(self).num_open_brackets,
            enclosing == Enclosing::LeftBracket ==> final (self).num_open_brackets == old(
                self,
            ).num_open_brackets + 1 && final (self).num_open_braces == old(self).num_open_braces,
    {
        proof {
            lemma_count_of_total(self.stack@);
        }
        self.stack.push_back(enclosing);
        // the stack holds its new entry, so its length bounds the counters
        let grown = self.stack.len();
        proof {
            assert(grown == old(self).stack@.len() + 1);
        }
        match enclosing {
            Enclosing::LeftBrace => {
                self.num_open_braces = self.num_open_braces + 1;
            },
            Enclosing::LeftBracket => {
                self.num_open_brackets = self.num_open_brackets + 1;
            },
        }
        proof {
            assert(self.stack@.drop_last() =~= old(self).stack@);
        }
    }

    /// Remove the top enclosing and uncount it, leaving the counters in
    /// step with the stack. The caller has checked that the stack holds
    /// `enclosing` on top.
    pub(crate) fn pop_enclosing(&mut self, enclosing: Enclosing)
        requires
            old(self).wf(),
            old(self).spec_last_enclosing() == Some(enclosing),
        ensures
            final (self).wf(),
            final (self).stack@ == old(self).stack@.drop_last(),
            final (self).status == old(self).status,
            enclosing == Enclosing::LeftBrace ==> final (self).num_open_braces == old(
                self,
            ).num_open_braces - 1 && final (self).num_open_brackets == old(self).num_open_brackets,
            enclosing == Enclosing::LeftBracket ==> final (self).num_open_brackets == old(
                self,
            ).num_open_brackets - 1 && final (self).num_open_braces == old(self).num_open_braces,
    {
        self.stack.pop_back();
        match enclosing {
            Enclosing::LeftBrace => {
                self.num_open_braces = self.num_open_braces - 1;
            },
            Enclosing::LeftBracket => {
                self.num_open_brackets = self.num_open_brackets - 1;
            },
        }
    }
}

impl Default for Context {
    /// The context of a parse that has seen no input: status
    /// [`ParserStatus::Start`], an empty stack and zero counters.
    fn default() -> (r: Self)
        ensures
            r.wf(),
            r.stack@ == Seq::<Enclosing>::empty(),
            r.status == ParserStatus::Start,
            r.num_open_braces == 0,
            r.num_open_brackets == 0,
    {
        Context {
            stack: VecDeque::new(),
            status: ParserStatus::Start,
            num_open_braces: 0,
            num_open_brackets: 0,
        }
    }
}

/// At every dispatched event the counters sum to the depth of the
/// stack, and the last enclosing is its top: handler callbacks always
/// receive a context with [`Context::wf`], from which both follow.
pub proof fn lemma_context_event_invariant(ctx: Context)
    requires
        ctx.wf(),
    ensures
        ctx.num_open_braces + ctx.num_open_brackets == ctx.stack@.len(),
        ctx.spec_last_enclosing() == if ctx.stack@.len() == 0 {
            None
        } else {
            Some(ctx.stack@.last())
        },
{
    lemma_count_of_total(ctx.stack@);
}

/// One event dispatched to a handler, with the decoded payload the
/// handler received.
pub ghost enum Event {
    Null,
    Bool(bool),
    Int(int),
    Double(Seq<char>),
    Str(Seq<char>),
    MapKey(Seq<char>),
    StartMap,
    EndMap,
    StartArray,
    EndArray,
}

/// One callback as the handler saw it: the context it was shown, the
/// event, and the status it returned.
pub ghost struct Observation {
    pub context: Context,
    pub event: Event,
    pub response: Status,
}

/// Implement this trait to handle parse events.
///
/// String-valued events (`handle_string`, `handle_map_key`) receive the
/// raw token text, surrounding quotes included, with escape sequences
/// left as written. Numeric literals that do not fit a signed 64-bit
/// integer are reported through `handle_double` as their raw text, to
/// be converted by the handler.
///
/// Every callback receives a context satisfying [`Context::wf`], and
/// appends what it saw and answered to the handler's ghost
/// [`Handler::observations`] log: the parser's contract speaks of a
/// handler's responses through that log.
pub trait Handler {
    /// The callbacks this handler has received, oldest first. The
    /// default stands for handlers that keep no log; a verified
    /// implementation overrides it, since the callback contracts
    /// append to it.
    open spec fn observations(&self) -> Seq<Observation> {
        Seq::empty()
    }

    /// Latest parsed value was a null.
    fn handle_null(&mut self, ctx: &Context) -> (r: Status)
        requires
            ctx.wf(),
        ensures
            final (self).observations() == old(self).observations().push(
                Observation { context: *ctx, event: Event::Null, response: r },
            ),
    ;

    /// Latest parsed value was a numeric literal that is no `i64`; `val`
    /// is its raw text.
    fn handle_double(&mut self, ctx: &Context, val: &str) -> (r: Status)
        requires
            ctx.wf(),
        ensures
            final (self).observations() == old(self).observations().push(
                Observation { context: *ctx, event: Event::Double(val@), response: r },
            ),
    ;

    /// Latest parsed value was an int.
    fn handle_int(&mut self, ctx: &Context, val: i64) -> (r: Status)
        requires
            ctx.wf(),
        ensures
            final (self).observations() == old(self).observations().push(
                Observation { context: *ctx, event: Event::Int(val as int), response: r },
            ),
    ;

    /// Latest parsed value was a bool.
    fn handle_bool(&mut self, ctx: &Context, val: bool) -> (r: Status)
        requires
            ctx.wf(),
        ensures
            final (self).observations() == old(self).observations().push(
                Observation { context: *ctx, event: Event::Bool(val), response: r },
            ),
    ;

    /// Latest parsed value was a string; `val` is its raw text, quotes
    /// included.
    fn handle_string(&mut self, ctx: &Context, val: &str) -> (r: Status)
        requires
            ctx.wf(),
        ensures
            final (self).observations() == old(self).observations().push(
                Observation { context: *ctx, event: Event::Str(val@), response: r },
            ),
    ;

    /// Latest parsed value was a left curly brace (`{`).
    fn handle_start_map(&mut self, ctx: &Context) -> (r: Status)
        requires
            ctx.wf(),
        ensures
            final (self).observations() == old(self).observations().push(
                Observation { context: *ctx, event: Event::StartMap, response: r },
            ),
    ;

    /// Latest parsed value was a right curly brace (`}`).
    fn handle_end_map(&mut self, ctx: &Context) -> (r: Status)
        requires
            ctx.wf(),
        ensures
            final (self).observations() == old(self).observations().push(
                Observation { context: *ctx, event: Event::EndMap, response: r },
            ),
    ;

    /// Latest parsed value was a key to a json object; `key` is its raw
    /// text, quotes included.
    fn handle_map_key(&mut self, ctx: &Context, key: &str) -> (r: Status)
        requires
            ctx.wf(),
        ensures
            final (self).observations() == old(self).observations().push(
                Observation { context: *ctx, event: Event::MapKey(key@), response: r },
            ),
    ;

    /// Latest parsed value was a left bracket (`[`).
    fn handle_start_array(&mut self, ctx: &Context) -> (r: Status)
        requires
            ctx.wf(),
        ensures
            final (self).observations() == old(self).observations().push(
                Observation { context: *ctx, event: Event::StartArray, response: r },
            ),
    ;

    /// Latest parsed value was a right bracket (`]`).
    fn handle_end_array(&mut self, ctx: &Context) -> (r: Status)
        requires
            ctx.wf(),
        ensures
            final (self).observations() == old(self).observations().push(
                Observation { context: *ctx, event: Event::EndArray, response: r },
            ),
    ;
}

} // verus!
