//! This [`Handler`] implementation converts json with an array into
//! newline-delimited json.
//!
//! A selector path of object keys and array indices names the target
//! array; the handler navigates to it over the parse events, then
//! re-serializes each of its elements on a line of its own into an
//! owned output buffer, and aborts the parse when the target array
//! closes.

use crate::common::Context;
use crate::common::Event;
use crate::common::Handler;
use crate::common::Observation;
use crate::common::ParserStatus;
use crate::common::Status;
use crate::numbers::i64_to_string;
use vstd::prelude::*;
use vstd::string::*;

verus! {

/// Refers to either a key or an index in an array.
///
/// A key may be given with or without its surrounding quotes: the
/// handler receives map keys as raw token text, quotes included, and
/// accepts an `Identifier` that spells either form.
#[derive(Debug, PartialEq, Clone, Hash, PartialOrd, Ord, Eq)]
pub enum Selector {
    /// A key in a json object.
    Identifier(String),
    /// A json array value by index.
    Index(usize),
}

/// Where a selector's step resolves: at an object whose depth in open
/// braces, or an array whose depth in open brackets, is one more than
/// the count stored here.
#[derive(Debug, PartialEq, Eq, Clone, Copy)]
pub enum LocationMatcher {
    /// The key must appear directly inside this many enclosing objects.
    Obj { num_open_braces: usize },
    /// The element must appear directly inside this many enclosing
    /// arrays.
    Arr { num_open_brackets: usize },
}

/// Whether the context stands where the matcher's selector resolves.
pub open spec fn matcher_accepts(m: LocationMatcher, ctx: Context) -> bool {
    match m {
        LocationMatcher::Obj { num_open_braces } => num_open_braces + 1 == ctx.num_open_braces,
        LocationMatcher::Arr { num_open_brackets } => num_open_brackets + 1
            == ctx.num_open_brackets,
    }
}

/// How many of the first `j` selectors are `Identifier`s.
pub open spec fn ident_count_before(sels: Seq<Selector>, j: int) -> nat
    recommends
        0 <= j <= sels.len(),
    decreases j,
{
    if j <= 0 {
        0
    } else {
        ident_count_before(sels, j - 1) + if sels[j - 1] is Identifier {
            1nat
        } else {
            0nat
        }
    }
}

/// How many of the first `j` selectors are `Index`es.
pub open spec fn index_count_before(sels: Seq<Selector>, j: int) -> nat
    recommends
        0 <= j <= sels.len(),
    decreases j,
{
    if j <= 0 {
        0
    } else {
        index_count_before(sels, j - 1) + if sels[j - 1] is Index {
            1nat
        } else {
            0nat
        }
    }
}

/// The matcher of the selector at position `j` of the path: an
/// `Identifier` resolves one object deeper than the identifiers before
/// it, an `Index` one array deeper than the indices before it.
pub open spec fn matcher_of(sels: Seq<Selector>, j: int) -> LocationMatcher
    recommends
        0 <= j < sels.len(),
{
    match sels[j] {
        Selector::Identifier(_) => LocationMatcher::Obj {
            num_open_braces: ident_count_before(sels, j) as usize,
        },
        Selector::Index(_) => LocationMatcher::Arr {
            num_open_brackets: index_count_before(sels, j) as usize,
        },
    }
}

/// The navigating state: the selector path still to resolve and its
/// location matchers, both innermost-first, and the running index of
/// the array element the parse stands in.
pub struct Select {
    /// Matchers, in reverse path order: the last is the current one.
    pub stack: Vec<LocationMatcher>,
    /// Selectors, in reverse path order: the last is the current one.
    pub selectors: Vec<Selector>,
    /// Elements passed in the array at the current location.
    pub i: usize,
}

/// Whether the current selector is an `Identifier` that spells `raw`
/// (with or without the raw text's quotes) and resolves here.
pub open spec fn ident_selection(s: Select, ctx: Context, raw: Seq<char>) -> bool {
    &&& s.selectors@.len() > 0
    &&& s.stack@.len() > 0
    &&& match s.selectors@.last() {
        Selector::Identifier(id) => id@ == raw || seq!['"'] + id@ + seq!['"'] == raw,
        Selector::Index(_) => false,
    }
    &&& matcher_accepts(s.stack@.last(), ctx)
}

/// Whether the current selector is an `Index` equal to the running
/// element index and resolves here.
pub open spec fn index_selection(s: Select, ctx: Context) -> bool {
    &&& s.selectors@.len() > 0
    &&& s.stack@.len() > 0
    &&& match s.selectors@.last() {
        Selector::Identifier(_) => false,
        Selector::Index(k) => s.i == k,
    }
    &&& matcher_accepts(s.stack@.last(), ctx)
}

/// The running element index after one value at the current location:
/// it advances on a value expected after a comma there.
pub open spec fn advanced_index(s: Select, ctx: Context) -> usize {
    if s.stack@.len() > 0 && matcher_accepts(s.stack@.last(), ctx) && ctx.status
        == ParserStatus::ArrayNeedVal && s.i < usize::MAX {
        (s.i + 1) as usize
    } else {
        s.i
    }
}

/// The emitting state: the anchor depth at which the target array's
/// elements stand, and the two flags that shape separators.
#[derive(Debug, Clone, Copy, PartialEq, Eq, Structural)]
pub struct WritingCtx {
    /// Open braces at the anchor.
    pub num_open_braces: usize,
    /// Open brackets at the anchor.
    pub num_open_brackets: usize,
    /// Whether the target array's opening bracket has been seen.
    pub inside_array: bool,
    /// Whether no element has been written yet.
    pub first: bool,
}

/// Whether the context stands at the anchor depth.
pub open spec fn at_anchor(w: WritingCtx, ctx: Context) -> bool {
    ctx.num_open_brackets == w.num_open_brackets && ctx.num_open_braces == w.num_open_braces
}

/// The separator written before a scalar value: a comma between nested
/// values, a newline between elements of the target array.
pub open spec fn value_sep(w: WritingCtx, ctx: Context) -> Seq<char> {
    if !at_anchor(w, ctx) && ctx.status == ParserStatus::ArrayNeedVal {
        seq![',']
    } else if w.inside_array && at_anchor(w, ctx) && !w.first {
        seq!['\n']
    } else {
        seq![]
    }
}

/// The emitting state after a scalar value: the first-element flag
/// falls once an element has begun at the anchor.
pub open spec fn wctx_after_value(w: WritingCtx, ctx: Context) -> WritingCtx {
    if w.inside_array && at_anchor(w, ctx) && w.first {
        WritingCtx {
            num_open_braces: w.num_open_braces,
            num_open_brackets: w.num_open_brackets,
            inside_array: w.inside_array,
            first: false,
        }
    } else {
        w
    }
}

/// The separator written before a map key: a comma between members of
/// one object, a newline between elements of the target array.
pub open spec fn key_sep(w: WritingCtx, ctx: Context) -> Seq<char> {
    if !at_anchor(w, ctx) && ctx.status == ParserStatus::MapNeedKey {
        seq![',']
    } else if w.inside_array && at_anchor(w, ctx) && !w.first {
        seq!['\n']
    } else {
        seq![]
    }
}

/// The separator written before an opening brace or bracket: a comma
/// between nested array values, a newline before any element at the
/// anchor that is not the first inside the target array.
pub open spec fn open_sep(w: WritingCtx, ctx: Context) -> Seq<char> {
    if !at_anchor(w, ctx) && ctx.status == ParserStatus::ArrayNeedVal {
        seq![',']
    } else if at_anchor(w, ctx) && !(w.inside_array && w.first) {
        seq!['\n']
    } else {
        seq![]
    }
}

/// The emitting state after an opening brace or bracket at the anchor.
pub open spec fn wctx_after_open(w: WritingCtx, ctx: Context) -> WritingCtx {
    if at_anchor(w, ctx) && w.inside_array && w.first {
        WritingCtx {
            num_open_braces: w.num_open_braces,
            num_open_brackets: w.num_open_brackets,
            inside_array: w.inside_array,
            first: false,
        }
    } else {
        w
    }
}

/// A sequence without its last element; the empty sequence stays empty.
pub open spec fn drop_last_or_empty<T>(q: Seq<T>) -> Seq<T> {
    if q.len() == 0 {
        q
    } else {
        q.drop_last()
    }
}

/// The emitting state entered when the last selector is consumed: the
/// anchor is one array deeper than the parse stands, nothing written
/// yet.
pub open spec fn anchor_after_select(ctx: Context) -> WritingCtx {
    WritingCtx {
        num_open_braces: ctx.num_open_braces,
        num_open_brackets: if ctx.num_open_brackets < usize::MAX {
            (ctx.num_open_brackets + 1) as usize
        } else {
            usize::MAX
        },
        inside_array: false,
        first: true,
    }
}

/// The navigation state after consuming the current selector: the next
/// selector and matcher become current with a fresh element index, or,
/// when the path is exhausted, emission begins at the anchor.
pub open spec fn consumed_transition(s: Select, ctx: Context, after: NdjsonContext) -> bool {
    if s.selectors@.len() <= 1 && s.stack@.len() <= 1 {
        after matches NdjsonContext::Writing(w) && w == anchor_after_select(ctx)
    } else {
        after matches NdjsonContext::Selecting(s2) && s2.stack@ == drop_last_or_empty(s.stack@)
            && s2.selectors@ == drop_last_or_empty(s.selectors@) && s2.i == 0
    }
}

/// Each text of `ts` followed by one newline.
pub open spec fn nd_lines(ts: Seq<Seq<char>>) -> Seq<char>
    decreases ts.len(),
{
    if ts.len() == 0 {
        seq![]
    } else {
        ts[0] + seq!['\n'] + nd_lines(ts.skip(1))
    }
}

/// What emitting the values `ts` appends, one event each, all at the
/// anchor under one context: each value behind its separator, with the
/// first-element flag threaded through.
pub open spec fn emitted_values(w: WritingCtx, c: Context, ts: Seq<Seq<char>>) -> Seq<char>
    decreases ts.len(),
{
    if ts.len() == 0 {
        seq![]
    } else {
        value_sep(w, c) + ts[0] + emitted_values(wctx_after_value(w, c), c, ts.skip(1))
    }
}

/// Once an element has been written, every further value at the anchor
/// arrives behind one newline.
proof fn lemma_emitted_values_rest(w: WritingCtx, c: Context, ts: Seq<Seq<char>>)
    requires
        w.inside_array,
        at_anchor(w, c),
        !w.first,
    ensures
        emitted_values(w, c, ts) + seq!['\n'] == seq!['\n'] + nd_lines(ts),
    decreases ts.len(),
{
    if ts.len() == 0 {
        assert(emitted_values(w, c, ts) + seq!['\n'] =~= seq!['\n'] + nd_lines(ts));
    } else {
        assert(wctx_after_value(w, c) == w);
        assert(value_sep(w, c) =~= seq!['\n']);
        lemma_emitted_values_rest(w, c, ts.skip(1));
        assert(emitted_values(w, c, ts) == value_sep(w, c) + ts[0] + emitted_values(
            w,
            c,
            ts.skip(1),
        ));
        assert(emitted_values(w, c, ts) + seq!['\n'] =~= seq!['\n'] + ts[0] + (emitted_values(
            w,
            c,
            ts.skip(1),
        ) + seq!['\n']));
        assert(seq!['\n'] + ts[0] + (emitted_values(w, c, ts.skip(1)) + seq!['\n']) =~= seq![
            '\n'
        ] + (ts[0] + seq!['\n'] + nd_lines(ts.skip(1))));
        assert(ts[0] + seq!['\n'] + nd_lines(ts.skip(1)) == nd_lines(ts));
    }
}

/// Feeding the elements of a non-empty array `[x1, ..., xn]` with an
/// empty selector emits `x1 + "\n" + ... + xn + "\n"`: from the fresh
/// emitting state inside the target array, the values' events append
/// their texts separated by newlines, and the close of the target
/// array appends the final newline, as `array_end` states. (An empty
/// array is the one exception: its close alone still appends one
/// newline.)
pub proof fn lemma_flat_array_round_trip(w: WritingCtx, c: Context, ts: Seq<Seq<char>>)
    requires
        w.inside_array,
        at_anchor(w, c),
        w.first,
        ts.len() > 0,
    ensures
        emitted_values(w, c, ts) + seq!['\n'] == nd_lines(ts),
{
    assert(value_sep(w, c) =~= Seq::<char>::empty());
    let w2 = wctx_after_value(w, c);
    assert(!w2.first && w2.inside_array && at_anchor(w2, c));
    lemma_emitted_values_rest(w2, c, ts.skip(1));
    assert(emitted_values(w, c, ts) =~= ts[0] + emitted_values(w2, c, ts.skip(1)));
    assert(emitted_values(w, c, ts) + seq!['\n'] =~= ts[0] + (emitted_values(w2, c, ts.skip(1))
        + seq!['\n']));
    assert(emitted_values(w, c, ts) + seq!['\n'] =~= ts[0] + seq!['\n'] + nd_lines(ts.skip(1)));
}

/// Navigating or emitting.
pub enum NdjsonContext {
    /// Still resolving the selector path.
    Selecting(Select),
    /// Emitting the target array's elements.
    Writing(WritingCtx),
}

/// The handler: an output buffer and the navigation state.
pub struct NdJsonHandler {
    /// The emitted newline-delimited json.
    pub out: String,
    /// Where the navigation stands.
    pub context: NdjsonContext,
    /// The callbacks received so far, as [`Handler::observations`]
    /// reports them.
    pub observations: Ghost<Seq<Observation>>,
}

impl NdJsonHandler {
    /// The emitted output so far.
    pub fn output(&self) -> (r: &String)
        ensures
            r@ == self.out@,
    {
        &self.out
    }

    /// Constructor. The selector path is read top-down: each step
    /// descends one level, matching an object key or an array position.
    /// An empty path means the top-level array.
    pub fn new(selectors: Vec<Selector>) -> (r: Self)
        ensures
            r.out@ == Seq::<char>::empty(),
            r.observations@ == Seq::<Observation>::empty(),
            selectors@.len() == 0 ==> (r.context matches NdjsonContext::Writing(w) && w
                == (WritingCtx {
                num_open_braces: 0,
                num_open_brackets: 1,
                inside_array: false,
                first: true,
            })),
            selectors@.len() > 0 ==> (r.context matches NdjsonContext::Selecting(s) && {
                let n = selectors@.len() as int;
                &&& s.selectors@.len() == n
                &&& s.stack@.len() == n
                &&& forall|k: int| 0 <= k < n ==> s.selectors@[k] == selectors@[n - 1 - k]
                &&& forall|k: int| 0 <= k < n ==> s.stack@[k] == matcher_of(selectors@, n - 1 - k)
                &&& s.i == 0
            }),
    {
        let ghost sels0 = selectors@;
        let mut selectors = selectors;
        let n = selectors.len();
        let mut forward: Vec<LocationMatcher> = Vec::new();
        let mut idents: usize = 0;
        let mut indices: usize = 0;
        let mut j: usize = 0;
        while j < n
            invariant
                0 <= j <= n,
                n == sels0.len(),
                selectors@ == sels0,
                idents == ident_count_before(sels0, j as int),
                indices == index_count_before(sels0, j as int),
                idents <= j,
                indices <= j,
                forward@.len() == j,
                forall|k: int| 0 <= k < j ==> forward@[k] == matcher_of(sels0, k),
            decreases n - j,
        {
            match &selectors[j] {
                Selector::Identifier(_) => {
                    forward.push(LocationMatcher::Obj { num_open_braces: idents });
                    idents = idents + 1;
                },
                Selector::Index(_) => {
                    forward.push(LocationMatcher::Arr { num_open_brackets: indices });
                    indices = indices + 1;
                },
            }
            j = j + 1;
        }
        // reverse both by popping, so the first path step ends on top
        let mut stack: Vec<LocationMatcher> = Vec::new();
        let mut rev_selectors: Vec<Selector> = Vec::new();
        let mut left = n;
        while left > 0
            invariant
                0 <= left <= n,
                n == sels0.len(),
                selectors@ == sels0.take(left as int),
                forward@ == Seq::new(left as nat, |k: int| matcher_of(sels0, k)),
                rev_selectors@.len() == n - left,
                stack@.len() == n - left,
                forall|k: int| 0 <= k < n - left ==> rev_selectors@[k] == sels0[n - 1 - k],
                forall|k: int| 0 <= k < n - left ==> stack@[k] == matcher_of(sels0, n - 1 - k),
            decreases left,
        {
            match selectors.pop() {
                Option::Some(sel) => rev_selectors.push(sel),
                Option::None => (),
            }
            match forward.pop() {
                Option::Some(m) => stack.push(m),
                Option::None => (),
            }
            left = left - 1;
            proof {
                assert(selectors@ =~= sels0.take(left as int));
                assert(forward@ =~= Seq::new(left as nat, |k: int| matcher_of(sels0, k)));
            }
        }
        let context = if rev_selectors.len() == 0 {
            NdjsonContext::Writing(
                WritingCtx {
                    num_open_braces: 0,
                    num_open_brackets: 1,
                    inside_array: false,
                    first: true,
                },
            )
        } else {
            NdjsonContext::Selecting(Select { stack, selectors: rev_selectors, i: 0 })
        };
        NdJsonHandler { out: String::new(), context, observations: Ghost(Seq::empty()) }
    }
}

/// Whether the context stands where `m`'s selector resolves.
fn matcher_accepts_now(m: &LocationMatcher, ctx: &Context) -> (r: bool)
    ensures
        r == matcher_accepts(*m, *ctx),
{
    match m {
        LocationMatcher::Obj { num_open_braces } => {
            let b = ctx.num_open_braces();
            b > 0 && *num_open_braces == b - 1
        },
        LocationMatcher::Arr { num_open_brackets } => {
            let b = ctx.num_open_brackets();
            b > 0 && *num_open_brackets == b - 1
        },
    }
}

impl Select {
    /// Whether the current selector is an identifier that spells the
    /// raw key text, quotes or not, and resolves at this context.
    fn is_identifier_selector_selection(&self, ctx: &Context, val: &str) -> (r: bool)
        ensures
            r == ident_selection(*self, *ctx, val@),
    {
        let ns = self.selectors.len();
        let nm = self.stack.len();
        if ns == 0 || nm == 0 {
            return false;
        }
        match &self.selectors[ns - 1] {
            Selector::Identifier(id) => {
                if !matcher_accepts_now(&self.stack[nm - 1], ctx) {
                    return false;
                }
                let raw = val.to_owned();
                if String::eq(id, &raw) {
                    return true;
                }
                let mut quoted = ("\"").to_owned();
                quoted.append(id.as_str());
                quoted.append("\"");
                proof {
                    reveal_strlit("\"");
                    assert(quoted@ =~= seq!['"'] + id@ + seq!['"']);
                }
                String::eq(&quoted, &raw)
            },
            Selector::Index(_) => false,
        }
    }

    /// Whether the current selector is the index of the element the
    /// parse stands at, and resolves at this context.
    fn is_array_index_selector_selection(&self, ctx: &Context) -> (r: bool)
        ensures
            r == index_selection(*self, *ctx),
    {
        let ns = self.selectors.len();
        let nm = self.stack.len();
        if ns == 0 || nm == 0 {
            return false;
        }
        match &self.selectors[ns - 1] {
            Selector::Identifier(_) => false,
            Selector::Index(k) => {
                matcher_accepts_now(&self.stack[nm - 1], ctx) && self.i == *k
            },
        }
    }

    /// Consume the current selector and matcher and reset the element
    /// index; reports whether the path is now exhausted.
    fn remove_last(&mut self) -> (done: bool)
        ensures
            final (self).selectors@ == drop_last_or_empty(old(self).selectors@),
            final (self).stack@ == drop_last_or_empty(old(self).stack@),
            final (self).i == 0,
            done == (old(self).selectors@.len() <= 1 && old(self).stack@.len() <= 1),
    {
        self.selectors.pop();
        self.stack.pop();
        self.i = 0;
        self.stack.len() == 0 && self.selectors.len() == 0
    }

    /// Count one more element at the current location: the index
    /// advances on a value expected after a comma there.
    fn new_array_location(&mut self, ctx: &Context)
        ensures
            final (self).stack == old(self).stack,
            final (self).selectors == old(self).selectors,
            final (self).i == advanced_index(*old(self), *ctx),
    {
        let nm = self.stack.len();
        let accepts = nm > 0 && matcher_accepts_now(&self.stack[nm - 1], ctx);
        if accepts && ctx.parser_status() == ParserStatus::ArrayNeedVal && self.i < usize::MAX {
            self.i = self.i + 1;
        }
    }
}

impl NdJsonHandler {
    /// Consume the current selector; when the path is exhausted, switch
    /// to emitting at the anchor one array deeper than the parse
    /// stands. Emitting state is left alone.
    fn increment_selectors(&mut self, ctx: &Context)
        ensures
            final (self).out@ == old(self).out@,
            match old(self).context {
                NdjsonContext::Selecting(s) => consumed_transition(s, *ctx, final (self).context),
                NdjsonContext::Writing(w) => final (self).context == old(self).context,
            },
    {
        let update = match &mut self.context {
            NdjsonContext::Selecting(selecting) => selecting.remove_last(),
            NdjsonContext::Writing(_) => false,
        };
        if update {
            let brackets = ctx.num_open_brackets();
            let anchor_brackets: usize = if brackets < usize::MAX {
                brackets + 1
            } else {
                usize::MAX
            };
            self.context = NdjsonContext::Writing(
                WritingCtx {
                    num_open_braces: ctx.num_open_braces(),
                    num_open_brackets: anchor_brackets,
                    inside_array: false,
                    first: true,
                },
            );
        }
    }

    /// One map key: while navigating it may resolve the current
    /// selector; while emitting it is written with its separator and a
    /// trailing colon.
    fn map_key(&mut self, ctx: &Context, val: &str)
        ensures
            match old(self).context {
                NdjsonContext::Selecting(s) => {
                    &&& final (self).out@ == old(self).out@
                    &&& if ident_selection(s, *ctx, val@) {
                        consumed_transition(s, *ctx, final (self).context)
                    } else {
                        final (self).context == old(self).context
                    }
                },
                NdjsonContext::Writing(w) => {
                    &&& final (self).out@ == old(self).out@ + key_sep(w, *ctx) + val@ + seq![
                        ':',
                        ' ',
                    ]
                    &&& (final (self).context matches NdjsonContext::Writing(w2) && w2
                        == wctx_after_value(w, *ctx))
                },
            },
    {
        let selected = match &self.context {
            NdjsonContext::Selecting(select) => select.is_identifier_selector_selection(ctx, val),
            NdjsonContext::Writing(_) => false,
        };
        match &self.context {
            NdjsonContext::Selecting(_) => {
                if selected {
                    self.increment_selectors(ctx);
                }
            },
            NdjsonContext::Writing(w) => {
                let w = *w;
                let mut first = w.first;
                if !at_anchor_now(&w, ctx) && ctx.parser_status() == ParserStatus::MapNeedKey {
                    self.out.append(",");
                    proof {
                        reveal_strlit(",");
                    }
                } else if w.inside_array && at_anchor_now(&w, ctx) {
                    if w.first {
                        first = false;
                    } else {
                        self.out.append("\n");
                        proof {
                            reveal_strlit("\n");
                        }
                    }
                }
                self.out.append(val);
                self.out.append(": ");
                proof {
                    reveal_strlit(": ");
                }
                self.context = NdjsonContext::Writing(
                    WritingCtx {
                        num_open_braces: w.num_open_braces,
                        num_open_brackets: w.num_open_brackets,
                        inside_array: w.inside_array,
                        first,
                    },
                );
            },
        }
    }

    /// One scalar value's text: while navigating it counts an element at
    /// the current location; while emitting it is written with its
    /// separator.
    fn handle_value(&mut self, ctx: &Context, text: &str) -> (r: Status)
        ensures
            r == Status::Continue,
            match old(self).context {
                NdjsonContext::Selecting(s) => {
                    &&& final (self).out@ == old(self).out@
                    &&& (final (self).context matches NdjsonContext::Selecting(s2) && s2.stack
                        == s.stack && s2.selectors == s.selectors && s2.i == advanced_index(
                        s,
                        *ctx,
                    ))
                },
                NdjsonContext::Writing(w) => {
                    &&& final (self).out@ == old(self).out@ + value_sep(w, *ctx) + text@
                    &&& (final (self).context matches NdjsonContext::Writing(w2) && w2
                        == wctx_after_value(w, *ctx))
                },
            },
    {
        match &mut self.context {
            NdjsonContext::Selecting(select) => {
                select.new_array_location(ctx);
                Status::Continue
            },
            NdjsonContext::Writing(w) => {
                let w = *w;
                let mut first = w.first;
                if !at_anchor_now(&w, ctx) && ctx.parser_status() == ParserStatus::ArrayNeedVal {
                    self.out.append(",");
                    proof {
                        reveal_strlit(",");
                    }
                } else if w.inside_array && at_anchor_now(&w, ctx) {
                    if w.first {
                        first = false;
                    } else {
                        self.out.append("\n");
                        proof {
                            reveal_strlit("\n");
                        }
                    }
                }
                self.out.append(text);
                self.context = NdjsonContext::Writing(
                    WritingCtx {
                        num_open_braces: w.num_open_braces,
                        num_open_brackets: w.num_open_brackets,
                        inside_array: w.inside_array,
                        first,
                    },
                );
                Status::Continue
            },
        }
    }

    /// One opening brace: while navigating it counts an element and may
    /// resolve an index selector; while emitting it is written with its
    /// separator and a trailing space.
    fn map_start(&mut self, ctx: &Context)
        ensures
            match old(self).context {
                NdjsonContext::Selecting(s) => {
                    let s_adv = Select { stack: s.stack, selectors: s.selectors, i: advanced_index(s, *ctx) };
                    &&& final (self).out@ == old(self).out@
                    &&& if index_selection(s_adv, *ctx) {
                        consumed_transition(s_adv, *ctx, final (self).context)
                    } else {
                        final (self).context matches NdjsonContext::Selecting(s2) && s2.stack
                            == s.stack && s2.selectors == s.selectors && s2.i == s_adv.i
                    }
                },
                NdjsonContext::Writing(w) => {
                    &&& final (self).out@ == old(self).out@ + open_sep(w, *ctx) + seq!['{', ' ']
                    &&& (final (self).context matches NdjsonContext::Writing(w2) && w2
                        == wctx_after_open(w, *ctx))
                },
            },
    {
        match &mut self.context {
            NdjsonContext::Selecting(select) => {
                select.new_array_location(ctx);
            },
            NdjsonContext::Writing(_) => (),
        }
        let selected = match &self.context {
            NdjsonContext::Selecting(select) => select.is_array_index_selector_selection(ctx),
            NdjsonContext::Writing(_) => false,
        };
        match &self.context {
            NdjsonContext::Selecting(_) => {
                if selected {
                    self.increment_selectors(ctx);
                }
            },
            NdjsonContext::Writing(w) => {
                let w = *w;
                let mut first = w.first;
                if !at_anchor_now(&w, ctx) && ctx.parser_status() == ParserStatus::ArrayNeedVal {
                    self.out.append(",");
                    proof {
                        reveal_strlit(",");
                    }
                } else if at_anchor_now(&w, ctx) {
                    if w.inside_array && w.first {
                        first = false;
                    } else {
                        self.out.append("\n");
                        proof {
                            reveal_strlit("\n");
                        }
                    }
                }
                self.out.append("{ ");
                proof {
                    reveal_strlit("{ ");
                }
                self.context = NdjsonContext::Writing(
                    WritingCtx {
                        num_open_braces: w.num_open_braces,
                        num_open_brackets: w.num_open_brackets,
                        inside_array: w.inside_array,
                        first,
                    },
                );
            },
        }
    }

    /// One closing brace: while emitting it is written with a space
    /// before it, and a newline follows a map that is itself an element
    /// at the anchor.
    fn map_end(&mut self, ctx: &Context)
        ensures
            match old(self).context {
                NdjsonContext::Selecting(s) => final (self).out@ == old(self).out@ && final (
                    self
                ).context == old(self).context,
                NdjsonContext::Writing(w) => {
                    &&& final (self).out@ == old(self).out@ + seq![' ', '}'] + (if at_anchor(
                        w,
                        *ctx,
                    ) {
                        seq!['\n']
                    } else {
                        Seq::<char>::empty()
                    })
                    &&& final (self).context == old(self).context
                },
            },
    {
        match &self.context {
            NdjsonContext::Selecting(_) => (),
            NdjsonContext::Writing(w) => {
                let w = *w;
                self.out.append(" }");
                proof {
                    reveal_strlit(" }");
                }
                if at_anchor_now(&w, ctx) {
                    self.out.append("\n");
                    proof {
                        reveal_strlit("\n");
                    }
                }
            },
        }
    }

    /// One opening bracket: while navigating it counts an element and
    /// may resolve an index selector, possibly beginning emission; while
    /// emitting, the target array's own bracket only raises the
    /// inside-array flag, and deeper brackets are written with their
    /// separator.
    fn array_start(&mut self, ctx: &Context)
        ensures
            match old(self).context {
                NdjsonContext::Selecting(s) => {
                    let s_adv = Select { stack: s.stack, selectors: s.selectors, i: advanced_index(s, *ctx) };
                    &&& final (self).out@ == old(self).out@
                    &&& if index_selection(s_adv, *ctx) {
                        if s_adv.selectors@.len() <= 1 && s_adv.stack@.len() <= 1 {
                            final (self).context matches NdjsonContext::Writing(w2) && w2
                                == (WritingCtx {
                                inside_array: true,
                                ..anchor_after_select(*ctx)
                            })
                        } else {
                            consumed_transition(s_adv, *ctx, final (self).context)
                        }
                    } else {
                        final (self).context matches NdjsonContext::Selecting(s2) && s2.stack
                            == s.stack && s2.selectors == s.selectors && s2.i == s_adv.i
                    }
                },
                NdjsonContext::Writing(w) => {
                    if w.inside_array {
                        &&& final (self).out@ == old(self).out@ + open_sep(w, *ctx) + seq!['[']
                        &&& (final (self).context matches NdjsonContext::Writing(w2) && w2
                            == wctx_after_open(w, *ctx))
                    } else {
                        &&& final (self).out@ == old(self).out@
                        &&& (final (self).context matches NdjsonContext::Writing(w2) && w2
                            == (WritingCtx { inside_array: true, ..w }))
                    }
                },
            },
    {
        let navigating = match &mut self.context {
            NdjsonContext::Selecting(select) => {
                select.new_array_location(ctx);
                true
            },
            NdjsonContext::Writing(_) => false,
        };
        if navigating {
            let selected = match &self.context {
                NdjsonContext::Selecting(select) => select.is_array_index_selector_selection(ctx),
                NdjsonContext::Writing(_) => false,
            };
            if selected {
                self.increment_selectors(ctx);
            }
        }
        match &self.context {
            NdjsonContext::Selecting(_) => (),
            NdjsonContext::Writing(w) => {
                let w = *w;
                if w.inside_array {
                    let mut first = w.first;
                    if !at_anchor_now(&w, ctx) && ctx.parser_status()
                        == ParserStatus::ArrayNeedVal {
                        self.out.append(",");
                        proof {
                            reveal_strlit(",");
                        }
                    } else if at_anchor_now(&w, ctx) {
                        if w.first {
                            first = false;
                        } else {
                            self.out.append("\n");
                            proof {
                                reveal_strlit("\n");
                            }
                        }
                    }
                    self.out.append("[");
                    proof {
                        reveal_strlit("[");
                    }
                    self.context = NdjsonContext::Writing(
                        WritingCtx {
                            num_open_braces: w.num_open_braces,
                            num_open_brackets: w.num_open_brackets,
                            inside_array: w.inside_array,
                            first,
                        },
                    );
                } else {
                    self.context = NdjsonContext::Writing(
                        WritingCtx {
                            num_open_braces: w.num_open_braces,
                            num_open_brackets: w.num_open_brackets,
                            inside_array: true,
                            first: w.first,
                        },
                    );
                }
            },
        }
    }

    /// One closing bracket: the close of the target array ends emission
    /// with a final newline and aborts the parse; deeper brackets are
    /// written through.
    fn array_end(&mut self, ctx: &Context) -> (r: Status)
        ensures
            final (self).context == old(self).context,
            match old(self).context {
                NdjsonContext::Selecting(s) => final (self).out@ == old(self).out@ && r
                    == Status::Continue,
                NdjsonContext::Writing(w) => {
                    &&& final (self).out@ == old(self).out@ + (if w.inside_array && at_anchor(
                        w,
                        *ctx,
                    ) {
                        seq!['\n']
                    } else {
                        Seq::<char>::empty()
                    }) + (if at_anchor(w, *ctx) {
                        Seq::<char>::empty()
                    } else {
                        seq![']']
                    })
                    &&& r == (if at_anchor(w, *ctx) {
                        Status::Abort
                    } else {
                        Status::Continue
                    })
                },
            },
    {
        match &self.context {
            NdjsonContext::Selecting(_) => Status::Continue,
            NdjsonContext::Writing(w) => {
                let w = *w;
                if w.inside_array && at_anchor_now(&w, ctx) {
                    self.out.append("\n");
                    proof {
                        reveal_strlit("\n");
                    }
                }
                if at_anchor_now(&w, ctx) {
                    return Status::Abort;
                }
                self.out.append("]");
                proof {
                    reveal_strlit("]");
                }
                Status::Continue
            },
        }
    }
}

/// Whether the context stands at the anchor depth.
fn at_anchor_now(w: &WritingCtx, ctx: &Context) -> (r: bool)
    ensures
        r == at_anchor(*w, *ctx),
{
    ctx.num_open_brackets() == w.num_open_brackets && ctx.num_open_braces() == w.num_open_braces
}

impl Handler for NdJsonHandler {
    open spec fn observations(&self) -> Seq<Observation> {
        self.observations@
    }

    fn handle_null(&mut self, ctx: &Context) -> (r: Status)
        ensures
            r == Status::Continue,
            match old(self).context {
                NdjsonContext::Selecting(s) => {
                    &&& final (self).out@ == old(self).out@
                    &&& (final (self).context matches NdjsonContext::Selecting(s2) && s2.stack
                        == s.stack && s2.selectors == s.selectors && s2.i == advanced_index(
                        s,
                        *ctx,
                    ))
                },
                NdjsonContext::Writing(w) => {
                    &&& final (self).out@ == old(self).out@ + value_sep(w, *ctx) + "null"@
                    &&& (final (self).context matches NdjsonContext::Writing(w2) && w2
                        == wctx_after_value(w, *ctx))
                },
            },
    {
        let ghost pre = self.observations@;
        let r = self.handle_value(ctx, "null");
        self.observations = Ghost(
            pre.push(Observation { context: *ctx, event: Event::Null, response: r }),
        );
        r
    }

    fn handle_double(&mut self, ctx: &Context, val: &str) -> (r: Status)
        ensures
            r == Status::Continue,
            match old(self).context {
                NdjsonContext::Selecting(s) => {
                    &&& final (self).out@ == old(self).out@
                    &&& (final (self).context matches NdjsonContext::Selecting(s2) && s2.stack
                        == s.stack && s2.selectors == s.selectors && s2.i == advanced_index(
                        s,
                        *ctx,
                    ))
                },
                NdjsonContext::Writing(w) => {
                    &&& final (self).out@ == old(self).out@ + value_sep(w, *ctx) + val@
                    &&& (final (self).context matches NdjsonContext::Writing(w2) && w2
                        == wctx_after_value(w, *ctx))
                },
            },
    {
        let ghost pre = self.observations@;
        let r = self.handle_value(ctx, val);
        self.observations = Ghost(
            pre.push(Observation { context: *ctx, event: Event::Double(val@), response: r }),
        );
        r
    }

    fn handle_int(&mut self, ctx: &Context, val: i64) -> (r: Status)
        ensures
            r == Status::Continue,
            match old(self).context {
                NdjsonContext::Selecting(s) => {
                    &&& final (self).out@ == old(self).out@
                    &&& (final (self).context matches NdjsonContext::Selecting(s2) && s2.stack
                        == s.stack && s2.selectors == s.selectors && s2.i == advanced_index(
                        s,
                        *ctx,
                    ))
                },
                NdjsonContext::Writing(w) => {
                    &&& final (self).out@ == old(self).out@ + value_sep(w, *ctx)
                        + crate::numbers::int_text(val as int)
                    &&& (final (self).context matches NdjsonContext::Writing(w2) && w2
                        == wctx_after_value(w, *ctx))
                },
            },
    {
        let ghost pre = self.observations@;
        let text = i64_to_string(val);
        let r = self.handle_value(ctx, text.as_str());
        self.observations = Ghost(
            pre.push(Observation { context: *ctx, event: Event::Int(val as int), response: r }),
        );
        r
    }

    fn handle_bool(&mut self, ctx: &Context, val: bool) -> (r: Status)
        ensures
            r == Status::Continue,
            match old(self).context {
                NdjsonContext::Selecting(s) => {
                    &&& final (self).out@ == old(self).out@
                    &&& (final (self).context matches NdjsonContext::Selecting(s2) && s2.stack
                        == s.stack && s2.selectors == s.selectors && s2.i == advanced_index(
                        s,
                        *ctx,
                    ))
                },
                NdjsonContext::Writing(w) => {
                    &&& final (self).out@ == old(self).out@ + value_sep(w, *ctx) + (if val {
                        "true"@
                    } else {
                        "false"@
                    })
                    &&& (final (self).context matches NdjsonContext::Writing(w2) && w2
                        == wctx_after_value(w, *ctx))
                },
            },
    {
        let ghost pre = self.observations@;
        let r = if val {
            self.handle_value(ctx, "true")
        } else {
            self.handle_value(ctx, "false")
        };
        self.observations = Ghost(
            pre.push(Observation { context: *ctx, event: Event::Bool(val), response: r }),
        );
        r
    }

    fn handle_string(&mut self, ctx: &Context, val: &str) -> (r: Status)
        ensures
            r == Status::Continue,
            match old(self).context {
                NdjsonContext::Selecting(s) => {
                    &&& final (self).out@ == old(self).out@
                    &&& (final (self).context matches NdjsonContext::Selecting(s2) && s2.stack
                        == s.stack && s2.selectors == s.selectors && s2.i == advanced_index(
                        s,
                        *ctx,
                    ))
                },
                NdjsonContext::Writing(w) => {
                    &&& final (self).out@ == old(self).out@ + value_sep(w, *ctx) + val@
                    &&& (final (self).context matches NdjsonContext::Writing(w2) && w2
                        == wctx_after_value(w, *ctx))
                },
            },
    {
        let ghost pre = self.observations@;
        let r = self.handle_value(ctx, val);
        self.observations = Ghost(
            pre.push(Observation { context: *ctx, event: Event::Str(val@), response: r }),
        );
        r
    }

    fn handle_start_map(&mut self, ctx: &Context) -> (r: Status)
        ensures
            r == Status::Continue,
            match old(self).context {
                NdjsonContext::Selecting(s) => {
                    let s_adv = Select { stack: s.stack, selectors: s.selectors, i: advanced_index(s, *ctx) };
                    &&& final (self).out@ == old(self).out@
                    &&& if index_selection(s_adv, *ctx) {
                        consumed_transition(s_adv, *ctx, final (self).context)
                    } else {
                        final (self).context matches NdjsonContext::Selecting(s2) && s2.stack
                            == s.stack && s2.selectors == s.selectors && s2.i == s_adv.i
                    }
                },
                NdjsonContext::Writing(w) => {
                    &&& final (self).out@ == old(self).out@ + open_sep(w, *ctx) + seq!['{', ' ']
                    &&& (final (self).context matches NdjsonContext::Writing(w2) && w2
                        == wctx_after_open(w, *ctx))
                },
            },
    {
        let ghost pre = self.observations@;
        self.map_start(ctx);
        self.observations = Ghost(
            pre.push(
                Observation { context: *ctx, event: Event::StartMap, response: Status::Continue },
            ),
        );
        Status::Continue
    }

    fn handle_end_map(&mut self, ctx: &Context) -> (r: Status)
        ensures
            r == Status::Continue,
            final (self).context == old(self).context,
            match old(self).context {
                NdjsonContext::Selecting(s) => final (self).out@ == old(self).out@,
                NdjsonContext::Writing(w) => final (self).out@ == old(self).out@ + seq![' ', '}']
                    + (if at_anchor(w, *ctx) {
                    seq!['\n']
                } else {
                    Seq::<char>::empty()
                }),
            },
    {
        let ghost pre = self.observations@;
        self.map_end(ctx);
        self.observations = Ghost(
            pre.push(
                Observation { context: *ctx, event: Event::EndMap, response: Status::Continue },
            ),
        );
        Status::Continue
    }

    fn handle_map_key(&mut self, ctx: &Context, key: &str) -> (r: Status)
        ensures
            r == Status::Continue,
            match old(self).context {
                NdjsonContext::Selecting(s) => {
                    &&& final (self).out@ == old(self).out@
                    &&& if ident_selection(s, *ctx, key@) {
                        consumed_transition(s, *ctx, final (self).context)
                    } else {
                        final (self).context == old(self).context
                    }
                },
                NdjsonContext::Writing(w) => {
                    &&& final (self).out@ == old(self).out@ + key_sep(w, *ctx) + key@ + seq![
                        ':',
                        ' ',
                    ]
                    &&& (final (self).context matches NdjsonContext::Writing(w2) && w2
                        == wctx_after_value(w, *ctx))
                },
            },
    {
        let ghost pre = self.observations@;
        self.map_key(ctx, key);
        self.observations = Ghost(
            pre.push(
                Observation {
                    context: *ctx,
                    event: Event::MapKey(key@),
                    response: Status::Continue,
                },
            ),
        );
        Status::Continue
    }

    fn handle_start_array(&mut self, ctx: &Context) -> (r: Status)
        ensures
            r == Status::Continue,
            match old(self).context {
                NdjsonContext::Selecting(s) => {
                    let s_adv = Select { stack: s.stack, selectors: s.selectors, i: advanced_index(s, *ctx) };
                    &&& final (self).out@ == old(self).out@
                    &&& if index_selection(s_adv, *ctx) {
                        if s_adv.selectors@.len() <= 1 && s_adv.stack@.len() <= 1 {
                            final (self).context matches NdjsonContext::Writing(w2) && w2
                                == (WritingCtx {
                                inside_array: true,
                                ..anchor_after_select(*ctx)
                            })
                        } else {
                            consumed_transition(s_adv, *ctx, final (self).context)
                        }
                    } else {
                        final (self).context matches NdjsonContext::Selecting(s2) && s2.stack
                            == s.stack && s2.selectors == s.selectors && s2.i == s_adv.i
                    }
                },
                NdjsonContext::Writing(w) => {
                    if w.inside_array {
                        &&& final (self).out@ == old(self).out@ + open_sep(w, *ctx) + seq!['[']
                        &&& (final (self).context matches NdjsonContext::Writing(w2) && w2
                            == wctx_after_open(w, *ctx))
                    } else {
                        &&& final (self).out@ == old(self).out@
                        &&& (final (self).context matches NdjsonContext::Writing(w2) && w2
                            == (WritingCtx { inside_array: true, ..w }))
                    }
                },
            },
    {
        let ghost pre = self.observations@;
        self.array_start(ctx);
        self.observations = Ghost(
            pre.push(
                Observation {
                    context: *ctx,
                    event: Event::StartArray,
                    response: Status::Continue,
                },
            ),
        );
        Status::Continue
    }

    fn handle_end_array(&mut self, ctx: &Context) -> (r: Status)
        ensures
            final (self).context == old(self).context,
            match old(self).context {
                NdjsonContext::Selecting(s) => final (self).out@ == old(self).out@ && r
                    == Status::Continue,
                NdjsonContext::Writing(w) => {
                    &&& final (self).out@ == old(self).out@ + (if w.inside_array && at_anchor(
                        w,
                        *ctx,
                    ) {
                        seq!['\n']
                    } else {
                        Seq::<char>::empty()
                    }) + (if at_anchor(w, *ctx) {
                        Seq::<char>::empty()
                    } else {
                        seq![']']
                    })
                    &&& r == (if at_anchor(w, *ctx) {
                        Status::Abort
                    } else {
                        Status::Continue
                    })
                },
            },
    {
        let ghost pre = self.observations@;
        let r = self.array_end(ctx);
        self.observations = Ghost(
            pre.push(Observation { context: *ctx, event: Event::EndArray, response: r }),
        );
        r
    }
}

} // verus!
