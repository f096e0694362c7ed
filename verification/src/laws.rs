//! Laws of the parser as a whole: any json value's canonical text
//! lexes to exactly the value's token sequence, and the transition
//! table accepts that sequence, from the first token to a completed
//! document.

use crate::common::Enclosing;
use crate::common::ParserStatus;
use crate::lexer::SpecLexed;
use crate::lexer::SpecScan;
use crate::lexer::SpecToken;
use crate::lexer::all_hex;
use crate::lexer::digits_end;
use crate::lexer::first_non_ws;
use crate::lexer::is_digit;
use crate::lexer::is_hex;
use crate::lexer::is_simple_escape;
use crate::lexer::is_ws;
use crate::lexer::kw_false;
use crate::lexer::kw_null;
use crate::lexer::kw_true;
use crate::lexer::lex_at;
use crate::lexer::scan_exponent;
use crate::lexer::scan_fraction;
use crate::lexer::scan_keyword;
use crate::lexer::scan_number;
use crate::lexer::scan_string;
use crate::parser::MachineState;
use crate::parser::clean_steps;
use crate::parser::fold_machine;
use crate::parser::initial_machine;
use crate::parser::is_key_status;
use crate::parser::machine_step;
use crate::parser::tail_outcome;
use crate::parser::tokens_from;
use crate::parser::tokens_text_ok;
use crate::parser::value_got_status;
use vstd::prelude::*;

verus! {

broadcast use vstd::seq::axiom_seq_index_decreases, vstd::seq::axiom_seq_subrange_decreases;

/// A json value, as far as the parser's structure is concerned: string
/// and numeric leaves carry their raw token text.
pub ghost enum JsonVal {
    Null,
    Bool(bool),
    Num(Seq<u8>),
    Str(Seq<u8>),
    Arr(Seq<JsonVal>),
    Obj(Seq<(Seq<u8>, JsonVal)>),
}

/// The token sequence of one json value.
pub open spec fn tokens_of_val(v: JsonVal) -> Seq<SpecToken>
    decreases v,
{
    match v {
        JsonVal::Null => seq![SpecToken::Null],
        JsonVal::Bool(b) => {
            if b {
                seq![SpecToken::BoolTrue]
            } else {
                seq![SpecToken::BoolFalse]
            }
        },
        JsonVal::Num(text) => seq![SpecToken::Number(text)],
        JsonVal::Str(text) => seq![SpecToken::String(text)],
        JsonVal::Arr(elems) => seq![SpecToken::LeftBracket] + arr_tokens(elems) + seq![
            SpecToken::RightBracket
        ],
        JsonVal::Obj(fields) => seq![SpecToken::LeftBrace] + obj_tokens(fields) + seq![
            SpecToken::RightBrace
        ],
    }
}

/// The token sequence of array elements, comma-separated.
pub open spec fn arr_tokens(elems: Seq<JsonVal>) -> Seq<SpecToken>
    decreases elems,
{
    if elems.len() == 0 {
        seq![]
    } else if elems.len() == 1 {
        tokens_of_val(elems[0])
    } else {
        arr_tokens(elems.drop_last()) + seq![SpecToken::Comma] + tokens_of_val(elems.last())
    }
}

/// The token sequence of one object member: its key, a colon, and its
/// value.
pub open spec fn field_tokens(f: (Seq<u8>, JsonVal)) -> Seq<SpecToken>
    decreases f,
{
    seq![SpecToken::String(f.0), SpecToken::Colon] + tokens_of_val(f.1)
}

/// The token sequence of object members, comma-separated.
pub open spec fn obj_tokens(fields: Seq<(Seq<u8>, JsonVal)>) -> Seq<SpecToken>
    decreases fields,
{
    if fields.len() == 0 {
        seq![]
    } else if fields.len() == 1 {
        field_tokens(fields[0])
    } else {
        obj_tokens(fields.drop_last()) + seq![SpecToken::Comma] + field_tokens(fields.last())
    }
}

/// Running the machine over concatenated token runs is running it over
/// one, then the other.
pub proof fn lemma_fold_machine_concat(m: MachineState, a: Seq<SpecToken>, b: Seq<SpecToken>)
    ensures
        fold_machine(m, a + b) == fold_machine(fold_machine(m, a), b),
    decreases a.len(),
{
    if a.len() == 0 {
        assert(a + b =~= b);
    } else {
        assert((a + b)[0] == a[0]);
        assert((a + b).skip(1) =~= a.skip(1) + b);
        lemma_fold_machine_concat(machine_step(m, a[0]), a.skip(1), b);
    }
}

/// Running the machine over one token is one step.
pub proof fn lemma_fold_machine_one(m: MachineState, t: SpecToken)
    ensures
        fold_machine(m, seq![t]) == machine_step(m, t),
{
    assert(seq![t][0] == t);
    assert(seq![t].skip(1) =~= Seq::<SpecToken>::empty());
    assert(fold_machine(machine_step(m, t), seq![t].skip(1)) == machine_step(m, t));
}

/// A state that accepts one value whose end returns to this state: the
/// status accepts a value, and agrees with the top of the stack about
/// where the value stands.
pub open spec fn ready_for_value(m: MachineState) -> bool {
    ||| (m.status == ParserStatus::Start && m.stack.len() == 0)
    ||| (m.status == ParserStatus::MapNeedVal && m.stack.len() > 0 && m.stack.last()
        == Enclosing::LeftBrace)
    ||| ((m.status == ParserStatus::ArrayStart || m.status == ParserStatus::ArrayNeedVal)
        && m.stack.len() > 0 && m.stack.last() == Enclosing::LeftBracket)
}

/// From any state that accepts a value, the token sequence of any json
/// value is accepted whole: the stack returns to what it was, and the
/// status records the value, as the transition table does for a scalar.
pub proof fn lemma_value_run(m: MachineState, v: JsonVal)
    requires
        ready_for_value(m),
    ensures
        fold_machine(m, tokens_of_val(v)) == (MachineState {
            stack: m.stack,
            status: value_got_status(m.status),
        }),
    decreases v,
{
    match v {
        JsonVal::Arr(elems) => {
            let m1 = machine_step(m, SpecToken::LeftBracket);
            assert(m1.stack.last() == Enclosing::LeftBracket);
            lemma_fold_machine_concat(
                m,
                seq![SpecToken::LeftBracket] + arr_tokens(elems),
                seq![SpecToken::RightBracket],
            );
            lemma_fold_machine_concat(m, seq![SpecToken::LeftBracket], arr_tokens(elems));
            lemma_fold_machine_one(m, SpecToken::LeftBracket);
            assert((seq![SpecToken::LeftBracket] + arr_tokens(elems)) + seq![
                SpecToken::RightBracket
            ] =~= tokens_of_val(v));
            lemma_arr_run(m1, elems);
            let m2 = fold_machine(m1, arr_tokens(elems));
            lemma_fold_machine_one(m2, SpecToken::RightBracket);
            assert(m2.stack.drop_last() =~= m.stack);
        },
        JsonVal::Obj(fields) => {
            let m1 = machine_step(m, SpecToken::LeftBrace);
            assert(m1.stack.last() == Enclosing::LeftBrace);
            lemma_fold_machine_concat(
                m,
                seq![SpecToken::LeftBrace] + obj_tokens(fields),
                seq![SpecToken::RightBrace],
            );
            lemma_fold_machine_concat(m, seq![SpecToken::LeftBrace], obj_tokens(fields));
            lemma_fold_machine_one(m, SpecToken::LeftBrace);
            assert((seq![SpecToken::LeftBrace] + obj_tokens(fields)) + seq![
                SpecToken::RightBrace
            ] =~= tokens_of_val(v));
            lemma_obj_run(m1, fields);
            let m2 = fold_machine(m1, obj_tokens(fields));
            lemma_fold_machine_one(m2, SpecToken::RightBrace);
            assert(m2.stack.drop_last() =~= m.stack);
        },
        _ => {
            // one scalar token
            let t0 = tokens_of_val(v)[0];
            assert(tokens_of_val(v) =~= seq![t0]);
            lemma_fold_machine_one(m, t0);
            assert(!is_key_status(m.status));
        },
    }
}

/// Comma-separated array elements take the machine from the start of an
/// array to a state that accepts its closing bracket.
pub proof fn lemma_arr_run(m: MachineState, elems: Seq<JsonVal>)
    requires
        m.status == ParserStatus::ArrayStart,
        m.stack.len() > 0,
        m.stack.last() == Enclosing::LeftBracket,
    ensures
        fold_machine(m, arr_tokens(elems)) == (MachineState {
            stack: m.stack,
            status: if elems.len() == 0 {
                ParserStatus::ArrayStart
            } else {
                ParserStatus::ArrayGotVal
            },
        }),
    decreases elems,
{
    if elems.len() == 0 {
    } else if elems.len() == 1 {
        lemma_value_run(m, elems[0]);
    } else {
        lemma_arr_run(m, elems.drop_last());
        let m1 = fold_machine(m, arr_tokens(elems.drop_last()));
        lemma_fold_machine_concat(
            m,
            arr_tokens(elems.drop_last()) + seq![SpecToken::Comma],
            tokens_of_val(elems.last()),
        );
        lemma_fold_machine_concat(m, arr_tokens(elems.drop_last()), seq![SpecToken::Comma]);
        assert((arr_tokens(elems.drop_last()) + seq![SpecToken::Comma]) + tokens_of_val(
            elems.last(),
        ) =~= arr_tokens(elems));
        let m2 = machine_step(m1, SpecToken::Comma);
        lemma_fold_machine_one(m1, SpecToken::Comma);
        assert(fold_machine(m1, seq![SpecToken::Comma]) == m2);
        assert(ready_for_value(m2));
        lemma_value_run(m2, elems.last());
    }
}

/// Comma-separated object members take the machine from the start of a
/// map to a state that accepts its closing brace.
pub proof fn lemma_obj_run(m: MachineState, fields: Seq<(Seq<u8>, JsonVal)>)
    requires
        m.status == ParserStatus::MapStart,
        m.stack.len() > 0,
        m.stack.last() == Enclosing::LeftBrace,
    ensures
        fold_machine(m, obj_tokens(fields)) == (MachineState {
            stack: m.stack,
            status: if fields.len() == 0 {
                ParserStatus::MapStart
            } else {
                ParserStatus::MapGotVal
            },
        }),
    decreases fields,
{
    if fields.len() == 0 {
    } else if fields.len() == 1 {
        lemma_field_run(m, fields[0]);
    } else {
        lemma_obj_run(m, fields.drop_last());
        let m1 = fold_machine(m, obj_tokens(fields.drop_last()));
        lemma_fold_machine_concat(
            m,
            obj_tokens(fields.drop_last()) + seq![SpecToken::Comma],
            field_tokens(fields.last()),
        );
        lemma_fold_machine_concat(m, obj_tokens(fields.drop_last()), seq![SpecToken::Comma]);
        assert((obj_tokens(fields.drop_last()) + seq![SpecToken::Comma]) + field_tokens(
            fields.last(),
        ) =~= obj_tokens(fields));
        let m2 = machine_step(m1, SpecToken::Comma);
        lemma_fold_machine_one(m1, SpecToken::Comma);
        assert(fold_machine(m1, seq![SpecToken::Comma]) == m2);
        lemma_field_run(m2, fields.last());
    }
}

/// One object member: its key takes the machine to the colon, the colon
/// to the value, and the value back to the member's map.
pub proof fn lemma_field_run(m: MachineState, f: (Seq<u8>, JsonVal))
    requires
        is_key_status(m.status),
        m.stack.len() > 0,
        m.stack.last() == Enclosing::LeftBrace,
    ensures
        fold_machine(m, field_tokens(f)) == (MachineState {
            stack: m.stack,
            status: ParserStatus::MapGotVal,
        }),
    decreases f,
{
    let key_colon = seq![SpecToken::String(f.0), SpecToken::Colon];
    lemma_fold_machine_concat(m, key_colon, tokens_of_val(f.1));
    let m1 = machine_step(m, SpecToken::String(f.0));
    let m2 = machine_step(m1, SpecToken::Colon);
    assert(key_colon[0] == SpecToken::String(f.0));
    assert(key_colon.skip(1) =~= seq![SpecToken::Colon]);
    lemma_fold_machine_one(m1, SpecToken::Colon);
    assert(fold_machine(m, key_colon) == m2);
    assert(ready_for_value(m2));
    lemma_value_run(m2, f.1);
}

/// A run of no tokens is clean.
proof fn lemma_clean_empty(m: MachineState)
    ensures
        clean_steps(m, Seq::<SpecToken>::empty()),
{
}

/// A run of one accepted token is clean.
proof fn lemma_clean_one(m: MachineState, t: SpecToken)
    requires
        machine_step(m, t).status != ParserStatus::LexicalError,
    ensures
        clean_steps(m, seq![t]),
{
    assert forall|k: int| 0 <= k < seq![t].len() implies #[trigger] machine_step(
        fold_machine(m, seq![t].take(k)),
        seq![t][k],
    ).status != ParserStatus::LexicalError by {
        assert(seq![t].take(0) =~= Seq::<SpecToken>::empty());
        assert(seq![t][0] == t);
    }
}

/// Clean runs compose over concatenation.
proof fn lemma_clean_concat(m: MachineState, a: Seq<SpecToken>, b: Seq<SpecToken>)
    requires
        clean_steps(m, a),
        clean_steps(fold_machine(m, a), b),
    ensures
        clean_steps(m, a + b),
{
    assert forall|k: int| 0 <= k < (a + b).len() implies #[trigger] machine_step(
        fold_machine(m, (a + b).take(k)),
        (a + b)[k],
    ).status != ParserStatus::LexicalError by {
        if k < a.len() {
            assert((a + b).take(k) =~= a.take(k));
            assert((a + b)[k] == a[k]);
            assert(machine_step(fold_machine(m, a.take(k)), a[k]).status
                != ParserStatus::LexicalError);
        } else {
            assert((a + b).take(k) =~= a + b.take(k - a.len()));
            assert((a + b)[k] == b[k - a.len()]);
            lemma_fold_machine_concat(m, a, b.take(k - a.len()));
            assert(machine_step(
                fold_machine(fold_machine(m, a), b.take(k - a.len())),
                b[k - a.len()],
            ).status != ParserStatus::LexicalError);
        }
    }
}

/// From any state that accepts a value, every transition of the value's
/// token run is accepted by the table.
pub proof fn lemma_value_run_clean(m: MachineState, v: JsonVal)
    requires
        ready_for_value(m),
    ensures
        clean_steps(m, tokens_of_val(v)),
    decreases v,
{
    match v {
        JsonVal::Arr(elems) => {
            let m1 = machine_step(m, SpecToken::LeftBracket);
            lemma_fold_machine_one(m, SpecToken::LeftBracket);
            lemma_clean_one(m, SpecToken::LeftBracket);
            lemma_arr_run_clean(m1, elems);
            lemma_clean_concat(m, seq![SpecToken::LeftBracket], arr_tokens(elems));
            lemma_fold_machine_concat(m, seq![SpecToken::LeftBracket], arr_tokens(elems));
            lemma_arr_run(m1, elems);
            let m2 = fold_machine(m1, arr_tokens(elems));
            assert(m2.stack.last() == Enclosing::LeftBracket);
            lemma_clean_one(m2, SpecToken::RightBracket);
            lemma_clean_concat(
                m,
                seq![SpecToken::LeftBracket] + arr_tokens(elems),
                seq![SpecToken::RightBracket],
            );
            assert((seq![SpecToken::LeftBracket] + arr_tokens(elems)) + seq![
                SpecToken::RightBracket
            ] =~= tokens_of_val(v));
        },
        JsonVal::Obj(fields) => {
            let m1 = machine_step(m, SpecToken::LeftBrace);
            lemma_fold_machine_one(m, SpecToken::LeftBrace);
            lemma_clean_one(m, SpecToken::LeftBrace);
            lemma_obj_run_clean(m1, fields);
            lemma_clean_concat(m, seq![SpecToken::LeftBrace], obj_tokens(fields));
            lemma_fold_machine_concat(m, seq![SpecToken::LeftBrace], obj_tokens(fields));
            lemma_obj_run(m1, fields);
            let m2 = fold_machine(m1, obj_tokens(fields));
            assert(m2.stack.last() == Enclosing::LeftBrace);
            lemma_clean_one(m2, SpecToken::RightBrace);
            lemma_clean_concat(
                m,
                seq![SpecToken::LeftBrace] + obj_tokens(fields),
                seq![SpecToken::RightBrace],
            );
            assert((seq![SpecToken::LeftBrace] + obj_tokens(fields)) + seq![
                SpecToken::RightBrace
            ] =~= tokens_of_val(v));
        },
        _ => {
            let t0 = tokens_of_val(v)[0];
            assert(tokens_of_val(v) =~= seq![t0]);
            assert(!is_key_status(m.status));
            lemma_clean_one(m, t0);
        },
    }
}

/// Every transition of a comma-separated element run is accepted.
pub proof fn lemma_arr_run_clean(m: MachineState, elems: Seq<JsonVal>)
    requires
        m.status == ParserStatus::ArrayStart,
        m.stack.len() > 0,
        m.stack.last() == Enclosing::LeftBracket,
    ensures
        clean_steps(m, arr_tokens(elems)),
    decreases elems,
{
    if elems.len() == 0 {
        lemma_clean_empty(m);
        assert(arr_tokens(elems) =~= Seq::<SpecToken>::empty());
    } else if elems.len() == 1 {
        lemma_value_run_clean(m, elems[0]);
    } else {
        lemma_arr_run_clean(m, elems.drop_last());
        lemma_arr_run(m, elems.drop_last());
        let m1 = fold_machine(m, arr_tokens(elems.drop_last()));
        lemma_clean_one(m1, SpecToken::Comma);
        lemma_clean_concat(m, arr_tokens(elems.drop_last()), seq![SpecToken::Comma]);
        lemma_fold_machine_concat(m, arr_tokens(elems.drop_last()), seq![SpecToken::Comma]);
        lemma_fold_machine_one(m1, SpecToken::Comma);
        let m2 = machine_step(m1, SpecToken::Comma);
        assert(ready_for_value(m2));
        lemma_value_run_clean(m2, elems.last());
        lemma_clean_concat(
            m,
            arr_tokens(elems.drop_last()) + seq![SpecToken::Comma],
            tokens_of_val(elems.last()),
        );
        assert((arr_tokens(elems.drop_last()) + seq![SpecToken::Comma]) + tokens_of_val(
            elems.last(),
        ) =~= arr_tokens(elems));
    }
}

/// Every transition of a comma-separated member run is accepted.
pub proof fn lemma_obj_run_clean(m: MachineState, fields: Seq<(Seq<u8>, JsonVal)>)
    requires
        m.status == ParserStatus::MapStart,
        m.stack.len() > 0,
        m.stack.last() == Enclosing::LeftBrace,
    ensures
        clean_steps(m, obj_tokens(fields)),
    decreases fields,
{
    if fields.len() == 0 {
        lemma_clean_empty(m);
        assert(obj_tokens(fields) =~= Seq::<SpecToken>::empty());
    } else if fields.len() == 1 {
        lemma_field_run_clean(m, fields[0]);
    } else {
        lemma_obj_run_clean(m, fields.drop_last());
        lemma_obj_run(m, fields.drop_last());
        let m1 = fold_machine(m, obj_tokens(fields.drop_last()));
        lemma_clean_one(m1, SpecToken::Comma);
        lemma_clean_concat(m, obj_tokens(fields.drop_last()), seq![SpecToken::Comma]);
        lemma_fold_machine_concat(m, obj_tokens(fields.drop_last()), seq![SpecToken::Comma]);
        lemma_fold_machine_one(m1, SpecToken::Comma);
        let m2 = machine_step(m1, SpecToken::Comma);
        lemma_field_run_clean(m2, fields.last());
        lemma_clean_concat(
            m,
            obj_tokens(fields.drop_last()) + seq![SpecToken::Comma],
            field_tokens(fields.last()),
        );
        assert((obj_tokens(fields.drop_last()) + seq![SpecToken::Comma]) + field_tokens(
            fields.last(),
        ) =~= obj_tokens(fields));
    }
}

/// Every transition of one member's key, colon and value is accepted.
pub proof fn lemma_field_run_clean(m: MachineState, f: (Seq<u8>, JsonVal))
    requires
        is_key_status(m.status),
        m.stack.len() > 0,
        m.stack.last() == Enclosing::LeftBrace,
    ensures
        clean_steps(m, field_tokens(f)),
    decreases f,
{
    let key_colon = seq![SpecToken::String(f.0), SpecToken::Colon];
    let m1 = machine_step(m, SpecToken::String(f.0));
    let m2 = machine_step(m1, SpecToken::Colon);
    lemma_clean_one(m, SpecToken::String(f.0));
    lemma_clean_one(m1, SpecToken::Colon);
    assert(key_colon =~= seq![SpecToken::String(f.0)] + seq![SpecToken::Colon]);
    lemma_fold_machine_one(m, SpecToken::String(f.0));
    lemma_clean_concat(m, seq![SpecToken::String(f.0)], seq![SpecToken::Colon]);
    lemma_fold_machine_concat(m, seq![SpecToken::String(f.0)], seq![SpecToken::Colon]);
    lemma_fold_machine_one(m1, SpecToken::Colon);
    assert(ready_for_value(m2));
    lemma_value_run_clean(m2, f.1);
    lemma_clean_concat(m, key_colon, tokens_of_val(f.1));
}

/// Every string and numeric leaf of the value, and every object key,
/// carries valid UTF-8 text.
pub open spec fn val_text_ok(v: JsonVal) -> bool
    decreases v,
{
    match v {
        JsonVal::Num(text) => vstd::utf8::valid_utf8(text),
        JsonVal::Str(text) => vstd::utf8::valid_utf8(text),
        JsonVal::Arr(elems) => forall|k: int|
            0 <= k < elems.len() ==> val_text_ok(#[trigger] elems[k]),
        JsonVal::Obj(fields) => forall|k: int|
            0 <= k < fields.len() ==> vstd::utf8::valid_utf8((#[trigger] fields[k]).0)
                && val_text_ok(fields[k].1),
        _ => true,
    }
}

/// Text validity of token runs composes over concatenation.
proof fn lemma_text_ok_concat(a: Seq<SpecToken>, b: Seq<SpecToken>)
    requires
        tokens_text_ok(a),
        tokens_text_ok(b),
    ensures
        tokens_text_ok(a + b),
{
    assert forall|k: int| 0 <= k < (a + b).len() implies match #[trigger] (a + b)[k] {
        SpecToken::String(v) => vstd::utf8::valid_utf8(v),
        SpecToken::Number(v) => vstd::utf8::valid_utf8(v),
        _ => true,
    } by {
        if k < a.len() {
            assert((a + b)[k] == a[k]);
        } else {
            assert((a + b)[k] == b[k - a.len()]);
        }
    }
}

/// A value whose leaves carry valid UTF-8 yields only tokens with valid
/// UTF-8 text.
pub proof fn lemma_value_text_ok(v: JsonVal)
    requires
        val_text_ok(v),
    ensures
        tokens_text_ok(tokens_of_val(v)),
    decreases v,
{
    match v {
        JsonVal::Arr(elems) => {
            lemma_arr_text_ok(elems);
            assert(tokens_text_ok(seq![SpecToken::LeftBracket]));
            assert(tokens_text_ok(seq![SpecToken::RightBracket]));
            lemma_text_ok_concat(seq![SpecToken::LeftBracket], arr_tokens(elems));
            lemma_text_ok_concat(
                seq![SpecToken::LeftBracket] + arr_tokens(elems),
                seq![SpecToken::RightBracket],
            );
        },
        JsonVal::Obj(fields) => {
            assert forall|k: int| 0 <= k < fields.len() implies vstd::utf8::valid_utf8(
                (#[trigger] fields[k]).0,
            ) && val_text_ok(fields[k].1) by {
                assert(val_text_ok(fields[k].1));
            }
            lemma_obj_text_ok(fields);
            assert(tokens_text_ok(seq![SpecToken::LeftBrace]));
            assert(tokens_text_ok(seq![SpecToken::RightBrace]));
            lemma_text_ok_concat(seq![SpecToken::LeftBrace], obj_tokens(fields));
            lemma_text_ok_concat(
                seq![SpecToken::LeftBrace] + obj_tokens(fields),
                seq![SpecToken::RightBrace],
            );
        },
        _ => {
            let t0 = tokens_of_val(v)[0];
            assert(tokens_of_val(v) =~= seq![t0]);
        },
    }
}

/// Token text validity of a comma-separated element run.
proof fn lemma_arr_text_ok(elems: Seq<JsonVal>)
    requires
        forall|k: int| 0 <= k < elems.len() ==> val_text_ok(#[trigger] elems[k]),
    ensures
        tokens_text_ok(arr_tokens(elems)),
    decreases elems,
{
    if elems.len() == 0 {
    } else if elems.len() == 1 {
        lemma_value_text_ok(elems[0]);
    } else {
        lemma_arr_text_ok(elems.drop_last());
        lemma_value_text_ok(elems.last());
        assert(tokens_text_ok(seq![SpecToken::Comma]));
        lemma_text_ok_concat(arr_tokens(elems.drop_last()), seq![SpecToken::Comma]);
        lemma_text_ok_concat(
            arr_tokens(elems.drop_last()) + seq![SpecToken::Comma],
            tokens_of_val(elems.last()),
        );
    }
}

/// Token text validity of a comma-separated member run.
proof fn lemma_obj_text_ok(fields: Seq<(Seq<u8>, JsonVal)>)
    requires
        forall|k: int|
            0 <= k < fields.len() ==> vstd::utf8::valid_utf8((#[trigger] fields[k]).0)
                && val_text_ok(fields[k].1),
    ensures
        tokens_text_ok(obj_tokens(fields)),
    decreases fields,
{
    if fields.len() == 0 {
    } else if fields.len() == 1 {
        lemma_field_text_ok(fields[0]);
    } else {
        assert forall|k: int| 0 <= k < fields.drop_last().len() implies vstd::utf8::valid_utf8(
            (#[trigger] fields.drop_last()[k]).0,
        ) && val_text_ok(fields.drop_last()[k].1) by {
            assert(fields.drop_last()[k] == fields[k]);
        }
        lemma_obj_text_ok(fields.drop_last());
        lemma_field_text_ok(fields.last());
        assert(tokens_text_ok(seq![SpecToken::Comma]));
        lemma_text_ok_concat(obj_tokens(fields.drop_last()), seq![SpecToken::Comma]);
        lemma_text_ok_concat(
            obj_tokens(fields.drop_last()) + seq![SpecToken::Comma],
            field_tokens(fields.last()),
        );
    }
}

/// Token text validity of one member's key, colon and value.
proof fn lemma_field_text_ok(f: (Seq<u8>, JsonVal))
    requires
        vstd::utf8::valid_utf8(f.0),
        val_text_ok(f.1),
    ensures
        tokens_text_ok(field_tokens(f)),
    decreases f,
{
    lemma_value_text_ok(f.1);
    assert(tokens_text_ok(seq![SpecToken::String(f.0), SpecToken::Colon]));
    lemma_text_ok_concat(seq![SpecToken::String(f.0), SpecToken::Colon], tokens_of_val(f.1));
}

/// For any json value built of null, booleans, numbers, strings, arrays
/// and objects, the machine accepts the value's token sequence from the
/// initial state, transition by transition: it ends in
/// [`ParserStatus::GotValue`] with an empty stack and refuses no token
/// on the way, so a parse of those tokens reaches
/// [`ParserStatus::ParseComplete`] at the end of the input with both
/// counters zero unless the handler aborts it, and `finish_parse`
/// succeeds.
pub proof fn lemma_value_parse_completes(v: JsonVal)
    ensures
        fold_machine(initial_machine(), tokens_of_val(v)).status == ParserStatus::GotValue,
        fold_machine(initial_machine(), tokens_of_val(v)).stack.len() == 0,
        clean_steps(initial_machine(), tokens_of_val(v)),
        val_text_ok(v) ==> tokens_text_ok(tokens_of_val(v)),
{
    lemma_value_run(initial_machine(), v);
    lemma_value_run_clean(initial_machine(), v);
    if val_text_ok(v) {
        lemma_value_text_ok(v);
    }
}

/// A byte that closes or separates values: `,`, `]` or `}`.
pub open spec fn is_delim(b: u8) -> bool {
    b == 44 || b == 93 || b == 125
}

/// A digit run ends exactly at the first non-digit.
proof fn lemma_digits_end_char(s: Seq<u8>, x: int, y: int)
    requires
        0 <= x <= y <= s.len(),
        forall|k: int| x <= k < y ==> is_digit(#[trigger] s[k]),
        y == s.len() || !is_digit(s[y]),
    ensures
        digits_end(s, x) == y,
    decreases y - x,
{
    if x < y {
        lemma_digits_end_char(s, x + 1, y);
    }
}

/// What stands before and at the end of a digit run.
proof fn lemma_digits_end_props(s: Seq<u8>, x: int)
    requires
        0 <= x <= s.len(),
    ensures
        x <= digits_end(s, x) <= s.len(),
        forall|k: int|
            x <= k < digits_end(s, x) ==> is_digit(#[trigger] s[k]),
        digits_end(s, x) == s.len() || !is_digit(s[digits_end(s, x)]),
    decreases s.len() - x,
{
    if x < s.len() && is_digit(s[x]) {
        lemma_digits_end_props(s, x + 1);
    }
}

/// Whitespace skipping stands still on a non-whitespace byte or at the
/// end of the buffer.
proof fn lemma_first_non_ws_here(s: Seq<u8>, x: int)
    requires
        0 <= x <= s.len(),
        x == s.len() || !is_ws(s[x]),
    ensures
        first_non_ws(s, x) == x,
{
}

/// A string literal scanned whole in its own text is scanned the same
/// way wherever that text stands in a larger buffer.
proof fn lemma_shift_scan_string(s: Seq<u8>, pos: int, t: Seq<u8>, i: int)
    requires
        0 <= pos,
        pos + t.len() <= s.len(),
        s.subrange(pos, pos + t.len()) == t,
        1 <= i <= t.len(),
        scan_string(t, i) == SpecScan::Done(t.len() as int),
    ensures
        scan_string(s, pos + i) == SpecScan::Done(pos + t.len()),
    decreases t.len() - i,
{
    assert(forall|k: int| 0 <= k < t.len() ==> s[pos + k] == #[trigger] t[k]) by {
        assert(forall|k: int|
            0 <= k < t.len() ==> #[trigger] t[k] == s.subrange(pos, pos + t.len())[k]);
    }
    if i == t.len() {
        // scanning an empty tail is incomplete, never done
        assert(scan_string(t, i) is Incomplete);
    } else {
        let b = t[i];
        assert(s[pos + i] == b);
        if b == 34 {
            assert(scan_string(t, i) == SpecScan::Done(i + 1));
            assert(scan_string(s, pos + i) == SpecScan::Done(pos + i + 1));
        } else if b == 92 {
            // a lone backslash at the end would be incomplete
            assert(i + 1 < t.len());
            assert(s[pos + i + 1] == t[i + 1]);
            if is_simple_escape(t[i + 1]) {
                lemma_shift_scan_string(s, pos, t, i + 2);
            } else if t[i + 1] == 117 {
                assert(i + 6 <= t.len() && all_hex(t, i + 2, i + 6));
                assert(all_hex(s, pos + i + 2, pos + i + 6)) by {
                    assert(forall|k: int|
                        pos + i + 2 <= k < pos + i + 6 ==> #[trigger] is_hex(s[k])
                            == is_hex(t[k - pos]));
                }
                lemma_shift_scan_string(s, pos, t, i + 6);
            }
        } else if b < 32 {
            // a control byte is invalid, never done
        } else {
            lemma_shift_scan_string(s, pos, t, i + 1);
        }
    }
}

/// An exponent scanned to the end of its own text is scanned the same
/// way in a larger buffer, when a delimiter or the end follows.
proof fn lemma_shift_scan_exponent(s: Seq<u8>, pos: int, t: Seq<u8>, r: int)
    requires
        0 <= pos,
        pos + t.len() <= s.len(),
        s.subrange(pos, pos + t.len()) == t,
        0 <= r <= t.len(),
        scan_exponent(t, r) == SpecScan::Done(t.len() as int),
        pos + t.len() == s.len() || is_delim(s[pos + t.len()]),
    ensures
        scan_exponent(s, pos + r) == SpecScan::Done(pos + t.len()),
{
    assert(forall|k: int| 0 <= k < t.len() ==> s[pos + k] == #[trigger] t[k]) by {
        assert(forall|k: int|
            0 <= k < t.len() ==> #[trigger] t[k] == s.subrange(pos, pos + t.len())[k]);
    }
    if r == t.len() || (t[r] != 101 && t[r] != 69) {
        // no exponent: the scan was already done at `r`, so `r` is the end
        assert(scan_exponent(t, r) == SpecScan::Done(r));
    } else {
        let u = if r + 1 < t.len() && (t[r + 1] == 43 || t[r + 1] == 45) {
            r + 2
        } else {
            r + 1
        };
        assert(u < t.len() && is_digit(t[u]));
        assert(digits_end(t, u) == t.len());
        lemma_digits_end_props(t, u);
        let su = pos + u;
        assert(su == if pos + r + 1 < s.len() && (s[pos + r + 1] == 43 || s[pos + r + 1] == 45) {
            pos + r + 2
        } else {
            pos + r + 1
        });
        assert forall|k: int| su <= k < pos + t.len() implies is_digit(#[trigger] s[k]) by {
            assert(s[k] == t[k - pos]);
            assert(is_digit(t[k - pos]));
        }
        lemma_digits_end_char(s, su, pos + t.len());
    }
}

/// A fraction and exponent scanned to the end of their own text are
/// scanned the same way in a larger buffer, when a delimiter or the end
/// follows.
proof fn lemma_shift_scan_fraction(s: Seq<u8>, pos: int, t: Seq<u8>, q: int)
    requires
        0 <= pos,
        pos + t.len() <= s.len(),
        s.subrange(pos, pos + t.len()) == t,
        0 <= q <= t.len(),
        scan_fraction(t, q) == SpecScan::Done(t.len() as int),
        pos + t.len() == s.len() || is_delim(s[pos + t.len()]),
    ensures
        scan_fraction(s, pos + q) == SpecScan::Done(pos + t.len()),
{
    assert(forall|k: int| 0 <= k < t.len() ==> s[pos + k] == #[trigger] t[k]) by {
        assert(forall|k: int|
            0 <= k < t.len() ==> #[trigger] t[k] == s.subrange(pos, pos + t.len())[k]);
    }
    if q == t.len() || t[q] != 46 {
        lemma_shift_scan_exponent(s, pos, t, q);
    } else {
        assert(q + 1 < t.len() && is_digit(t[q + 1]));
        let d = digits_end(t, q + 1);
        lemma_digits_end_props(t, q + 1);
        assert(scan_exponent(t, d) == SpecScan::Done(t.len() as int));
        assert forall|k: int| pos + q + 1 <= k < pos + d implies is_digit(#[trigger] s[k]) by {
            assert(s[k] == t[k - pos]);
            assert(is_digit(t[k - pos]));
        }
        lemma_digits_end_char(s, pos + q + 1, pos + d);
        lemma_shift_scan_exponent(s, pos, t, d);
    }
}

/// A numeric literal scanned whole in its own text is scanned the same
/// way wherever that text stands in a larger buffer, when a delimiter
/// or the end follows it.
proof fn lemma_shift_scan_number(s: Seq<u8>, pos: int, t: Seq<u8>)
    requires
        0 <= pos,
        t.len() > 0,
        pos + t.len() <= s.len(),
        s.subrange(pos, pos + t.len()) == t,
        scan_number(t, 0) == SpecScan::Done(t.len() as int),
        pos + t.len() == s.len() || is_delim(s[pos + t.len()]),
    ensures
        scan_number(s, pos) == SpecScan::Done(pos + t.len()),
{
    assert(forall|k: int| 0 <= k < t.len() ==> s[pos + k] == #[trigger] t[k]) by {
        assert(forall|k: int|
            0 <= k < t.len() ==> #[trigger] t[k] == s.subrange(pos, pos + t.len())[k]);
    }
    let p = if t[0] == 45 {
        1int
    } else {
        0int
    };
    assert(p < t.len() && is_digit(t[p as int]));
    if t[p as int] == 48 {
        lemma_shift_scan_fraction(s, pos, t, p + 1);
    } else {
        let d = digits_end(t, p);
        lemma_digits_end_props(t, p);
        assert(scan_fraction(t, d) == SpecScan::Done(t.len() as int));
        assert forall|k: int| pos + p <= k < pos + d implies is_digit(#[trigger] s[k]) by {
            assert(s[k] == t[k - pos]);
            assert(is_digit(t[k - pos]));
        }
        lemma_digits_end_char(s, pos + p, pos + d);
        lemma_shift_scan_fraction(s, pos, t, d);
    }
}

/// The canonical textual encoding of one json value, without
/// whitespace: leaves stand as their token text, arrays and objects
/// wrap their comma-separated parts in brackets and braces.
pub open spec fn bytes_of_val(v: JsonVal) -> Seq<u8>
    decreases v,
{
    match v {
        JsonVal::Null => kw_null(),
        JsonVal::Bool(b) => {
            if b {
                kw_true()
            } else {
                kw_false()
            }
        },
        JsonVal::Num(text) => text,
        JsonVal::Str(text) => text,
        JsonVal::Arr(elems) => seq![91u8] + arr_bytes(elems) + seq![93u8],
        JsonVal::Obj(fields) => seq![123u8] + obj_bytes(fields) + seq![125u8],
    }
}

/// The canonical text of array elements, comma-separated.
pub open spec fn arr_bytes(elems: Seq<JsonVal>) -> Seq<u8>
    decreases elems,
{
    if elems.len() == 0 {
        seq![]
    } else if elems.len() == 1 {
        bytes_of_val(elems[0])
    } else {
        arr_bytes(elems.drop_last()) + seq![44u8] + bytes_of_val(elems.last())
    }
}

/// The canonical text of one object member: its key, a colon, its
/// value.
pub open spec fn field_bytes(f: (Seq<u8>, JsonVal)) -> Seq<u8>
    decreases f,
{
    f.0 + seq![58u8] + bytes_of_val(f.1)
}

/// The canonical text of object members, comma-separated.
pub open spec fn obj_bytes(fields: Seq<(Seq<u8>, JsonVal)>) -> Seq<u8>
    decreases fields,
{
    if fields.len() == 0 {
        seq![]
    } else if fields.len() == 1 {
        field_bytes(fields[0])
    } else {
        obj_bytes(fields.drop_last()) + seq![44u8] + field_bytes(fields.last())
    }
}

/// `text` is one whole numeric token.
pub open spec fn wf_num_text(text: Seq<u8>) -> bool {
    &&& text.len() > 0
    &&& (text[0] == 45 || is_digit(text[0]))
    &&& scan_number(text, 0) == SpecScan::Done(text.len() as int)
}

/// `text` is one whole string token, quotes included.
pub open spec fn wf_str_text(text: Seq<u8>) -> bool {
    &&& text.len() >= 1
    &&& text[0] == 34
    &&& scan_string(text, 1) == SpecScan::Done(text.len() as int)
}

/// Every numeric leaf of the value is a whole numeric token, and every
/// string leaf and object key a whole string token.
pub open spec fn val_lex_ok(v: JsonVal) -> bool
    decreases v,
{
    match v {
        JsonVal::Num(text) => wf_num_text(text),
        JsonVal::Str(text) => wf_str_text(text),
        JsonVal::Arr(elems) => forall|k: int|
            0 <= k < elems.len() ==> val_lex_ok(#[trigger] elems[k]),
        JsonVal::Obj(fields) => forall|k: int|
            0 <= k < fields.len() ==> wf_str_text((#[trigger] fields[k]).0) && val_lex_ok(
                fields[k].1,
            ),
        _ => true,
    }
}

/// A value's canonical text is non-empty, and begins with a byte that
/// is neither whitespace nor a delimiter.
proof fn lemma_bytes_first(v: JsonVal)
    requires
        val_lex_ok(v),
    ensures
        bytes_of_val(v).len() > 0,
        !is_ws(bytes_of_val(v)[0]),
        !is_delim(bytes_of_val(v)[0]),
{
    match v {
        JsonVal::Null => {
            assert(bytes_of_val(v)[0] == 110);
        },
        JsonVal::Bool(b) => {
            assert(bytes_of_val(v)[0] == 116 || bytes_of_val(v)[0] == 102);
        },
        JsonVal::Num(text) => {
            assert(bytes_of_val(v)[0] == text[0]);
        },
        JsonVal::Str(text) => {
            assert(bytes_of_val(v)[0] == 34);
        },
        JsonVal::Arr(elems) => {
            assert(bytes_of_val(v)[0] == 91);
        },
        JsonVal::Obj(fields) => {
            assert(bytes_of_val(v)[0] == 123);
        },
    }
}

/// One string token at `pos`, recognized whole, with nothing skipped
/// behind it.
proof fn lemma_lex_string_token(s: Seq<u8>, pos: int, text: Seq<u8>)
    requires
        wf_str_text(text),
        0 <= pos,
        pos + text.len() <= s.len(),
        s.subrange(pos, pos + text.len()) == text,
        pos + text.len() == s.len() || !is_ws(s[pos + text.len()]),
    ensures
        lex_at(s, pos) == SpecLexed::Token(SpecToken::String(text), pos + text.len()),
    decreases text.len(),
{
    assert(forall|k: int| 0 <= k < text.len() ==> s[pos + k] == #[trigger] text[k]) by {
        assert(forall|k: int|
            0 <= k < text.len() ==> #[trigger] text[k] == s.subrange(pos, pos + text.len())[k]);
    }
    assert(s[pos] == 34);
    lemma_first_non_ws_here(s, pos);
    lemma_shift_scan_string(s, pos, text, 1);
    lemma_first_non_ws_here(s, pos + text.len());
    assert(s.subrange(pos, pos + text.len()) == text);
}

/// One numeric token at `pos`, ended by a delimiter or the end of the
/// buffer.
proof fn lemma_lex_number_token(s: Seq<u8>, pos: int, text: Seq<u8>)
    requires
        wf_num_text(text),
        0 <= pos,
        pos + text.len() <= s.len(),
        s.subrange(pos, pos + text.len()) == text,
        pos + text.len() == s.len() || is_delim(s[pos + text.len()]),
    ensures
        lex_at(s, pos) == SpecLexed::Token(SpecToken::Number(text), pos + text.len()),
{
    assert(forall|k: int| 0 <= k < text.len() ==> s[pos + k] == #[trigger] text[k]) by {
        assert(forall|k: int|
            0 <= k < text.len() ==> #[trigger] text[k] == s.subrange(pos, pos + text.len())[k]);
    }
    assert(s[pos] == text[0]);
    lemma_first_non_ws_here(s, pos);
    lemma_shift_scan_number(s, pos, text);
    lemma_first_non_ws_here(s, pos + text.len());
    assert(s.subrange(pos, pos + text.len()) == text);
}

/// One keyword token at `pos`, with a non-whitespace byte or the end of
/// the buffer behind it.
proof fn lemma_lex_keyword_token(s: Seq<u8>, pos: int, kw: Seq<u8>, tok: SpecToken)
    requires
        0 <= pos,
        pos + kw.len() <= s.len(),
        s.subrange(pos, pos + kw.len()) == kw,
        pos + kw.len() == s.len() || !is_ws(s[pos + kw.len()]),
        kw == kw_null() && tok == SpecToken::Null || kw == kw_true() && tok == SpecToken::BoolTrue
            || kw == kw_false() && tok == SpecToken::BoolFalse,
    ensures
        lex_at(s, pos) == SpecLexed::Token(tok, pos + kw.len()),
{
    assert(forall|k: int| 0 <= k < kw.len() ==> s[pos + k] == #[trigger] kw[k]) by {
        assert(forall|k: int|
            0 <= k < kw.len() ==> #[trigger] kw[k] == s.subrange(pos, pos + kw.len())[k]);
    }
    lemma_first_non_ws_here(s, pos);
    assert(scan_keyword(s, pos, kw) == SpecScan::Done(pos + kw.len()));
    lemma_first_non_ws_here(s, pos + kw.len());
}

/// One single-byte structural token at `pos`, with a non-whitespace
/// byte or the end of the buffer behind it.
proof fn lemma_lex_punct_token(s: Seq<u8>, pos: int, b: u8, tok: SpecToken)
    requires
        0 <= pos < s.len(),
        s[pos] == b,
        pos + 1 == s.len() || !is_ws(s[pos + 1]),
        b == 123 && tok == SpecToken::LeftBrace || b == 125 && tok == SpecToken::RightBrace || b
            == 91 && tok == SpecToken::LeftBracket || b == 93 && tok == SpecToken::RightBracket || b
            == 44 && tok == SpecToken::Comma || b == 58 && tok == SpecToken::Colon,
    ensures
        lex_at(s, pos) == SpecLexed::Token(tok, pos + 1),
{
    lemma_first_non_ws_here(s, pos);
    lemma_first_non_ws_here(s, pos + 1);
}

/// Lexing one token steps the token sequence and leaves the tail alone.
proof fn lemma_tokens_from_step(s: Seq<u8>, pos: int, tok: SpecToken, n: int)
    requires
        0 <= pos <= s.len(),
        lex_at(s, pos) == SpecLexed::Token(tok, n),
        pos < n <= s.len(),
    ensures
        tokens_from(s, pos) == seq![tok] + tokens_from(s, n),
        tail_outcome(s, pos) == tail_outcome(s, n),
{
}

/// The canonical text of a non-empty element run begins with its first
/// element's first byte: no whitespace and no delimiter.
proof fn lemma_arr_bytes_first(elems: Seq<JsonVal>)
    requires
        elems.len() > 0,
        forall|k: int| 0 <= k < elems.len() ==> val_lex_ok(#[trigger] elems[k]),
    ensures
        arr_bytes(elems).len() > 0,
        !is_ws(arr_bytes(elems)[0]),
        !is_delim(arr_bytes(elems)[0]),
    decreases elems,
{
    if elems.len() == 1 {
        lemma_bytes_first(elems[0]);
    } else {
        assert forall|k: int| 0 <= k < elems.drop_last().len() implies val_lex_ok(
            #[trigger] elems.drop_last()[k],
        ) by {
            assert(elems.drop_last()[k] == elems[k]);
        }
        lemma_arr_bytes_first(elems.drop_last());
        assert(arr_bytes(elems)[0] == arr_bytes(elems.drop_last())[0]);
    }
}

/// The canonical text of a non-empty member run begins with its first
/// key's opening quote.
proof fn lemma_obj_bytes_first(fields: Seq<(Seq<u8>, JsonVal)>)
    requires
        fields.len() > 0,
        forall|k: int|
            0 <= k < fields.len() ==> wf_str_text((#[trigger] fields[k]).0) && val_lex_ok(
                fields[k].1,
            ),
    ensures
        obj_bytes(fields).len() > 0,
        obj_bytes(fields)[0] == 34,
    decreases fields,
{
    if fields.len() == 1 {
        assert(field_bytes(fields[0])[0] == fields[0].0[0]);
    } else {
        assert forall|k: int| 0 <= k < fields.drop_last().len() implies wf_str_text(
            (#[trigger] fields.drop_last()[k]).0,
        ) && val_lex_ok(fields.drop_last()[k].1) by {
            assert(fields.drop_last()[k] == fields[k]);
        }
        lemma_obj_bytes_first(fields.drop_last());
        assert(obj_bytes(fields)[0] == obj_bytes(fields.drop_last())[0]);
    }
}

/// A segment of the shape `a + [m] + b` splits into its three parts.
proof fn lemma_split_three(s: Seq<u8>, pos: int, a: Seq<u8>, m: u8, b: Seq<u8>)
    requires
        0 <= pos,
        pos + (a + seq![m] + b).len() <= s.len(),
        s.subrange(pos, pos + (a + seq![m] + b).len()) == a + seq![m] + b,
    ensures
        s.subrange(pos, pos + a.len()) == a,
        s[pos + a.len()] == m,
        s.subrange(pos + a.len() + 1, pos + (a + seq![m] + b).len()) == b,
{
    let w = a + seq![m] + b;
    assert(forall|k: int| 0 <= k < w.len() ==> s[pos + k] == #[trigger] w[k]) by {
        assert(forall|k: int|
            0 <= k < w.len() ==> #[trigger] w[k] == s.subrange(pos, pos + w.len())[k]);
    }
    assert forall|k: int| 0 <= k < a.len() implies s.subrange(pos, pos + a.len())[k] == #[trigger] a[k] by {
        assert(s[pos + k] == w[k]);
        assert(w[k] == a[k]);
    }
    assert(s.subrange(pos, pos + a.len()) =~= a);
    assert(s[pos + a.len()] == w[a.len() as int]);
    assert(w[a.len() as int] == m);
    assert forall|k: int|
        0 <= k < b.len() implies s.subrange(pos + a.len() + 1, pos + w.len())[k] == #[trigger] b[k] by {
        assert(s[pos + a.len() + 1 + k] == w[a.len() + 1 + k]);
        assert(w[a.len() + 1 + k] == b[k]);
    }
    assert(s.subrange(pos + a.len() + 1, pos + w.len()) =~= b);
}

/// A segment of the shape `[l] + mid + [r]` splits into its three
/// parts.
proof fn lemma_split_wrap(s: Seq<u8>, pos: int, l: u8, mid: Seq<u8>, r: u8)
    requires
        0 <= pos,
        pos + (seq![l] + mid + seq![r]).len() <= s.len(),
        s.subrange(pos, pos + (seq![l] + mid + seq![r]).len()) == seq![l] + mid + seq![r],
    ensures
        s[pos] == l,
        s.subrange(pos + 1, pos + 1 + mid.len()) == mid,
        s[pos + 1 + mid.len()] == r,
{
    let w = seq![l] + mid + seq![r];
    assert(forall|k: int| 0 <= k < w.len() ==> s[pos + k] == #[trigger] w[k]) by {
        assert(forall|k: int|
            0 <= k < w.len() ==> #[trigger] w[k] == s.subrange(pos, pos + w.len())[k]);
    }
    assert(s[pos] == w[0] && w[0] == l);
    assert forall|k: int|
        0 <= k < mid.len() implies s.subrange(pos + 1, pos + 1 + mid.len())[k] == #[trigger] mid[k] by {
        assert(s[pos + 1 + k] == w[1 + k]);
        assert(w[1 + k] == mid[k]);
    }
    assert(s.subrange(pos + 1, pos + 1 + mid.len()) =~= mid);
    assert(s[pos + 1 + mid.len()] == w[(1 + mid.len()) as int]);
    assert(w[(1 + mid.len()) as int] == r);
}

/// Lexing the canonical text of one value at `pos` yields exactly the
/// value's tokens and then continues behind it, when a delimiter or the
/// end of the buffer follows.
#[verifier::rlimit(60)]
proof fn lemma_lex_value(s: Seq<u8>, pos: int, v: JsonVal)
    requires
        val_lex_ok(v),
        0 <= pos,
        pos + bytes_of_val(v).len() <= s.len(),
        s.subrange(pos, pos + bytes_of_val(v).len()) == bytes_of_val(v),
        pos + bytes_of_val(v).len() == s.len() || is_delim(s[pos + bytes_of_val(v).len()]),
    ensures
        tokens_from(s, pos) == tokens_of_val(v) + tokens_from(s, pos + bytes_of_val(v).len()),
        tail_outcome(s, pos) == tail_outcome(s, pos + bytes_of_val(v).len()),
    decreases v,
{
    let bv = bytes_of_val(v);
    let end = pos + bv.len();
    assert(forall|k: int| 0 <= k < bv.len() ==> s[pos + k] == #[trigger] bv[k]) by {
        assert(forall|k: int| 0 <= k < bv.len() ==> #[trigger] bv[k] == s.subrange(pos, end)[k]);
    }
    match v {
        JsonVal::Null => {
            lemma_lex_keyword_token(s, pos, kw_null(), SpecToken::Null);
            lemma_tokens_from_step(s, pos, SpecToken::Null, end);
            assert(tokens_of_val(v) =~= seq![SpecToken::Null]);
        },
        JsonVal::Bool(b) => {
            if b {
                lemma_lex_keyword_token(s, pos, kw_true(), SpecToken::BoolTrue);
                lemma_tokens_from_step(s, pos, SpecToken::BoolTrue, end);
            } else {
                lemma_lex_keyword_token(s, pos, kw_false(), SpecToken::BoolFalse);
                lemma_tokens_from_step(s, pos, SpecToken::BoolFalse, end);
            }
        },
        JsonVal::Num(text) => {
            lemma_lex_number_token(s, pos, text);
            lemma_tokens_from_step(s, pos, SpecToken::Number(text), end);
        },
        JsonVal::Str(text) => {
            lemma_lex_string_token(s, pos, text);
            lemma_tokens_from_step(s, pos, SpecToken::String(text), end);
        },
        JsonVal::Arr(elems) => {
            let ab = arr_bytes(elems);
            let p1 = pos + 1;
            let p2 = p1 + ab.len();
            lemma_split_wrap(s, pos, 91, ab, 93);
            if elems.len() > 0 {
                lemma_arr_bytes_first(elems);
                assert(s[p1] == ab[0]);
            }
            lemma_lex_punct_token(s, pos, 91, SpecToken::LeftBracket);
            lemma_tokens_from_step(s, pos, SpecToken::LeftBracket, p1);
            lemma_lex_arr(s, p1, elems);
            lemma_lex_punct_token(s, p2, 93, SpecToken::RightBracket);
            lemma_tokens_from_step(s, p2, SpecToken::RightBracket, end);
            assert(tokens_from(s, pos) =~= tokens_of_val(v) + tokens_from(s, end));
        },
        JsonVal::Obj(fields) => {
            let ob = obj_bytes(fields);
            let p1 = pos + 1;
            let p2 = p1 + ob.len();
            lemma_split_wrap(s, pos, 123, ob, 125);
            if fields.len() > 0 {
                lemma_obj_bytes_first(fields);
                assert(s[p1] == ob[0]);
            }
            lemma_lex_punct_token(s, pos, 123, SpecToken::LeftBrace);
            lemma_tokens_from_step(s, pos, SpecToken::LeftBrace, p1);
            lemma_lex_obj(s, p1, fields);
            lemma_lex_punct_token(s, p2, 125, SpecToken::RightBrace);
            lemma_tokens_from_step(s, p2, SpecToken::RightBrace, end);
            assert(tokens_from(s, pos) =~= tokens_of_val(v) + tokens_from(s, end));
        },
    }
}

/// Lexing a comma-separated element run yields the elements' tokens.
#[verifier::rlimit(60)]
proof fn lemma_lex_arr(s: Seq<u8>, pos: int, elems: Seq<JsonVal>)
    requires
        forall|k: int| 0 <= k < elems.len() ==> val_lex_ok(#[trigger] elems[k]),
        0 <= pos,
        pos + arr_bytes(elems).len() <= s.len(),
        s.subrange(pos, pos + arr_bytes(elems).len()) == arr_bytes(elems),
        pos + arr_bytes(elems).len() == s.len() || is_delim(s[pos + arr_bytes(elems).len()]),
    ensures
        tokens_from(s, pos) == arr_tokens(elems) + tokens_from(s, pos + arr_bytes(elems).len()),
        tail_outcome(s, pos) == tail_outcome(s, pos + arr_bytes(elems).len()),
    decreases elems,
{
    let ab = arr_bytes(elems);
    let end = pos + ab.len();
    assert(forall|k: int| 0 <= k < ab.len() ==> s[pos + k] == #[trigger] ab[k]) by {
        assert(forall|k: int| 0 <= k < ab.len() ==> #[trigger] ab[k] == s.subrange(pos, end)[k]);
    }
    if elems.len() == 0 {
        assert(arr_tokens(elems) + tokens_from(s, pos) =~= tokens_from(s, pos));
    } else if elems.len() == 1 {
        lemma_lex_value(s, pos, elems[0]);
    } else {
        let front = elems.drop_last();
        let fb = arr_bytes(front);
        let lb = bytes_of_val(elems.last());
        let p1 = pos + fb.len();
        let p2 = p1 + 1;
        assert forall|k: int| 0 <= k < front.len() implies val_lex_ok(#[trigger] front[k]) by {
            assert(front[k] == elems[k]);
        }
        lemma_split_three(s, pos, fb, 44, lb);
        lemma_lex_arr(s, pos, front);
        lemma_bytes_first(elems.last());
        assert(s[p2] == lb[0]);
        lemma_lex_punct_token(s, p1, 44, SpecToken::Comma);
        lemma_tokens_from_step(s, p1, SpecToken::Comma, p2);
        lemma_lex_value(s, p2, elems.last());
        assert(tokens_from(s, pos) =~= arr_tokens(elems) + tokens_from(s, end));
    }
}

/// Lexing a comma-separated member run yields the members' tokens.
#[verifier::rlimit(60)]
proof fn lemma_lex_obj(s: Seq<u8>, pos: int, fields: Seq<(Seq<u8>, JsonVal)>)
    requires
        forall|k: int|
            0 <= k < fields.len() ==> wf_str_text((#[trigger] fields[k]).0) && val_lex_ok(
                fields[k].1,
            ),
        0 <= pos,
        pos + obj_bytes(fields).len() <= s.len(),
        s.subrange(pos, pos + obj_bytes(fields).len()) == obj_bytes(fields),
        pos + obj_bytes(fields).len() == s.len() || is_delim(s[pos + obj_bytes(fields).len()]),
    ensures
        tokens_from(s, pos) == obj_tokens(fields) + tokens_from(s, pos + obj_bytes(fields).len()),
        tail_outcome(s, pos) == tail_outcome(s, pos + obj_bytes(fields).len()),
    decreases fields,
{
    let ob = obj_bytes(fields);
    let end = pos + ob.len();
    assert(forall|k: int| 0 <= k < ob.len() ==> s[pos + k] == #[trigger] ob[k]) by {
        assert(forall|k: int| 0 <= k < ob.len() ==> #[trigger] ob[k] == s.subrange(pos, end)[k]);
    }
    if fields.len() == 0 {
        assert(obj_tokens(fields) + tokens_from(s, pos) =~= tokens_from(s, pos));
    } else if fields.len() == 1 {
        lemma_lex_field(s, pos, fields[0]);
    } else {
        let front = fields.drop_last();
        let fb = obj_bytes(front);
        let lb = field_bytes(fields.last());
        let p1 = pos + fb.len();
        let p2 = p1 + 1;
        assert forall|k: int| 0 <= k < front.len() implies wf_str_text(
            (#[trigger] front[k]).0,
        ) && val_lex_ok(front[k].1) by {
            assert(front[k] == fields[k]);
        }
        lemma_split_three(s, pos, fb, 44, lb);
        lemma_lex_obj(s, pos, front);
        assert(lb[0] == fields.last().0[0]);
        assert(s[p2] == 34);
        lemma_lex_punct_token(s, p1, 44, SpecToken::Comma);
        lemma_tokens_from_step(s, p1, SpecToken::Comma, p2);
        lemma_lex_field(s, p2, fields.last());
        assert(tokens_from(s, pos) =~= obj_tokens(fields) + tokens_from(s, end));
    }
}

/// Lexing one member yields its key, the colon, and its value's tokens.
#[verifier::rlimit(60)]
proof fn lemma_lex_field(s: Seq<u8>, pos: int, f: (Seq<u8>, JsonVal))
    requires
        wf_str_text(f.0),
        val_lex_ok(f.1),
        0 <= pos,
        pos + field_bytes(f).len() <= s.len(),
        s.subrange(pos, pos + field_bytes(f).len()) == field_bytes(f),
        pos + field_bytes(f).len() == s.len() || is_delim(s[pos + field_bytes(f).len()]),
    ensures
        tokens_from(s, pos) == field_tokens(f) + tokens_from(s, pos + field_bytes(f).len()),
        tail_outcome(s, pos) == tail_outcome(s, pos + field_bytes(f).len()),
    decreases f,
{
    let fb = field_bytes(f);
    let end = pos + fb.len();
    assert(forall|k: int| 0 <= k < fb.len() ==> s[pos + k] == #[trigger] fb[k]) by {
        assert(forall|k: int| 0 <= k < fb.len() ==> #[trigger] fb[k] == s.subrange(pos, end)[k]);
    }
    let p1 = pos + f.0.len();
    let p2 = p1 + 1;
    lemma_split_three(s, pos, f.0, 58, bytes_of_val(f.1));
    lemma_lex_string_token(s, pos, f.0);
    lemma_tokens_from_step(s, pos, SpecToken::String(f.0), p1);
    lemma_bytes_first(f.1);
    assert(s[p2] == bytes_of_val(f.1)[0]);
    lemma_lex_punct_token(s, p1, 58, SpecToken::Colon);
    lemma_tokens_from_step(s, p1, SpecToken::Colon, p2);
    lemma_lex_value(s, p2, f.1);
    assert(tokens_from(s, pos) =~= field_tokens(f) + tokens_from(s, end));
}

/// The lexer turns a value's canonical text into exactly the value's
/// token sequence, and reports a clean end behind it.
pub proof fn lemma_value_document_lexes(v: JsonVal)
    requires
        val_lex_ok(v),
    ensures
        tokens_from(bytes_of_val(v), 0) == tokens_of_val(v),
        tail_outcome(bytes_of_val(v), 0) is End,
{
    let s = bytes_of_val(v);
    assert(s.subrange(0, s.len() as int) =~= s);
    lemma_lex_value(s, 0, v);
    lemma_first_non_ws_here(s, s.len() as int);
    assert(lex_at(s, s.len() as int) == SpecLexed::End);
    assert(tokens_from(s, s.len() as int) =~= Seq::<SpecToken>::empty());
    assert(tokens_of_val(v) + Seq::<SpecToken>::empty() =~= tokens_of_val(v));
}

/// Parsing the canonical textual encoding of any json value succeeds:
/// the value's bytes lex to its token sequence with a clean end, the
/// transition table accepts every token of that sequence, every token's
/// text is valid UTF-8, and the run ends in [`ParserStatus::GotValue`]
/// with an empty stack. These are exactly the conditions under which
/// `Parser::parse` promises `Ok` on a fresh parser, with
/// [`ParserStatus::ParseComplete`] and both counters zero at the end,
/// so `finish_parse` succeeds.
pub proof fn lemma_canonical_document_parses(v: JsonVal)
    requires
        val_lex_ok(v),
        val_text_ok(v),
    ensures
        tokens_from(bytes_of_val(v), 0) == tokens_of_val(v),
        tail_outcome(bytes_of_val(v), 0) is End,
        clean_steps(initial_machine(), tokens_from(bytes_of_val(v), 0)),
        tokens_text_ok(tokens_from(bytes_of_val(v), 0)),
        fold_machine(initial_machine(), tokens_from(bytes_of_val(v), 0)).status
            == ParserStatus::GotValue,
        fold_machine(initial_machine(), tokens_from(bytes_of_val(v), 0)).stack.len() == 0,
{
    lemma_value_document_lexes(v);
    lemma_value_parse_completes(v);
}

} // verus!
