//! Behavior at the edges: numeric boundaries, malformed documents,
//! non-ASCII text, aborts, and balanced-event bookkeeping.

use yajlish::Context;
use yajlish::Handler;
use yajlish::ParseError;
use yajlish::Parser;
use yajlish::ParserStatus;
use yajlish::Status;
use yajlish::ndjson_handler::NdJsonHandler;
use yajlish::ndjson_handler::Selector;

/// Counts events and checks the context invariant at each of them.
struct CountingHandler {
    starts: usize,
    ends: usize,
    ints: Vec<i64>,
    doubles: Vec<String>,
    strings: Vec<String>,
    abort_after: Option<usize>,
    seen: usize,
}

impl CountingHandler {
    fn new() -> Self {
        CountingHandler {
            starts: 0,
            ends: 0,
            ints: Vec::new(),
            doubles: Vec::new(),
            strings: Vec::new(),
            abort_after: None,
            seen: 0,
        }
    }

    fn check(&mut self, ctx: &Context) -> Status {
        // the counters sum to the depth of the stack at every event
        let depth = ctx.num_open_braces() + ctx.num_open_brackets();
        match ctx.last_enclosing() {
            Some(_) => assert!(depth > 0),
            None => assert_eq!(depth, 0),
        }
        self.seen += 1;
        match self.abort_after {
            Some(n) if self.seen > n => Status::Abort,
            _ => Status::Continue,
        }
    }
}

impl Handler for CountingHandler {
    fn handle_null(&mut self, ctx: &Context) -> Status {
        self.check(ctx)
    }

    fn handle_double(&mut self, ctx: &Context, val: &str) -> Status {
        self.doubles.push(val.to_owned());
        self.check(ctx)
    }

    fn handle_int(&mut self, ctx: &Context, val: i64) -> Status {
        self.ints.push(val);
        self.check(ctx)
    }

    fn handle_bool(&mut self, ctx: &Context, _val: bool) -> Status {
        self.check(ctx)
    }

    fn handle_string(&mut self, ctx: &Context, val: &str) -> Status {
        self.strings.push(val.to_owned());
        self.check(ctx)
    }

    fn handle_start_map(&mut self, ctx: &Context) -> Status {
        self.starts += 1;
        self.check(ctx)
    }

    fn handle_end_map(&mut self, ctx: &Context) -> Status {
        self.ends += 1;
        self.check(ctx)
    }

    fn handle_map_key(&mut self, ctx: &Context, _key: &str) -> Status {
        self.check(ctx)
    }

    fn handle_start_array(&mut self, ctx: &Context) -> Status {
        self.starts += 1;
        self.check(ctx)
    }

    fn handle_end_array(&mut self, ctx: &Context) -> Status {
        self.ends += 1;
        self.check(ctx)
    }
}

#[test]
fn test_int_boundaries() {
    let mut parser = Parser::new(CountingHandler::new());
    parser
        .parse(b"[9223372036854775807, -9223372036854775808, 9223372036854775808, -0]")
        .unwrap();
    assert_eq!(parser.finish_parse(), Ok(()));
    assert_eq!(parser.handler.ints, vec![i64::MAX, i64::MIN, 0]);
    // one past the largest i64 falls back to the raw numeric text
    assert_eq!(parser.handler.doubles, vec!["9223372036854775808".to_owned()]);
}

#[test]
fn test_balanced_events_on_valid_document() {
    let mut parser = Parser::new(CountingHandler::new());
    parser
        .parse(b"{ \"a\": [1, {\"b\": []}, [{}]], \"c\": {} }")
        .unwrap();
    assert_eq!(parser.finish_parse(), Ok(()));
    assert_eq!(parser.handler.starts, parser.handler.ends);
}

#[test]
fn test_abort_stops_the_parse() {
    let mut handler = CountingHandler::new();
    handler.abort_after = Some(2);
    let mut parser = Parser::new(handler);
    // aborting is not an error, and the document is left incomplete
    assert_eq!(parser.parse(b"[1, 2, 3, 4]"), Ok(()));
    assert_eq!(parser.handler.seen, 3);
    assert!(parser.finish_parse().is_err());
}

#[test]
fn test_unmatched_close_is_malformed() {
    let mut parser = Parser::new(CountingHandler::new());
    assert!(matches!(
        parser.parse(b"[1, 2}"),
        Err(ParseError::MalformedJson(_))
    ));
}

#[test]
fn test_unexpected_token_is_malformed() {
    let mut parser = Parser::new(CountingHandler::new());
    assert!(matches!(
        parser.parse(b"{true}"),
        Err(ParseError::MalformedJson(_))
    ));
}

#[test]
fn test_truncated_document_is_malformed() {
    let mut parser = Parser::new(CountingHandler::new());
    assert!(matches!(
        parser.parse(b"[tru"),
        Err(ParseError::MalformedJson(_))
    ));
}

#[test]
fn test_garbage_byte_is_malformed() {
    let mut parser = Parser::new(CountingHandler::new());
    assert!(matches!(
        parser.parse(b"[1, #]"),
        Err(ParseError::MalformedJson(_))
    ));
}

#[test]
fn test_invalid_utf8_in_string_is_utf8_error() {
    let mut parser = Parser::new(CountingHandler::new());
    assert!(matches!(
        parser.parse(b"[\"\xff\xfe\"]"),
        Err(ParseError::Utf8Error(_))
    ));
}

#[test]
fn test_multibyte_utf8_string_is_decoded() {
    let mut parser = Parser::new(CountingHandler::new());
    parser.parse("[\"caf\u{e9}\", \"\u{1F600}\"]".as_bytes()).unwrap();
    assert_eq!(parser.finish_parse(), Ok(()));
    assert_eq!(
        parser.handler.strings,
        vec!["\"caf\u{e9}\"".to_owned(), "\"\u{1F600}\"".to_owned()]
    );
}

#[test]
fn test_finish_before_end_is_malformed() {
    let mut parser = Parser::new(CountingHandler::new());
    parser.parse(b"[1, 2").unwrap();
    assert!(matches!(
        parser.finish_parse(),
        Err(ParseError::MalformedJson(_))
    ));
}

#[test]
fn test_status_reaches_parse_complete() {
    let mut parser = Parser::new(CountingHandler::new());
    parser.parse(b"17 ").unwrap();
    assert_eq!(parser.context.parser_status(), ParserStatus::ParseComplete);
    assert_eq!(parser.context.num_open_braces(), 0);
    assert_eq!(parser.context.num_open_brackets(), 0);
    assert_eq!(parser.finish_parse(), Ok(()));
}

#[test]
fn test_deeply_nested_value_parses_whole() {
    // a value of depth eight with several children per container
    let input = b"{\"a\": [{\"b\": [{\"c\": [{\"d\": [0, 1.5, \"x\", null, true]}]}, 2]}, false, \"y\"]}";
    let mut parser = Parser::new(CountingHandler::new());
    parser.parse(input).unwrap();
    assert_eq!(parser.finish_parse(), Ok(()));
    assert_eq!(parser.handler.starts, parser.handler.ends);
}

#[test]
fn test_ndjson_round_trip_scalars() {
    // an empty selector re-serializes each top-level element on its line
    let handler = NdJsonHandler::new(vec![]);
    let mut parser = Parser::new(handler);
    parser.parse(b"[1, \"a\", null, true, 2.5]").unwrap();
    assert_eq!(parser.handler.output().as_str(), "1\n\"a\"\nnull\ntrue\n2.5\n");
}

#[test]
fn test_ndjson_int_min_formatting() {
    let handler = NdJsonHandler::new(vec![Selector::Identifier("foo".to_owned())]);
    let mut parser = Parser::new(handler);
    parser
        .parse(b"{ \"foo\": [-9223372036854775808, 0, 42] }")
        .unwrap();
    assert_eq!(parser.handler.output().as_str(), "-9223372036854775808\n0\n42\n");
}

#[test]
fn test_ndjson_selector_never_matches() {
    // a path that never resolves emits nothing, and that is no error
    let handler = NdJsonHandler::new(vec![Selector::Identifier("missing".to_owned())]);
    let mut parser = Parser::new(handler);
    parser.parse(b"{ \"foo\": [1, 2] }").unwrap();
    assert_eq!(parser.finish_parse(), Ok(()));
    assert_eq!(parser.handler.output().as_str(), "");
}

#[test]
fn test_ndjson_quoted_selector_matches_raw_key() {
    let handler = NdJsonHandler::new(vec![Selector::Identifier("\"foo\"".to_owned())]);
    let mut parser = Parser::new(handler);
    parser.parse(b"{ \"foo\": [7, 8] }").unwrap();
    assert_eq!(parser.handler.output().as_str(), "7\n8\n");
}
