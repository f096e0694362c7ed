//! Document-level cases: one small json document each, with the full
//! event transcript the parser dispatches for it.

use yajlish::Context;
use yajlish::Handler;
use yajlish::Parser;
use yajlish::Status;

pub struct TranscriptHandler {
    out: Vec<u8>,
}

impl TranscriptHandler {
    pub fn new() -> Self {
        TranscriptHandler { out: Vec::new() }
    }
}

impl Handler for TranscriptHandler {
    fn handle_bool(&mut self, _ctx: &Context, val: bool) -> Status {
        self.out.extend_from_slice(format!("bool: {}\n", val).as_bytes());
        Status::Continue
    }

    fn handle_double(&mut self, _ctx: &Context, val: &str) -> Status {
        let parsed: f64 = val.parse().expect("numeric token");
        self.out.extend_from_slice(format!("double: {}\n", parsed).as_bytes());
        Status::Continue
    }

    fn handle_end_array(&mut self, _ctx: &Context) -> Status {
        self.out.extend_from_slice(b"array close ']'\n");
        Status::Continue
    }

    fn handle_end_map(&mut self, _ctx: &Context) -> Status {
        self.out.extend_from_slice(b"map close '}'\n");
        Status::Continue
    }

    fn handle_int(&mut self, _ctx: &Context, val: i64) -> Status {
        self.out.extend_from_slice(format!("integer: {}\n", val).as_bytes());
        Status::Continue
    }

    fn handle_map_key(&mut self, _ctx: &Context, key: &str) -> Status {
        self.out.extend_from_slice(format!("key: {}\n", key).as_bytes());
        Status::Continue
    }

    fn handle_null(&mut self, _ctx: &Context) -> Status {
        self.out.extend_from_slice(b"null\n");
        Status::Continue
    }

    fn handle_start_array(&mut self, _ctx: &Context) -> Status {
        self.out.extend_from_slice(b"array open '['\n");
        Status::Continue
    }

    fn handle_start_map(&mut self, _ctx: &Context) -> Status {
        self.out.extend_from_slice(b"map open '{'\n");
        Status::Continue
    }

    fn handle_string(&mut self, _ctx: &Context, val: &str) -> Status {
        self.out.extend_from_slice(format!("string: '{}'\n", val).as_bytes());
        Status::Continue
    }
}

fn assert_transcript(input: &[u8], output: &[u8]) {
    let handler = TranscriptHandler::new();
    let mut parser = Parser::new(handler);

    parser.parse(input).unwrap();

    assert_eq!(parser.finish_parse(), Ok(()));
    assert_eq!(parser.handler.out, output);
}

#[test]
fn test_true() {
    assert_transcript(b"true", b"bool: true\n");
}

#[test]
fn test_false() {
    assert_transcript(b"false", b"bool: false\n");
}

#[test]
fn test_null() {
    assert_transcript(b"null", b"null\n");
}

#[test]
fn test_parser_test_cases_test_empty_array() {
    assert_transcript(b"[]", b"array open '['\narray close ']'\n");
}

#[test]
fn test_empty_string() {
    assert_transcript(b"\"\"", "string: '\"\"'\n".as_bytes());
}

#[test]
fn test_integers() {
    assert_transcript(
        b"[1, 2, 3, 129, -1, 0]",
        b"array open '['\ninteger: 1\ninteger: 2\ninteger: 3\ninteger: 129\ninteger: -1\ninteger: 0\narray close ']'\n",
    );
}

#[test]
fn test_deep_arrays() {
    let mut input = Vec::new();
    let mut output = Vec::new();
    for _ in 0..8 {
        input.push(b'[');
        output.extend_from_slice(b"array open '['\n");
    }
    for _ in 0..8 {
        input.push(b']');
        output.extend_from_slice(b"array close ']'\n");
    }
    assert_transcript(&input, &output);
}

#[test]
fn test_array_of_arrays() {
    assert_transcript(
        b"[[1, 2], [3, 4]]",
        b"array open '['\narray open '['\ninteger: 1\ninteger: 2\narray close ']'\narray open '['\ninteger: 3\ninteger: 4\narray close ']'\narray close ']'\n",
    );
}

#[test]
fn test_nested_maps() {
    assert_transcript(
        b"{\"a\": {\"b\": true}}",
        "map open '{'\nkey: \"a\"\nmap open '{'\nkey: \"b\"\nbool: true\nmap close '}'\nmap close '}'\n".as_bytes(),
    );
}

#[test]
fn test_nested_arrays() {
    assert_transcript(
        b"[1, [2, [3]]]",
        b"array open '['\ninteger: 1\narray open '['\ninteger: 2\narray open '['\ninteger: 3\narray close ']'\narray close ']'\narray close ']'\n",
    );
}

#[test]
fn test_quote_at_end() {
    assert_transcript(b"\"value ends at the quote\"", "string: '\"value ends at the quote\"'\n".as_bytes());
}
