//! The newline-delimited-json projection: documents, selector paths,
//! and the exact emitted output.

use yajlish::Parser;
use yajlish::ndjson_handler::NdJsonHandler;
use yajlish::ndjson_handler::Selector;

fn assert_ndjson(input: &[u8], selectors: Vec<Selector>, output: &[u8]) {
    let handler = NdJsonHandler::new(selectors);

    let mut parser = Parser::new(handler);

    parser.parse(input).unwrap();

    assert_eq!(parser.handler.output().as_bytes(), output);
}

#[test]
fn test_array_inside_of_array() {
    assert_ndjson(
        "[{ \"foo\": [1,2,3] },{ \"foo\": [5,4,5] }]".as_bytes(),
        vec![],
        "{ \"foo\": [1,2,3] }\n{ \"foo\": [5,4,5] }\n".as_bytes(),
    );
}

#[test]
fn test_array_of_data() {
    assert_ndjson(
        "[{ \"foo\": true },{ \"foo\": false }]".as_bytes(),
        vec![],
        "{ \"foo\": true }\n{ \"foo\": false }\n".as_bytes(),
    );
}

#[test]
fn test_spurious_key_before_correct_key() {
    assert_ndjson(
        "{ \"foo\": [1,2,3], \"bar\": { \"data\": 10}, \"data\": [10.4,4.4, 5.42] }".as_bytes(),
        vec![Selector::Identifier("data".to_string())],
        "10.4\n4.4\n5.42\n".as_bytes(),
    );
}

#[test]
fn test_key_as_part_of_object_in_array() {
    assert_ndjson(
        "{ \"foo\": [{ \"bar\": { \"baz\": [null, true, false], \"data\": [6, 6.5, null]}}]}"
            .as_bytes(),
        vec![
            Selector::Identifier("foo".to_owned()),
            Selector::Index(0),
            Selector::Identifier("bar".to_owned()),
            Selector::Identifier("data".to_owned()),
        ],
        "6\n6.5\nnull\n".as_bytes(),
    );
}

#[test]
fn test_selector_index() {
    assert_ndjson(
        "{ \"foo\": [[1,2,3], [8.68,null,2.667]]}".as_bytes(),
        vec![Selector::Identifier("foo".to_owned()), Selector::Index(1)],
        "8.68\nnull\n2.667\n".as_bytes(),
    );
}

#[test]
fn test_objects_in_array() {
    assert_ndjson(
        "{ \"foo\": [{ \"bar\": 10}, {\"bar\": 11 }]}".as_bytes(),
        vec![Selector::Identifier("foo".to_owned())],
        "{ \"bar\": 10 }\n{ \"bar\": 11 }\n".as_bytes(),
    )
}

#[test]
fn test_basic_success() {
    assert_ndjson(
        "{ \"foo\": [1, 2, 3] }".as_bytes(),
        vec![Selector::Identifier("foo".to_owned())],
        "1\n2\n3\n".as_bytes(),
    );
}

#[test]
fn test_array_values_of_objects() {
    assert_ndjson(
        "{ \"foo\": [{ \"bar\": [false, null, 10.5, 50]}, { \"bar\": [true,\n 10.4578, null, 60] }]}".as_bytes(),
        vec![Selector::Identifier("foo".to_owned())],
        "{ \"bar\": [false,null,10.5,50] }\n{ \"bar\": [true,10.4578,null,60] }\n".as_bytes()
    );
}

#[test]
fn test_double_index_selector() {
    assert_ndjson(
        "{ \"foo\": [[null,\"foo\",\"bar\"], [{ \"bar\": { \"bar\": [{ \"data\": [1,false,null,5.6]}]}}] }".as_bytes(),
        vec![Selector::Identifier("foo".to_owned()), Selector::Index(1), Selector::Identifier("bar".to_owned()), Selector::Identifier("bar".to_owned()), Selector::Index(0), Selector::Identifier("data".to_owned())],
        "1\nfalse\nnull\n5.6\n".as_bytes()
    );
}

#[test]
fn test_complex() {
    assert_ndjson(
        "{ \"gauss\": [{ \"foo\": null}, [{ \"feynman\": [{ \"foo\": [1, false, \"bar\"]}]}]]}"
            .as_bytes(),
        vec![
            Selector::Identifier("gauss".to_owned()),
            Selector::Index(1),
            Selector::Identifier("feynman".to_owned()),
            Selector::Identifier("foo".to_owned()),
        ],
        "1\nfalse\n\"bar\"\n".as_bytes(),
    );
}

#[test]
fn test_strings_in_array_in_array() {
    assert_ndjson(
        "{ \"gauss\": [false, [\"cauchey\", \"feynman\", \"riemann\"], 1, 2, true]}".as_bytes(),
        vec![Selector::Identifier("gauss".to_owned())],
        "false\n[\"cauchey\",\"feynman\",\"riemann\"]\n1\n2\ntrue\n".as_bytes(),
    );
}

#[test]
fn test_custom_geojson() {
    assert_ndjson(
        "{ \"type\": \"FeatureCollection\", \"features\": [{ \"type\": \"Feature\" }, { \"type\": \"Feature2\" }] }".as_bytes(),
        vec![Selector::Identifier("\"features\"".to_owned())],
        "{ \"type\": \"Feature\" }\n{ \"type\": \"Feature2\" }\n".as_bytes(),
    );
}

#[test]
fn test_custom_json() {
    assert_ndjson(
        "{ \"prizes\": [{ \"year\": 2020, \"category\": \"physics\" }, { \"year\": 2019 }] }"
            .as_bytes(),
        vec![Selector::Identifier("\"prizes\"".to_owned())],
        "{ \"year\": 2020,\"category\": \"physics\" }\n{ \"year\": 2019 }\n".as_bytes(),
    );
}
