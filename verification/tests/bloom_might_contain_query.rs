use bloom_search::bloom_might_contain_query::{
    json_path_prefix, BloomMightContainQuery, FieldEntry, FieldMatch, FieldType, InvalidQuery,
    QueryAst, TantivyQueryAst,
};
use tantivy::schema::{FieldType as SchemaFieldType, Schema as TantivySchema, FAST, TEXT};
use tantivy::Term;

fn text_match(name: &str, indexed: bool) -> FieldMatch {
    FieldMatch {
        field: 7,
        field_entry: FieldEntry {
            name: name.to_string(),
            field_type: FieldType::Str { indexed },
        },
        json_path: String::new(),
    }
}

fn json_match(path: &str, text_indexed: bool, expand_dots: bool) -> FieldMatch {
    FieldMatch {
        field: 258,
        field_entry: FieldEntry {
            name: "attributes".to_string(),
            field_type: FieldType::JsonObject { text_indexed, expand_dots },
        },
        json_path: path.to_string(),
    }
}

fn query(field: &str, base64: &str) -> BloomMightContainQuery {
    BloomMightContainQuery {
        field: field.to_string(),
        bloom_filter_base64: base64.to_string(),
        lenient: false,
    }
}

#[test]
fn test_bloomfilter_query_text_field() {
    let mut schema_builder = TantivySchema::builder();
    schema_builder.add_text_field("field", TEXT | FAST);
    let schema = schema_builder.build();

    let bloom_filter_base64 = "AbQAAAAAAAAACgAAAGY+SCeG/ZunYn1NCgb7ZNqDjdukxYCCqonsR0YMd80ICAABAAAAAQAAQAAABAAAAAAAAAAAAAAQAAAAAAAAAAABAAAEAIAAAAAAAAEAAAAAAAAAAAAAAAgAAAAAAAAAIAAAAAAQAAAAAAAAAAAAAAACAAAAAAAABAAAAAAAAACEAAAAAAAAAABAAAAAAAAAAAIAAAAAAAAKAAgAAAAAAAAAAgCAAAAAACAAAAAACABAAAAAAAAAAAAAACIAAAAAAAAAABAAAAAAAAAAAAAAAAAAAAAA".to_string();

    let query = BloomMightContainQuery {
        field: "field".to_string(),
        bloom_filter_base64: bloom_filter_base64.clone(),
        lenient: false,
    };

    let (schema_field, json_path) = schema.find_field(&query.field).unwrap();
    let entry = schema.get_field_entry(schema_field);
    let field_type = match entry.field_type() {
        SchemaFieldType::Str(options) => FieldType::Str {
            indexed: options.get_indexing_options().is_some(),
        },
        _ => FieldType::Other,
    };
    let found = FieldMatch {
        field: schema_field.field_id(),
        field_entry: FieldEntry { name: entry.name().to_string(), field_type },
        json_path: json_path.to_string(),
    };

    let (field, path, bloom_filter_base64) =
        query.to_field_and_bloom_filter(Some(found.clone())).unwrap();
    assert_eq!(field, schema.get_field("field").unwrap().field_id());
    assert!(path.is_none());
    assert_eq!(bloom_filter_base64, query.bloom_filter_base64);

    let (term, field) = match query.build_tantivy_ast_impl(Some(found)).unwrap() {
        TantivyQueryAst::BloomMightContain { term, field } => (term, field),
        TantivyQueryAst::MatchNone => panic!("expected a query on terms"),
    };
    assert_eq!(field, "field");
    assert_eq!(term.len(), 4 + 1 + 45 + 180);
    assert_eq!(term[..5], [0, 0, 0, 0, b'b']);
    assert_eq!(term[5..18], [1, 180, 0, 0, 0, 0, 0, 0, 0, 10, 0, 0, 0]);
    assert!(bloomfilter::Bloom::<Vec<u8>>::from_slice(&term[5..]).is_ok());
}

#[test]
fn missing_field_is_reported_with_its_path() {
    assert_eq!(
        query("a.b", "").to_field_and_bloom_filter(None),
        Err(InvalidQuery::FieldDoesNotExist { full_path: "a.b".to_string() })
    );
    assert_eq!(
        query("a.b", "AQI=").build_tantivy_ast_impl(None),
        Err(InvalidQuery::FieldDoesNotExist { full_path: "a.b".to_string() })
    );
}

#[test]
fn unindexed_fields_are_rejected_by_name() {
    assert_eq!(
        query("body", "AQI=").to_field_and_bloom_filter(Some(text_match("body", false))),
        Err(InvalidQuery::SchemaError("field body is not full-text searchable".to_string()))
    );
    assert_eq!(
        query("attributes.a", "AQI=")
            .to_field_and_bloom_filter(Some(json_match("a", false, true))),
        Err(InvalidQuery::SchemaError(
            "field attributes is not full-text searchable".to_string()
        ))
    );
}

#[test]
fn other_field_types_are_rejected() {
    let mut found = text_match("count", true);
    found.field_entry.field_type = FieldType::Other;
    assert_eq!(
        query("count", "AQI=").to_field_and_bloom_filter(Some(found.clone())),
        Err(InvalidQuery::SchemaError(
            "trying to run a bloomfilter query on a non-text field".to_string()
        ))
    );
    assert_eq!(
        query("count", "AQI=").build_tantivy_ast_impl(Some(found)),
        Err(InvalidQuery::SchemaError(
            "trying to run a bloomfilter query on a non-text field".to_string()
        ))
    );
}

#[test]
fn json_fields_give_the_path_as_prefix() {
    let resolved = query("attributes.k8s.node", "AQI=")
        .to_field_and_bloom_filter(Some(json_match("k8s.node", true, false)));
    assert_eq!(
        resolved,
        Ok((258, Some(b"k8s\x01node\x00s".to_vec()), "AQI=".to_string()))
    );
    let escaped = query("attributes.k8s\\.node", "AQI=")
        .to_field_and_bloom_filter(Some(json_match("k8s\\.node", true, false)));
    assert_eq!(escaped.unwrap().1, Some(b"k8s.node\x00s".to_vec()));
    let expanded = query("attributes.k8s\\.node", "AQI=")
        .to_field_and_bloom_filter(Some(json_match("k8s\\.node", true, true)));
    assert_eq!(expanded.unwrap().1, Some(b"k8s\x01node\x00s".to_vec()));
}

#[test]
fn prefix_drops_field_and_type_of_a_path_term() {
    assert_eq!(json_path_prefix(vec![0, 0, 1, 2, b'j', b'a', 0]), vec![b'a', 0, b's']);
    assert_eq!(json_path_prefix(vec![0, 0, 1, 2, b'j']), vec![b's']);
}

#[test]
fn filter_becomes_the_value_of_a_term() {
    let built = query("attributes.a", "AQIDBA==")
        .build_tantivy_ast_impl(Some(json_match("a", true, false)))
        .unwrap();
    let expected = vec![0, 0, 1, 2, b'b', 1, 2, 3, 4];
    assert_eq!(
        built,
        TantivyQueryAst::BloomMightContain {
            term: expected.clone(),
            field: "attributes.a".to_string(),
        }
    );
    let term = Term::wrap(expected);
    assert_eq!(term.field().field_id(), 258);
    assert_eq!(term.value().as_bytes(), Some(&[1u8, 2, 3, 4][..]));
}

#[test]
fn text_that_is_not_base64_is_rejected() {
    for base64 in ["AQI", "A", "AQ=I", "?!=="] {
        assert_eq!(
            query("body", base64).build_tantivy_ast_impl(Some(text_match("body", true))),
            Err(InvalidQuery::Other("invalid bloom_filter_base64".to_string()))
        );
    }
    assert_eq!(
        query("body", "x").tantivy_ast(3, None),
        Err(InvalidQuery::Other("invalid bloom_filter_base64".to_string()))
    );
    assert_eq!(
        query("body", "x").tantivy_ast(3, Some(vec![9])),
        Ok(TantivyQueryAst::BloomMightContain {
            term: vec![0, 0, 0, 3, b'b', 9],
            field: "body".to_string(),
        })
    );
}

#[test]
fn queries_convert_unchanged() {
    let posed = BloomMightContainQuery {
        field: "f".to_string(),
        bloom_filter_base64: "AQ==".to_string(),
        lenient: true,
    };
    assert_eq!(
        posed.clone().convert_to_query_ast(),
        Ok(QueryAst::BloomMightContain(posed.clone()))
    );
    assert_eq!(QueryAst::from(posed.clone()), QueryAst::BloomMightContain(posed));
}

#[test]
fn lenient_queries_match_nothing_in_missing_fields() {
    let mut lenient = query("a.b", "AQI=");
    lenient.lenient = true;
    assert_eq!(lenient.build_tantivy_ast_impl(None), Ok(TantivyQueryAst::MatchNone));
    assert_eq!(
        lenient.build_tantivy_ast_impl(Some(text_match("body", false))),
        Err(InvalidQuery::SchemaError("field body is not full-text searchable".to_string()))
    );
    assert_eq!(
        lenient.build_tantivy_ast_impl(Some(text_match("body", true))),
        Ok(TantivyQueryAst::BloomMightContain {
            term: vec![0, 0, 0, 7, b'b', 1, 2],
            field: "a.b".to_string(),
        })
    );
}

#[test]
fn json_paths_are_encoded_character_by_character() {
    let prefix = |path: &str, expand_dots: bool| {
        query("attributes", "AQI=")
            .to_field_and_bloom_filter(Some(json_match(path, true, expand_dots)))
            .unwrap()
            .1
            .unwrap()
    };
    assert_eq!(prefix("", false), b"\x00s".to_vec());
    assert_eq!(prefix(".", true), b"\x01\x00s".to_vec());
    assert_eq!(prefix("a..b", false), b"a\x01\x01b\x00s".to_vec());
    assert_eq!(prefix("a\\\\.b", true), b"a\\\x01b\x00s".to_vec());
    assert_eq!(prefix("a\\b", false), b"ab\x00s".to_vec());
    assert_eq!(prefix("a\\", false), b"a\x00s".to_vec());
    assert_eq!(prefix("\u{e9}.x", false), b"\xc3\xa9\x01x\x00s".to_vec());
}
