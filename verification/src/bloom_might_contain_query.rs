//! The query for documents whose term might be contained in a given Bloom filter.
use vstd::prelude::*;
use vstd::std_specs::convert::FromSpec;
use vstd::utf8::encode_utf8;

use crate::index_terms;
use crate::index_terms::{
    base64_decoded, encoded_json_path, field_id_bytes, json_path_chars, law_utf8_injective,
    lemma_utf8_zero_byte, BYTES_CODE, END_OF_PATH, FIELD_ID_LEN, STR_CODE,
};

verus! {

/// Asks for the documents whose term in `field` the given filter might contain.
#[derive(PartialEq, Eq, Debug, Clone)]
pub struct BloomMightContainQuery {
    /// The field, or the path into a JSON field, that is searched.
    pub field: String,
    /// The encoding of the filter, in base64.
    pub bloom_filter_base64: String,
    /// Support missing fields: a query on a field that the schema does not have
    /// matches nothing, where it would be rejected otherwise.
    pub lenient: bool,
}

/// How a field is indexed, as far as this query needs to know.
#[derive(PartialEq, Eq, Debug, Clone)]
pub enum FieldType {
    /// A text field, which may be indexed.
    Str { indexed: bool },
    /// A JSON field, the texts in which may be indexed, and in which dots in the
    /// names of keys may separate names.
    JsonObject { text_indexed: bool, expand_dots: bool },
    /// A field of any other type.
    Other,
}

/// A field of the schema.
#[derive(PartialEq, Eq, Debug, Clone)]
pub struct FieldEntry {
    pub name: String,
    pub field_type: FieldType,
}

/// What the schema has for the field of a query.
#[derive(PartialEq, Eq, Debug, Clone)]
pub struct FieldMatch {
    /// The identifier of the field.
    pub field: u32,
    /// The field itself.
    pub field_entry: FieldEntry,
    /// The rest of the queried path, which leads into the field.
    pub json_path: String,
}

/// Why a query cannot be run.
#[derive(PartialEq, Eq, Debug, Clone)]
pub enum InvalidQuery {
    /// The schema has no such field.
    FieldDoesNotExist { full_path: String },
    /// The schema does not allow this query on the field.
    SchemaError(String),
    /// Any other reason.
    Other(String),
}

/// A query on the terms of the index.
#[derive(PartialEq, Eq, Debug, Clone)]
pub enum TantivyQueryAst {
    /// The documents that have a term in `field` which the filter in the value of
    /// `term` might contain. `term` holds the bytes of a term.
    BloomMightContain { term: Vec<u8>, field: String },
    /// No document.
    MatchNone,
}

/// A query as users pose it.
#[derive(PartialEq, Eq, Debug, Clone)]
pub enum QueryAst {
    BloomMightContain(BloomMightContainQuery),
}

/// What is reported of a field that is not indexed.
pub open spec fn not_searchable(field_name: Seq<char>) -> Seq<char> {
    "field "@ + field_name + " is not full-text searchable"@
}

/// What the terms under a JSON path start with in the dictionary of the field,
/// given the encoded path: the path and the type code of texts.
pub open spec fn dictionary_prefix(encoded_path: Seq<u8>) -> Seq<u8> {
    encoded_path.push(STR_CODE)
}

fn not_searchable_error(field_name: &String) -> (error: InvalidQuery)
    ensures
        error matches InvalidQuery::SchemaError(message) && message@ == not_searchable(field_name@),
{
    InvalidQuery::SchemaError(
        "field ".to_owned().concat(field_name.as_str()).concat(" is not full-text searchable"),
    )
}

/// What the terms under a JSON path start with in the dictionary of the field,
/// given a term for the path that has no value yet. The field identifier and the
/// JSON type code at its start are not present in the dictionary.
pub fn json_path_prefix(path_term: Vec<u8>) -> (prefix: Vec<u8>)
    requires
        path_term@.len() > FIELD_ID_LEN,
    ensures
        prefix@ == dictionary_prefix(path_term@.skip(FIELD_ID_LEN + 1)),
        prefix@ == path_term@.skip(FIELD_ID_LEN + 1).push(STR_CODE),
{
    let ghost path = path_term@;
    let text_term = index_terms::append_type_and_str(path_term, "");
    proof {
        reveal_strlit("");
        assert(""@ =~= Seq::empty());
        assert(encode_utf8(""@) =~= Seq::empty());
    }
    let mut value = index_terms::value_bytes(text_term);
    let prefix = value.split_off(1);
    assert(prefix@ =~= path.skip(FIELD_ID_LEN + 1).push(STR_CODE));
    prefix
}

impl FieldMatch {
    /// The terms of the field can be searched: it holds texts, and they are indexed.
    pub open spec fn is_searchable(&self) -> bool {
        match self.field_entry.field_type {
            FieldType::Str { indexed } => indexed,
            FieldType::JsonObject { text_indexed, expand_dots: _ } => text_indexed,
            FieldType::Other => false,
        }
    }

    /// `prefix` is what the terms in question start with in the dictionary of the
    /// field: nothing in particular in a text field, the queried path in a JSON
    /// field.
    pub open spec fn is_path_prefix(&self, prefix: Option<Vec<u8>>) -> bool {
        match self.field_entry.field_type {
            FieldType::JsonObject { text_indexed: _, expand_dots } => prefix matches Some(bytes)
                && bytes@ == dictionary_prefix(encoded_json_path(self.json_path@, expand_dots)),
            _ => prefix is None,
        }
    }

    /// `error` reports that the field is not indexed.
    pub open spec fn is_not_searchable_error(&self, error: InvalidQuery) -> bool {
        error matches InvalidQuery::SchemaError(message) && message@ == not_searchable(
            self.field_entry.name@,
        )
    }
}

/// What the terms under a JSON path start with is the whole path, the end of the path and
/// the type code of texts.
pub proof fn law_whole_path_in_prefix(found: FieldMatch, prefix: Vec<u8>)
    requires
        found.field_entry.field_type is JsonObject,
        found.is_path_prefix(Some(prefix)),
    ensures
        ({
            let path = encode_utf8(
                json_path_chars(
                    found.json_path@,
                    found.field_entry.field_type->JsonObject_expand_dots,
                ),
            );
            &&& prefix@.len() == path.len() + 2
            &&& prefix@.take(path.len() as int) == path
            &&& prefix@[path.len() as int] == END_OF_PATH
            &&& prefix@.last() == STR_CODE
        }),
{
    let path = encode_utf8(
        json_path_chars(found.json_path@, found.field_entry.field_type->JsonObject_expand_dots),
    );
    assert(prefix@.take(path.len() as int) =~= path);
}

/// Different paths have different prefixes. No term under one path starts as those under the
/// other do, unless a name in the other path holds the character that ends paths.
pub proof fn law_different_paths_different_prefixes(
    a: FieldMatch,
    b: FieldMatch,
    prefix_a: Vec<u8>,
    prefix_b: Vec<u8>,
)
    requires
        a.field_entry.field_type is JsonObject,
        b.field_entry.field_type is JsonObject,
        a.is_path_prefix(Some(prefix_a)),
        b.is_path_prefix(Some(prefix_b)),
        json_path_chars(a.json_path@, a.field_entry.field_type->JsonObject_expand_dots)
            != json_path_chars(b.json_path@, b.field_entry.field_type->JsonObject_expand_dots),
    ensures
        prefix_a@ != prefix_b@,
        !json_path_chars(
            b.json_path@,
            b.field_entry.field_type->JsonObject_expand_dots,
        ).contains('\0') ==> !prefix_a@.is_prefix_of(prefix_b@),
{
    let chars_a = json_path_chars(
        a.json_path@,
        a.field_entry.field_type->JsonObject_expand_dots,
    );
    let chars_b = json_path_chars(
        b.json_path@,
        b.field_entry.field_type->JsonObject_expand_dots,
    );
    let (path_a, path_b) = (encode_utf8(chars_a), encode_utf8(chars_b));
    law_whole_path_in_prefix(a, prefix_a);
    law_whole_path_in_prefix(b, prefix_b);
    law_utf8_injective(chars_a, chars_b);
    if prefix_a@.is_prefix_of(prefix_b@) {
        let end = path_a.len() as int;
        assert(prefix_a@ == prefix_b@.take(prefix_a@.len() as int));
        assert(prefix_b@[end] == prefix_a@[end]);
        if path_a.len() < path_b.len() {
            assert(path_b[end] == prefix_b@.take(path_b.len() as int)[end]);
            lemma_utf8_zero_byte(chars_b, end);
        } else {
            assert(path_a =~= path_b) by {
                assert forall|i: int| 0 <= i < path_a.len() implies path_a[i] == path_b[i] by {
                    assert(path_a[i] == prefix_a@.take(path_a.len() as int)[i]);
                    assert(path_b[i] == prefix_b@.take(path_b.len() as int)[i]);
                }
            }
        }
    }
}

/// The terms of a text field have no prefix in common.
pub proof fn law_text_field_has_no_prefix(found: FieldMatch, prefix: Option<Vec<u8>>)
    requires
        found.field_entry.field_type is Str,
    ensures
        found.is_path_prefix(prefix) <==> prefix is None,
{
}

impl BloomMightContainQuery {
    /// The field to search, what the terms in question start with if they lie
    /// under a JSON path, and the filter in base64. `found` is what the schema has
    /// for the field of this query.
    pub fn to_field_and_bloom_filter(&self, found: Option<FieldMatch>) -> (result: Result<
        (u32, Option<Vec<u8>>, String),
        InvalidQuery,
    >)
        ensures
            match result {
                Ok((field, prefix, base64)) => {
                    &&& found matches Some(found)
                    &&& found.is_searchable()
                    &&& field == found.field
                    &&& found.is_path_prefix(prefix)
                    &&& base64@ == self.bloom_filter_base64@
                },
                Err(error) => self.is_rejection(found, error),
            },
            match found {
                None => result matches Err(InvalidQuery::FieldDoesNotExist { full_path })
                    && full_path@ == self.field@,
                Some(found) => match found.field_entry.field_type {
                    FieldType::Str { indexed: true } => result matches Ok((field, None, base64))
                        && field == found.field && base64@ == self.bloom_filter_base64@,
                    FieldType::JsonObject { text_indexed: true, expand_dots } => {
                        &&& result matches Ok((field, Some(prefix), base64))
                        &&& field == found.field
                        &&& prefix@ == encoded_json_path(found.json_path@, expand_dots).push(
                            STR_CODE,
                        )
                        &&& base64@ == self.bloom_filter_base64@
                    },
                    FieldType::Other => result matches Err(InvalidQuery::SchemaError(message))
                        && message@ == "trying to run a bloomfilter query on a non-text field"@,
                    _ => result matches Err(InvalidQuery::SchemaError(message)) && message@
                        == "field "@ + found.field_entry.name@ + " is not full-text searchable"@,
                },
            },
    {
        let found = match found {
            Some(found) => found,
            None => {
                return Err(InvalidQuery::FieldDoesNotExist { full_path: self.field.clone() });
            },
        };
        match found.field_entry.field_type {
            FieldType::Str { indexed } => {
                if !indexed {
                    return Err(not_searchable_error(&found.field_entry.name));
                }
                Ok((found.field, None, self.bloom_filter_base64.clone()))
            },
            FieldType::JsonObject { text_indexed, expand_dots } => {
                if !text_indexed {
                    return Err(not_searchable_error(&found.field_entry.name));
                }
                let path_term = index_terms::json_path_term(
                    found.field,
                    found.json_path.as_str(),
                    expand_dots,
                );
                assert(path_term@.skip(FIELD_ID_LEN + 1) =~= encoded_json_path(
                    found.json_path@,
                    expand_dots,
                ));
                let byte_path_prefix = json_path_prefix(path_term);
                Ok((found.field, Some(byte_path_prefix), self.bloom_filter_base64.clone()))
            },
            FieldType::Other => Err(
                InvalidQuery::SchemaError(
                    "trying to run a bloomfilter query on a non-text field".to_owned(),
                ),
            ),
        }
    }

    /// The query on the terms of the index that this query stands for. `found` is
    /// what the schema has for the field of this query; a lenient query on a field
    /// that is not there matches nothing.
    pub fn build_tantivy_ast_impl(&self, found: Option<FieldMatch>) -> (result: Result<
        TantivyQueryAst,
        InvalidQuery,
    >)
        ensures
            if found is None && self.lenient {
                result == Ok::<_, InvalidQuery>(TantivyQueryAst::MatchNone)
            } else if found is Some && found->0.is_searchable() {
                self.is_tantivy_ast(
                    found->0.field,
                    base64_decoded(self.bloom_filter_base64@),
                    result,
                )
            } else {
                result matches Err(error) && self.is_rejection(found, error)
            },
            match found {
                None => if self.lenient {
                    result == Ok::<_, InvalidQuery>(TantivyQueryAst::MatchNone)
                } else {
                    result matches Err(InvalidQuery::FieldDoesNotExist { full_path }) && full_path@
                        == self.field@
                },
                Some(found) => match found.field_entry.field_type {
                    FieldType::Other => result matches Err(InvalidQuery::SchemaError(message))
                        && message@ == "trying to run a bloomfilter query on a non-text field"@,
                    FieldType::Str { indexed: false } => result matches Err(
                        InvalidQuery::SchemaError(message),
                    ) && message@ == "field "@ + found.field_entry.name@
                        + " is not full-text searchable"@,
                    FieldType::JsonObject { text_indexed: false, .. } => result matches Err(
                        InvalidQuery::SchemaError(message),
                    ) && message@ == "field "@ + found.field_entry.name@
                        + " is not full-text searchable"@,
                    _ => match base64_decoded(self.bloom_filter_base64@) {
                        Some(bytes) => {
                            &&& result matches Ok(
                                TantivyQueryAst::BloomMightContain { term, field: path },
                            )
                            &&& term@ == field_id_bytes(found.field).push(BYTES_CODE) + bytes
                            &&& path@ == self.field@
                        },
                        None => result matches Err(InvalidQuery::Other(message)) && message@
                            == "invalid bloom_filter_base64"@,
                    },
                },
            },
    {
        if found.is_none() && self.lenient {
            return Ok(TantivyQueryAst::MatchNone);
        }
        match self.to_field_and_bloom_filter(found) {
            Ok((field, _, bloom_filter_base64)) => {
                let bloom_filter = match index_terms::decode_base64(&bloom_filter_base64) {
                    Ok(bytes) => Some(bytes),
                    Err(_) => None,
                };
                self.tantivy_ast(field, bloom_filter)
            },
            Err(error) => Err(error),
        }
    }

    /// The query on the terms of `field` for the filter with the given encoding;
    /// `None` stands for a text that was not base64.
    pub fn tantivy_ast(&self, field: u32, bloom_filter: Option<Vec<u8>>) -> (result: Result<
        TantivyQueryAst,
        InvalidQuery,
    >)
        ensures
            self.is_tantivy_ast(
                field,
                match bloom_filter {
                    Some(bytes) => Some(bytes@),
                    None => None,
                },
                result,
            ),
            match bloom_filter {
                Some(bytes) => {
                    &&& result matches Ok(TantivyQueryAst::BloomMightContain { term, field: path })
                    &&& term@ == field_id_bytes(field).push(BYTES_CODE) + bytes@
                    &&& path@ == self.field@
                },
                None => result matches Err(InvalidQuery::Other(message)) && message@
                    == "invalid bloom_filter_base64"@,
            },
    {
        match bloom_filter {
            Some(bytes) => Ok(
                TantivyQueryAst::BloomMightContain {
                    term: index_terms::bytes_term(field, bytes.as_slice()),
                    field: self.field.clone(),
                },
            ),
            None => Err(InvalidQuery::Other("invalid bloom_filter_base64".to_owned())),
        }
    }

    /// `result` is the query on the terms of `field` for the given filter, or the
    /// report that there is no filter.
    pub open spec fn is_tantivy_ast(
        &self,
        field: u32,
        bloom_filter: Option<Seq<u8>>,
        result: Result<TantivyQueryAst, InvalidQuery>,
    ) -> bool {
        match bloom_filter {
            Some(bytes) => {
                &&& result matches Ok(TantivyQueryAst::BloomMightContain { term, field: path })
                &&& term@ == field_id_bytes(field).push(BYTES_CODE) + bytes
                &&& path@ == self.field@
            },
            None => result matches Err(InvalidQuery::Other(message)) && message@
                == "invalid bloom_filter_base64"@,
        }
    }

    /// This query as one of the queries that users pose. Every query converts.
    pub fn convert_to_query_ast(self) -> (result: Result<QueryAst, InvalidQuery>)
        ensures
            result matches Ok(QueryAst::BloomMightContain(query)) && query == self,
    {
        Ok(QueryAst::from(self))
    }

    /// `error` is why this query cannot be run where the schema has `found` for its
    /// field; there is no such error where that field is searchable.
    pub open spec fn is_rejection(&self, found: Option<FieldMatch>, error: InvalidQuery) -> bool {
        match found {
            None => error matches InvalidQuery::FieldDoesNotExist { full_path } && full_path@
                == self.field@,
            Some(found) => match found.field_entry.field_type {
                FieldType::Str { indexed } => !indexed && found.is_not_searchable_error(error),
                FieldType::JsonObject { text_indexed, expand_dots: _ } => !text_indexed
                    && found.is_not_searchable_error(error),
                FieldType::Other => error matches InvalidQuery::SchemaError(message) && message@
                    == "trying to run a bloomfilter query on a non-text field"@,
            },
        }
    }
}

impl From<BloomMightContainQuery> for QueryAst {
    fn from(bloom_filter_query: BloomMightContainQuery) -> (query: QueryAst) {
        QueryAst::BloomMightContain(bloom_filter_query)
    }
}

/// A query converts to the user's query that holds it, unchanged.
pub proof fn law_from_query(query: BloomMightContainQuery)
    ensures
        QueryAst::from_spec(query) == QueryAst::BloomMightContain(query),
{
}

impl vstd::std_specs::convert::FromSpecImpl<BloomMightContainQuery> for QueryAst {
    open spec fn obeys_from_spec() -> bool {
        true
    }

    open spec fn from_spec(bloom_filter_query: BloomMightContainQuery) -> QueryAst {
        QueryAst::BloomMightContain(bloom_filter_query)
    }
}

} // verus!
