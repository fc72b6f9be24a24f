use vstd::prelude::*;

pub mod errors;
pub mod parser;
pub mod roundtrip;
pub mod scanner;
pub mod token;

use crate::errors::{ParserError, ParserErrorModel};
use crate::parser::{spec_parse_tokens, Json, JsonModel, Parser};
use crate::scanner::{spec_scan, Scanner};

verus! {

/// What parsing a complete input text yields: the text is scanned into
/// tokens and the tokens parsed into a value tree; a lexical failure is
/// wrapped in the umbrella `InvalidJson` variant, so callers see one
/// error type whichever stage failed.
pub open spec fn spec_parse_json(text: Seq<char>) -> Result<JsonModel, ParserErrorModel> {
    match spec_scan(text) {
        Ok(ts) => spec_parse_tokens(ts),
        Err(e) => Err(ParserErrorModel::InvalidJson(e)),
    }
}

/// `r` is exactly the outcome `spec_parse_json` prescribes for `text`:
/// the value tree with the prescribed model, or the prescribed error.
pub open spec fn parse_result_matches(text: Seq<char>, r: Result<Json, ParserError>) -> bool {
    match spec_parse_json(text) {
        Ok(v) => r matches Ok(j) && j@ == v,
        Err(e) => r matches Err(pe) && pe@ == e,
    }
}

/// The single operation at the boundary: one complete JSON document in,
/// one value tree or one terminal error out.
pub fn parse_json(json: &str) -> (r: Result<Json, ParserError>)
    ensures
        parse_result_matches(json@, r),
{
    let mut scanner = Scanner::new(json.to_owned());
    match scanner.scan() {
        Ok(tokens) => {
            let mut parser = Parser::new(tokens);
            parser.parse()
        },
        Err(e) => Err(ParserError::InvalidJson(e)),
    }
}

} // verus!

use crate::parser::{lemma_parse_tokens_wf, wf_json};

verus! {

/// A lexical failure is surfaced through the umbrella variant: when
/// scanning the text fails, parsing it fails with `InvalidJson`
/// carrying exactly that lexical error.
pub proof fn lemma_lexical_error_surfaced(text: Seq<char>)
    ensures
        spec_scan(text) matches Err(e) ==> spec_parse_json(text) == Err::<
            JsonModel,
            ParserErrorModel,
        >(ParserErrorModel::InvalidJson(e)),
{
}

/// Parsing carries no hidden state: any two results that meet
/// `parse_json`'s contract on the same text agree — both succeed with
/// structurally equal value trees, or both fail with the same error.
pub proof fn lemma_parse_idempotent(
    text: Seq<char>,
    r1: Result<Json, ParserError>,
    r2: Result<Json, ParserError>,
)
    requires
        parse_result_matches(text, r1),
        parse_result_matches(text, r2),
    ensures
        r1 is Ok <==> r2 is Ok,
        r1 matches Ok(a) ==> (r2 matches Ok(b) && a@ == b@),
        r1 matches Err(a) ==> (r2 matches Err(b) && a@ == b@),
{
}

/// The parser never sees whitespace: any two texts that scan to the
/// same token sequence — as texts differing only in whitespace between
/// tokens do, whitespace contributing no token — parse to the same
/// result.
pub proof fn lemma_same_tokens_same_parse(t1: Seq<char>, t2: Seq<char>)
    requires
        spec_scan(t1) == spec_scan(t2),
    ensures
        spec_parse_json(t1) == spec_parse_json(t2),
{
}

/// Every value tree that `parse_json` yields is well formed: each of
/// its objects, at any depth, holds pairwise-distinct keys.
pub proof fn lemma_parse_json_wf(text: Seq<char>)
    ensures
        spec_parse_json(text) matches Ok(v) ==> wf_json(v),
{
    if let Ok(ts) = spec_scan(text) {
        lemma_parse_tokens_wf(ts);
    }
}

} // verus!
