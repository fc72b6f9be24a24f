use vstd::prelude::*;

verus! {

/// A failure of the lexical stage.
///
/// `InvalidNumber` is kept for the numeric-literal rule's error category;
/// because the scanner captures a numeric span only when it is already a
/// well-formed run of digits, scanning never actually produces it
/// (`scanner::lemma_scan_never_invalid_number` proves as much).
#[derive(Debug, Clone, PartialEq)]
pub enum LexerError {
    InvalidNumber(String),
    InvalidString(String),
    InvalidChar,
    InvalidIdent(String),
}

/// The mathematical model of a lexical error.
pub enum LexerErrorModel {
    InvalidNumber(Seq<char>),
    InvalidString(Seq<char>),
    InvalidChar,
    InvalidIdent(Seq<char>),
}

impl View for LexerError {
    type V = LexerErrorModel;

    open spec fn view(&self) -> LexerErrorModel {
        match self {
            LexerError::InvalidNumber(s) => LexerErrorModel::InvalidNumber(s@),
            LexerError::InvalidString(s) => LexerErrorModel::InvalidString(s@),
            LexerError::InvalidChar => LexerErrorModel::InvalidChar,
            LexerError::InvalidIdent(s) => LexerErrorModel::InvalidIdent(s@),
        }
    }
}

/// A failure of the syntactic stage, or a lexical failure surfaced
/// through the single umbrella variant `InvalidJson`.
///
/// `InvalidToken` carries a message naming the violated expectation
/// (for example "expected comma").
#[derive(Debug, Clone, PartialEq)]
pub enum ParserError {
    InvalidToken(String),
    InvalidJson(LexerError),
}

/// The mathematical model of a parser error.
pub enum ParserErrorModel {
    InvalidToken(Seq<char>),
    InvalidJson(LexerErrorModel),
}

impl View for ParserError {
    type V = ParserErrorModel;

    open spec fn view(&self) -> ParserErrorModel {
        match self {
            ParserError::InvalidToken(s) => ParserErrorModel::InvalidToken(s@),
            ParserError::InvalidJson(e) => ParserErrorModel::InvalidJson(e@),
        }
    }
}

} // verus!
