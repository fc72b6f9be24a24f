use vstd::prelude::*;

verus! {

/// A lexical unit produced by the scanner and consumed by the parser.
///
/// A numeric literal is carried as its captured span of characters
/// (one or more decimal digits, optionally followed by `.` and one or
/// more decimal digits), exactly as the scanner cut it out of the input.
#[derive(Debug, Clone, PartialEq)]
pub enum Token {
    Number(String),
    String(String),
    Boolean(bool),
    ArrayStart,
    ArrayEnd,
    ObjectStart,
    ObjectEnd,
    Null,
    /// Transient whitespace marker; produced while scanning but filtered
    /// out before the token sequence is handed to the parser.
    NewLine,
    Comma,
    Colon,
    /// End-of-input sentinel: the last element of every scanned sequence.
    Eof,
}

/// The mathematical model of a token: payloads as character sequences.
pub enum TokenModel {
    Number(Seq<char>),
    String(Seq<char>),
    Boolean(bool),
    ArrayStart,
    ArrayEnd,
    ObjectStart,
    ObjectEnd,
    Null,
    NewLine,
    Comma,
    Colon,
    Eof,
}

impl View for Token {
    type V = TokenModel;

    open spec fn view(&self) -> TokenModel {
        match self {
            Token::Number(s) => TokenModel::Number(s@),
            Token::String(s) => TokenModel::String(s@),
            Token::Boolean(b) => TokenModel::Boolean(*b),
            Token::ArrayStart => TokenModel::ArrayStart,
            Token::ArrayEnd => TokenModel::ArrayEnd,
            Token::ObjectStart => TokenModel::ObjectStart,
            Token::ObjectEnd => TokenModel::ObjectEnd,
            Token::Null => TokenModel::Null,
            Token::NewLine => TokenModel::NewLine,
            Token::Comma => TokenModel::Comma,
            Token::Colon => TokenModel::Colon,
            Token::Eof => TokenModel::Eof,
        }
    }
}

impl DeepView for Token {
    type V = TokenModel;

    open spec fn deep_view(&self) -> TokenModel {
        self.view()
    }
}

/// Two tokens agree on their kind alone: the payload-carrying kinds
/// (`Number`, `String`, `Boolean`) match on the tag and ignore the
/// carried value; all other kinds match exactly.
pub open spec fn same_kind(a: TokenModel, b: TokenModel) -> bool {
    match a {
        TokenModel::Number(_) => b is Number,
        TokenModel::String(_) => b is String,
        TokenModel::Boolean(_) => b is Boolean,
        TokenModel::ArrayStart => b is ArrayStart,
        TokenModel::ArrayEnd => b is ArrayEnd,
        TokenModel::ObjectStart => b is ObjectStart,
        TokenModel::ObjectEnd => b is ObjectEnd,
        TokenModel::Null => b is Null,
        TokenModel::NewLine => b is NewLine,
        TokenModel::Comma => b is Comma,
        TokenModel::Colon => b is Colon,
        TokenModel::Eof => b is Eof,
    }
}

} // verus!
