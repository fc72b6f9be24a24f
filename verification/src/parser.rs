use vstd::prelude::*;

use crate::errors::{ParserError, ParserErrorModel};
use crate::token::{same_kind, Token, TokenModel};

verus! {

broadcast use vstd::std_specs::vec::group_vec_axioms;

// ---------------------------------------------------------------------------
// The value tree that parsing produces.
// ---------------------------------------------------------------------------

/// The structured value a JSON document denotes.
///
/// An object is an insertion-ordered sequence of key-value pairs whose
/// keys are unique: inserting under an existing key replaces the value
/// in place (last write wins). A number is carried as its captured
/// digit span, exactly as the scanner produced it.
#[derive(Debug, PartialEq)]
pub enum Json {
    Object(Vec<(String, Json)>),
    Array(Vec<Json>),
    Number(String),
    String(String),
    Boolean(bool),
    Null,
}

/// The mathematical model of a value tree.
pub enum JsonModel {
    Object(Seq<(Seq<char>, JsonModel)>),
    Array(Seq<JsonModel>),
    Number(Seq<char>),
    String(Seq<char>),
    Boolean(bool),
    Null,
}

/// The model of a value tree.
pub open spec fn json_view(j: Json) -> JsonModel
    decreases j,
{
    match j {
        Json::Object(pairs) => JsonModel::Object(view_pairs(pairs@)),
        Json::Array(items) => JsonModel::Array(view_items(items@)),
        Json::Number(s) => JsonModel::Number(s@),
        Json::String(s) => JsonModel::String(s@),
        Json::Boolean(b) => JsonModel::Boolean(b),
        Json::Null => JsonModel::Null,
    }
}

/// The models of the elements of an array, in order.
pub open spec fn view_items(items: Seq<Json>) -> Seq<JsonModel>
    decreases items,
{
    if items.len() == 0 {
        Seq::empty()
    } else {
        seq![json_view(items[0])] + view_items(items.drop_first())
    }
}

/// The models of the key-value pairs of an object, in order.
pub open spec fn view_pairs(pairs: Seq<(String, Json)>) -> Seq<(Seq<char>, JsonModel)>
    decreases pairs,
{
    if pairs.len() == 0 {
        Seq::empty()
    } else {
        seq![(pairs[0].0@, json_view(pairs[0].1))] + view_pairs(pairs.drop_first())
    }
}

impl View for Json {
    type V = JsonModel;

    open spec fn view(&self) -> JsonModel {
        json_view(*self)
    }
}

pub proof fn lemma_view_items(items: Seq<Json>)
    ensures
        view_items(items).len() == items.len(),
        forall|i: int| 0 <= i < items.len()
            ==> #[trigger] view_items(items)[i] == json_view(items[i]),
    decreases items,
{
    if items.len() > 0 {
        lemma_view_items(items.drop_first());
    }
}

pub proof fn lemma_view_pairs(pairs: Seq<(String, Json)>)
    ensures
        view_pairs(pairs).len() == pairs.len(),
        forall|i: int| 0 <= i < pairs.len()
            ==> #[trigger] view_pairs(pairs)[i] == (pairs[i].0@, json_view(pairs[i].1)),
    decreases pairs,
{
    if pairs.len() > 0 {
        lemma_view_pairs(pairs.drop_first());
    }
}

// ---------------------------------------------------------------------------
// Insertion with the last-write-wins rule.
// ---------------------------------------------------------------------------

/// The position of the first pair holding key `k`, or `ps.len()` when
/// no pair does.
pub open spec fn key_index(ps: Seq<(Seq<char>, JsonModel)>, k: Seq<char>) -> int
    decreases ps.len(),
{
    if ps.len() == 0 {
        0
    } else if ps[0].0 == k {
        0
    } else {
        1 + key_index(ps.drop_first(), k)
    }
}

/// Whether some pair of `ps` holds key `k`.
pub open spec fn has_key(ps: Seq<(Seq<char>, JsonModel)>, k: Seq<char>) -> bool {
    key_index(ps, k) < ps.len()
}

/// Inserting under an existing key replaces that pair's value in
/// place; a new key is appended at the end.
pub open spec fn assoc_update(
    ps: Seq<(Seq<char>, JsonModel)>,
    k: Seq<char>,
    v: JsonModel,
) -> Seq<(Seq<char>, JsonModel)> {
    if has_key(ps, k) {
        ps.update(key_index(ps, k), (k, v))
    } else {
        ps.push((k, v))
    }
}

pub proof fn lemma_key_index(ps: Seq<(Seq<char>, JsonModel)>, k: Seq<char>)
    ensures
        0 <= key_index(ps, k) <= ps.len(),
        key_index(ps, k) < ps.len() ==> ps[key_index(ps, k)].0 == k,
        forall|m: int| 0 <= m < key_index(ps, k) ==> (#[trigger] ps[m]).0 != k,
    decreases ps.len(),
{
    if ps.len() > 0 && ps[0].0 != k {
        lemma_key_index(ps.drop_first(), k);
        assert forall|m: int| 0 <= m < key_index(ps, k) implies (#[trigger] ps[m]).0 != k by {
            if m > 0 {
                assert(ps[m] == ps.drop_first()[m - 1]);
            }
        }
    }
}

/// The keys of `ps` are pairwise distinct.
pub open spec fn unique_keys(ps: Seq<(Seq<char>, JsonModel)>) -> bool {
    forall|m: int, n: int| 0 <= m < n < ps.len() ==> (#[trigger] ps[m]).0 != (#[trigger] ps[n]).0
}

/// Last-write-wins insertion keeps the keys unique.
pub proof fn lemma_assoc_update_unique(ps: Seq<(Seq<char>, JsonModel)>, k: Seq<char>, v: JsonModel)
    requires
        unique_keys(ps),
    ensures
        unique_keys(assoc_update(ps, k, v)),
{
    lemma_key_index(ps, k);
    let r = assoc_update(ps, k, v);
    if has_key(ps, k) {
        let ki = key_index(ps, k);
        assert forall|m: int, n: int| 0 <= m < n < r.len() implies
            (#[trigger] r[m]).0 != (#[trigger] r[n]).0 by {
            if m != ki && n != ki {
                assert(r[m] == ps[m] && r[n] == ps[n]);
            } else if m == ki {
                assert(r[m].0 == k && r[n] == ps[n]);
                assert(ps[ki].0 == k);
            } else {
                assert(r[n].0 == k && r[m] == ps[m]);
                assert(ps[ki].0 == k);
            }
        }
    } else {
        assert forall|m: int, n: int| 0 <= m < n < r.len() implies
            (#[trigger] r[m]).0 != (#[trigger] r[n]).0 by {
            if n == ps.len() {
                assert(r[n].0 == k && r[m] == ps[m]);
            } else {
                assert(r[m] == ps[m] && r[n] == ps[n]);
            }
        }
    }
}

} // verus!

verus! {

// ---------------------------------------------------------------------------
// The syntactic grammar over the token sequence.
// ---------------------------------------------------------------------------

/// Whether the token at position `i` matches `t` on kind alone; false
/// past the end of the sequence.
pub open spec fn spec_check(ts: Seq<TokenModel>, i: int, t: TokenModel) -> bool {
    0 <= i < ts.len() && same_kind(ts[i], t)
}

/// Parses one `value` production at position `i`: a scalar token is
/// consumed directly; `{` and `[` recurse into the object and array
/// productions; anything else is a syntax error.
pub open spec fn spec_parse_value(ts: Seq<TokenModel>, i: int) -> Result<
    (JsonModel, int),
    ParserErrorModel,
>
    decreases ts.len() - i, 1int,
{
    if 0 <= i < ts.len() {
        match ts[i] {
            TokenModel::String(s) => Ok((JsonModel::String(s), i + 1)),
            TokenModel::Number(s) => Ok((JsonModel::Number(s), i + 1)),
            TokenModel::Boolean(b) => Ok((JsonModel::Boolean(b), i + 1)),
            TokenModel::Null => Ok((JsonModel::Null, i + 1)),
            TokenModel::ObjectStart => spec_parse_object(ts, i),
            TokenModel::ArrayStart => spec_parse_array(ts, i),
            _ => Err(ParserErrorModel::InvalidToken("invalid token"@)),
        }
    } else {
        Err(ParserErrorModel::InvalidToken("invalid token"@))
    }
}

/// Parses one `object` production at position `i`: `{`, then either an
/// immediate `}` (the empty object) or the members loop.
pub open spec fn spec_parse_object(ts: Seq<TokenModel>, i: int) -> Result<
    (JsonModel, int),
    ParserErrorModel,
>
    decreases ts.len() - i, 0int,
{
    if spec_check(ts, i, TokenModel::ObjectStart) {
        if spec_check(ts, i + 1, TokenModel::ObjectEnd) {
            Ok((JsonModel::Object(Seq::empty()), i + 2))
        } else {
            match spec_parse_members(ts, i + 1, Seq::empty()) {
                Ok((pairs, j)) => Ok((JsonModel::Object(pairs), j)),
                Err(e) => Err(e),
            }
        }
    } else {
        Err(ParserErrorModel::InvalidToken("expected object start: {"@))
    }
}

/// The members loop of an object: a `STRING ":" value` pair must stand
/// at position `i`; after it either `}` closes the object or `,`
/// demands a further pair, so a trailing comma is a syntax error.
/// Pairs land in `acc` under the last-write-wins rule.
///
/// The bound put on `j` below only guards termination; a parsed value
/// always ends within it (see `spec_parse_value` bounds in the
/// executable parser's contracts).
pub open spec fn spec_parse_members(
    ts: Seq<TokenModel>,
    i: int,
    acc: Seq<(Seq<char>, JsonModel)>,
) -> Result<(Seq<(Seq<char>, JsonModel)>, int), ParserErrorModel>
    decreases ts.len() - i, 0int,
{
    if !(0 <= i < ts.len() && ts[i] is String) {
        Err(ParserErrorModel::InvalidToken("expected string"@))
    } else {
        let key = ts[i]->String_0;
        if !spec_check(ts, i + 1, TokenModel::Colon) {
            Err(ParserErrorModel::InvalidToken("expected colon"@))
        } else {
            match spec_parse_value(ts, i + 2) {
                Err(e) => Err(e),
                Ok((v, j0)) => {
                    let j = if i + 2 < j0 && j0 <= ts.len() {
                        j0
                    } else {
                        i + 3
                    };
                    let acc2 = assoc_update(acc, key, v);
                    if spec_check(ts, j, TokenModel::ObjectEnd) {
                        Ok((acc2, j + 1))
                    } else if spec_check(ts, j, TokenModel::Comma) {
                        spec_parse_members(ts, j + 1, acc2)
                    } else {
                        Err(ParserErrorModel::InvalidToken("expected comma"@))
                    }
                },
            }
        }
    }
}

/// Parses one `array` production at position `i`: `[`, then either an
/// immediate `]` (the empty array) or the elements loop.
pub open spec fn spec_parse_array(ts: Seq<TokenModel>, i: int) -> Result<
    (JsonModel, int),
    ParserErrorModel,
>
    decreases ts.len() - i, 0int,
{
    if spec_check(ts, i, TokenModel::ArrayStart) {
        if spec_check(ts, i + 1, TokenModel::ArrayEnd) {
            Ok((JsonModel::Array(Seq::empty()), i + 2))
        } else {
            match spec_parse_items(ts, i + 1, Seq::empty()) {
                Ok((items, j)) => Ok((JsonModel::Array(items), j)),
                Err(e) => Err(e),
            }
        }
    } else {
        Err(ParserErrorModel::InvalidToken("expected array start: ["@))
    }
}

/// The elements loop of an array: a `value` must stand at position `i`;
/// after it either `]` closes the array or `,` demands a further value,
/// so a trailing comma is a syntax error.
pub open spec fn spec_parse_items(
    ts: Seq<TokenModel>,
    i: int,
    acc: Seq<JsonModel>,
) -> Result<(Seq<JsonModel>, int), ParserErrorModel>
    decreases ts.len() - i, 2int,
{
    match spec_parse_value(ts, i) {
        Err(e) => Err(e),
        Ok((v, j0)) => {
            let j = if i < j0 && j0 <= ts.len() {
                j0
            } else {
                i + 1
            };
            let acc2 = acc.push(v);
            if spec_check(ts, j, TokenModel::ArrayEnd) {
                Ok((acc2, j + 1))
            } else if spec_check(ts, j, TokenModel::Comma) {
                spec_parse_items(ts, j + 1, acc2)
            } else {
                Err(ParserErrorModel::InvalidToken("expected comma"@))
            }
        },
    }
}

/// The top level: documents are parsed until the cursor reaches the
/// end of the sequence or the end-of-input sentinel, and the last one
/// parsed is returned (`acc` starts as `Null`, so an input holding no
/// document at all yields `Null`). A document must open with `{` or
/// `[`: a bare top-level scalar is rejected.
pub open spec fn spec_parse_documents(ts: Seq<TokenModel>, i: int, acc: JsonModel) -> Result<
    (JsonModel, int),
    ParserErrorModel,
>
    decreases ts.len() - i, 3int,
{
    if !(0 <= i < ts.len()) || ts[i] is Eof {
        Ok((acc, i))
    } else if ts[i] is ObjectStart {
        match spec_parse_object(ts, i) {
            Err(e) => Err(e),
            Ok((v, j0)) => {
                let j = if i < j0 && j0 <= ts.len() {
                    j0
                } else {
                    i + 1
                };
                spec_parse_documents(ts, j, v)
            },
        }
    } else if ts[i] is ArrayStart {
        match spec_parse_array(ts, i) {
            Err(e) => Err(e),
            Ok((v, j0)) => {
                let j = if i < j0 && j0 <= ts.len() {
                    j0
                } else {
                    i + 1
                };
                spec_parse_documents(ts, j, v)
            },
        }
    } else {
        Err(ParserErrorModel::InvalidToken("invalid token"@))
    }
}

/// What parsing a complete token sequence yields.
pub open spec fn spec_parse_tokens(ts: Seq<TokenModel>) -> Result<JsonModel, ParserErrorModel> {
    match spec_parse_documents(ts, 0, JsonModel::Null) {
        Ok((v, j)) => Ok(v),
        Err(e) => Err(e),
    }
}

} // verus!

verus! {

// ---------------------------------------------------------------------------
// The executable parser.
// ---------------------------------------------------------------------------

/// Inserts `(key, value)` under the last-write-wins rule: the first
/// pair already holding `key` has its value replaced in place; a new
/// key is appended at the end.
#[verifier::loop_isolation(false)]
fn insert_pair(pairs: &mut Vec<(String, Json)>, key: String, value: Json)
    ensures
        view_pairs(final(pairs)@)
            == assoc_update(view_pairs(old(pairs)@), key@, json_view(value)),
{
    proof {
        lemma_view_pairs(pairs@);
        lemma_key_index(view_pairs(pairs@), key@);
    }
    let ghost pairs0 = *pairs;
    let ghost ps0 = view_pairs(pairs@);
    let n = pairs.len();
    let mut idx: usize = 0;
    while idx < n
        invariant
            *pairs == pairs0,
            n == pairs@.len(),
            idx <= n,
            forall|m: int| 0 <= m < idx ==> (#[trigger] pairs@[m]).0@ != key@,
        decreases n - idx,
    {
        if pairs[idx].0 == key {
            proof {
                lemma_view_pairs(pairs@);
                lemma_key_index(ps0, key@);
                assert(ps0[idx as int].0 == key@);
                assert forall|m: int| 0 <= m < idx implies (#[trigger] ps0[m]).0 != key@ by {
                    assert(ps0[m] == (pairs@[m].0@, json_view(pairs@[m].1)));
                }
                assert(key_index(ps0, key@) == idx);
            }
            let _removed = pairs.remove(idx);
            pairs.insert(idx, (key, value));
            proof {
                lemma_view_pairs(pairs@);
                lemma_view_pairs(pairs0@);
                assert(pairs@ =~= pairs0@.update(idx as int, pairs@[idx as int]));
                assert(view_pairs(pairs@) =~= ps0.update(
                    idx as int,
                    (key@, json_view(value)),
                ));
            }
            return;
        }
        idx = idx + 1;
    }
    proof {
        lemma_view_pairs(pairs@);
        lemma_key_index(ps0, key@);
        assert forall|m: int| 0 <= m < n implies (#[trigger] ps0[m]).0 != key@ by {
            assert(ps0[m] == (pairs@[m].0@, json_view(pairs@[m].1)));
        }
        assert(!has_key(ps0, key@));
    }
    pairs.push((key, value));
    proof {
        lemma_view_pairs(pairs@);
        lemma_view_pairs(pairs0@);
        assert(view_pairs(pairs@) =~= ps0.push((key@, json_view(value))));
    }
}

/// The recursive-descent parser: the token sequence and a forward-only
/// cursor into it.
pub struct Parser {
    pub tokens: Vec<Token>,
    pub index: usize,
}

impl Parser {
    /// The model of the token sequence being parsed.
    pub open spec fn toks(&self) -> Seq<TokenModel> {
        self.tokens.deep_view()
    }

    pub fn new(tokens: Vec<Token>) -> (p: Parser)
        ensures
            p.tokens == tokens,
            p.index == 0,
    {
        Parser { tokens, index: 0 }
    }

    fn is_end(&self) -> (r: bool)
        ensures
            r == (self.index >= self.toks().len()),
            self.toks().len() <= usize::MAX,
    {
        self.index >= self.tokens.len()
    }

    /// A copy of the token under the cursor.
    fn current(&self) -> (t: Token)
        requires
            self.index < self.toks().len(),
        ensures
            t == self.tokens@[self.index as int],
    {
        let cur = &self.tokens[self.index];
        match cur {
            Token::Number(s) => Token::Number(s.clone()),
            Token::String(s) => Token::String(s.clone()),
            Token::Boolean(b) => Token::Boolean(*b),
            Token::ArrayStart => Token::ArrayStart,
            Token::ArrayEnd => Token::ArrayEnd,
            Token::ObjectStart => Token::ObjectStart,
            Token::ObjectEnd => Token::ObjectEnd,
            Token::Null => Token::Null,
            Token::NewLine => Token::NewLine,
            Token::Comma => Token::Comma,
            Token::Colon => Token::Colon,
            Token::Eof => Token::Eof,
        }
    }

    fn advance(&mut self) -> (r: Option<Token>)
        ensures
            final(self).tokens == old(self).tokens,
            old(self).index <= final(self).index,
            if old(self).index < old(self).toks().len() {
                final(self).index == old(self).index + 1
                    && r == Some(old(self).tokens@[old(self).index as int])
            } else {
                final(self).index == old(self).index && r is None
            },
    {
        if self.is_end() {
            return None;
        }
        let t = self.current();
        self.index = self.index + 1;
        Some(t)
    }

    /// True when the cursor stands on a token of the same kind as `t`
    /// (payloads are ignored); false at the end of the sequence.
    fn check(&self, t: Token) -> (r: bool)
        ensures
            r == spec_check(self.toks(), self.index as int, t@),
    {
        if self.is_end() {
            return false;
        }
        let cur = &self.tokens[self.index];
        match cur {
            Token::Number(_) => matches!(t, Token::Number(_)),
            Token::String(_) => matches!(t, Token::String(_)),
            Token::Boolean(_) => matches!(t, Token::Boolean(_)),
            Token::ArrayStart => matches!(t, Token::ArrayStart),
            Token::ArrayEnd => matches!(t, Token::ArrayEnd),
            Token::ObjectStart => matches!(t, Token::ObjectStart),
            Token::ObjectEnd => matches!(t, Token::ObjectEnd),
            Token::Null => matches!(t, Token::Null),
            Token::NewLine => matches!(t, Token::NewLine),
            Token::Comma => matches!(t, Token::Comma),
            Token::Colon => matches!(t, Token::Colon),
            Token::Eof => matches!(t, Token::Eof),
        }
    }

    /// Consumes the token under the cursor when its kind matches `t`;
    /// otherwise leaves the cursor alone and fails with `msg`.
    fn consume(&mut self, t: Token, msg: &str) -> (r: Result<Token, ParserError>)
        ensures
            final(self).tokens == old(self).tokens,
            old(self).index <= final(self).index,
            if spec_check(old(self).toks(), old(self).index as int, t@) {
                final(self).index == old(self).index + 1
                    && (r matches Ok(tok) && tok == old(self).tokens@[old(self).index as int])
            } else {
                final(self).index == old(self).index
                    && (r matches Err(e) && e@ == ParserErrorModel::InvalidToken(msg@))
            },
    {
        if self.check(t) {
            let tok = self.advance();
            Ok(tok.unwrap())
        } else {
            Err(ParserError::InvalidToken(msg.to_owned()))
        }
    }
}


} // verus!

verus! {

impl Parser {
    /// Parses one `value` production at the cursor, per
    /// `spec_parse_value`. The cursor only moves forward, and on
    /// success it lands just past the value.
    fn parse_value(&mut self) -> (r: Result<Json, ParserError>)
        ensures
            final(self).tokens == old(self).tokens,
            old(self).index <= final(self).index,
            r is Ok ==> old(self).index < final(self).index,
            match spec_parse_value(old(self).toks(), old(self).index as int) {
                Ok((v, j)) => r matches Ok(json) && json@ == v && final(self).index == j && j
                    <= old(self).toks().len(),
                Err(e) => r matches Err(pe) && pe@ == e,
            },
        decreases self.toks().len() - self.index, 1int,
    {
        let ghost ts = self.toks();
        let ghost i0 = self.index as int;
        if self.is_end() {
            return Err(ParserError::InvalidToken("invalid token".to_owned()));
        }
        let t = self.current();
        proof {
            assert(ts[i0] == t@);
        }
        match t {
            Token::String(s) => {
                self.advance();
                Ok(Json::String(s))
            },
            Token::Number(s) => {
                self.advance();
                Ok(Json::Number(s))
            },
            Token::Boolean(b) => {
                self.advance();
                Ok(Json::Boolean(b))
            },
            Token::Null => {
                self.advance();
                Ok(Json::Null)
            },
            Token::ObjectStart => self.parse_object(),
            Token::ArrayStart => self.parse_array(),
            _ => Err(ParserError::InvalidToken("invalid token".to_owned())),
        }
    }

    /// Parses one `object` production at the cursor, per
    /// `spec_parse_object`: `{`, key-value pairs separated by commas
    /// (duplicate keys resolved last-write-wins), then `}`.
    #[verifier::loop_isolation(false)]
    fn parse_object(&mut self) -> (r: Result<Json, ParserError>)
        ensures
            final(self).tokens == old(self).tokens,
            old(self).index <= final(self).index,
            r is Ok ==> old(self).index < final(self).index,
            match spec_parse_object(old(self).toks(), old(self).index as int) {
                Ok((v, j)) => r matches Ok(json) && json@ == v && final(self).index == j && j
                    <= old(self).toks().len(),
                Err(e) => r matches Err(pe) && pe@ == e,
            },
        decreases self.toks().len() - self.index, 0int,
    {
        let ghost ts = self.toks();
        let ghost i0 = self.index as int;
        match self.consume(Token::ObjectStart, "expected object start: {") {
            Ok(_) => (),
            Err(e) => {
                return Err(e);
            },
        }
        let mut pairs: Vec<(String, Json)> = Vec::new();
        if !self.check(Token::ObjectEnd) {
            let ghost i1 = self.index as int;
            proof {
                assert(view_pairs(pairs@) =~= Seq::<(Seq<char>, JsonModel)>::empty());
            }
            let mut more = true;
            while more
                invariant
                    self.tokens == old(self).tokens,
                    i1 <= self.index as int,
                    self.index <= ts.len(),
                    i0 < self.index as int,
                    more ==> spec_parse_members(ts, i1, Seq::empty()) == spec_parse_members(
                        ts,
                        self.index as int,
                        view_pairs(pairs@),
                    ),
                    !more ==> spec_check(ts, self.index as int, TokenModel::ObjectEnd)
                        && spec_parse_members(ts, i1, Seq::empty()) == Ok::<
                        _,
                        ParserErrorModel,
                    >((view_pairs(pairs@), self.index as int + 1)),
                decreases ts.len() - self.index + (if more {
                    1int
                } else {
                    0int
                }),
            {
                let ghost ih = self.index as int;
                let key = match self.consume(Token::String(String::new()), "expected string") {
                    Ok(k) => k,
                    Err(e) => {
                        return Err(e);
                    },
                };
                match self.consume(Token::Colon, "expected colon") {
                    Ok(_) => (),
                    Err(e) => {
                        return Err(e);
                    },
                }
                let value = match self.parse_value() {
                    Ok(v) => v,
                    Err(e) => {
                        return Err(e);
                    },
                };
                proof {
                    assert(ts[ih] == key@);
                }
                match key {
                    Token::String(k) => {
                        insert_pair(&mut pairs, k, value);
                    },
                    _ => {
                        proof {
                            assert(false);
                        }
                        return Err(ParserError::InvalidToken("expected string".to_owned()));
                    },
                }
                if self.check(Token::ObjectEnd) {
                    more = false;
                } else {
                    match self.consume(Token::Comma, "expected comma") {
                        Ok(_) => (),
                        Err(e) => {
                            return Err(e);
                        },
                    }
                }
            }
        }
        match self.consume(Token::ObjectEnd, "expected object end:}") {
            Ok(_) => (),
            Err(e) => {
                return Err(e);
            },
        }
        proof {
            if pairs@.len() == 0 {
                assert(view_pairs(pairs@) =~= Seq::<(Seq<char>, JsonModel)>::empty());
            }
        }
        Ok(Json::Object(pairs))
    }

    /// Parses one `array` production at the cursor, per
    /// `spec_parse_array`: `[`, values separated by commas, then `]`.
    #[verifier::loop_isolation(false)]
    fn parse_array(&mut self) -> (r: Result<Json, ParserError>)
        ensures
            final(self).tokens == old(self).tokens,
            old(self).index <= final(self).index,
            r is Ok ==> old(self).index < final(self).index,
            match spec_parse_array(old(self).toks(), old(self).index as int) {
                Ok((v, j)) => r matches Ok(json) && json@ == v && final(self).index == j && j
                    <= old(self).toks().len(),
                Err(e) => r matches Err(pe) && pe@ == e,
            },
        decreases self.toks().len() - self.index, 0int,
    {
        let ghost ts = self.toks();
        let ghost i0 = self.index as int;
        match self.consume(Token::ArrayStart, "expected array start: [") {
            Ok(_) => (),
            Err(e) => {
                return Err(e);
            },
        }
        let mut array: Vec<Json> = Vec::new();
        if !self.check(Token::ArrayEnd) {
            let ghost i1 = self.index as int;
            proof {
                assert(view_items(array@) =~= Seq::<JsonModel>::empty());
            }
            let mut more = true;
            while more
                invariant
                    self.tokens == old(self).tokens,
                    i1 <= self.index as int,
                    self.index <= ts.len(),
                    i0 < self.index as int,
                    more ==> spec_parse_items(ts, i1, Seq::empty()) == spec_parse_items(
                        ts,
                        self.index as int,
                        view_items(array@),
                    ),
                    !more ==> spec_check(ts, self.index as int, TokenModel::ArrayEnd)
                        && spec_parse_items(ts, i1, Seq::empty()) == Ok::<
                        _,
                        ParserErrorModel,
                    >((view_items(array@), self.index as int + 1)),
                decreases ts.len() - self.index + (if more {
                    1int
                } else {
                    0int
                }),
            {
                let value = match self.parse_value() {
                    Ok(v) => v,
                    Err(e) => {
                        return Err(e);
                    },
                };
                let ghost arr0 = array@;
                array.push(value);
                proof {
                    lemma_view_items_push(arr0, value);
                }
                if self.check(Token::ArrayEnd) {
                    more = false;
                } else {
                    match self.consume(Token::Comma, "expected comma") {
                        Ok(_) => (),
                        Err(e) => {
                            return Err(e);
                        },
                    }
                }
            }
        }
        match self.consume(Token::ArrayEnd, "expected array end: ]") {
            Ok(_) => (),
            Err(e) => {
                return Err(e);
            },
        }
        proof {
            if array@.len() == 0 {
                assert(view_items(array@) =~= Seq::<JsonModel>::empty());
            }
        }
        Ok(Json::Array(array))
    }

    /// Parses the token sequence from the cursor on, per
    /// `spec_parse_documents`: top-level documents (each opening with
    /// `{` or `[`) until the end or the end-of-input sentinel, the last
    /// one parsed returned; `Null` when the sequence holds none.
    #[verifier::loop_isolation(false)]
    pub fn parse(&mut self) -> (r: Result<Json, ParserError>)
        ensures
            final(self).tokens == old(self).tokens,
            old(self).index <= final(self).index,
            match spec_parse_documents(
                old(self).toks(),
                old(self).index as int,
                JsonModel::Null,
            ) {
                Ok((v, j)) => r matches Ok(json) && json@ == v && final(self).index == j,
                Err(e) => r matches Err(pe) && pe@ == e,
            },
    {
        let ghost ts = self.toks();
        let ghost i0 = self.index as int;
        let mut result = Json::Null;
        let mut done = false;
        while !done && !self.is_end()
            invariant
                self.tokens == old(self).tokens,
                i0 <= self.index as int,
                spec_parse_documents(ts, i0, JsonModel::Null) == spec_parse_documents(
                    ts,
                    self.index as int,
                    result@,
                ),
                done ==> self.index < ts.len() && ts[self.index as int] is Eof,
            decreases ts.len() - self.index + (if done {
                0int
            } else {
                1int
            }),
        {
            let t = self.current();
            proof {
                assert(ts[self.index as int] == t@);
            }
            match t {
                Token::ObjectStart => {
                    result = match self.parse_object() {
                        Ok(v) => v,
                        Err(e) => {
                            return Err(e);
                        },
                    };
                },
                Token::ArrayStart => {
                    result = match self.parse_array() {
                        Ok(v) => v,
                        Err(e) => {
                            return Err(e);
                        },
                    };
                },
                Token::Eof => {
                    done = true;
                },
                _ => {
                    return Err(ParserError::InvalidToken("invalid token".to_owned()));
                },
            }
        }
        Ok(result)
    }
}

/// Pushing an element extends the modelled sequence by its model.
pub proof fn lemma_view_items_push(items: Seq<Json>, x: Json)
    ensures
        view_items(items.push(x)) == view_items(items).push(json_view(x)),
    decreases items.len(),
{
    lemma_view_items(items);
    lemma_view_items(items.push(x));
    assert(view_items(items.push(x)) =~= view_items(items).push(json_view(x)));
}

} // verus!

verus! {

// ---------------------------------------------------------------------------
// What holds of every parsed value tree.
// ---------------------------------------------------------------------------

/// A well-formed value tree: every object in it, at any depth, holds
/// pairwise-distinct keys.
pub open spec fn wf_json(v: JsonModel) -> bool
    decreases v,
{
    match v {
        JsonModel::Object(ps) => unique_keys(ps) && wf_pairs(ps),
        JsonModel::Array(items) => wf_items(items),
        _ => true,
    }
}

/// Every element of the sequence is a well-formed value tree.
pub open spec fn wf_items(items: Seq<JsonModel>) -> bool
    decreases items,
{
    items.len() == 0 || (wf_json(items[0]) && wf_items(items.drop_first()))
}

/// Every value of the pair sequence is a well-formed value tree.
pub open spec fn wf_pairs(ps: Seq<(Seq<char>, JsonModel)>) -> bool
    decreases ps,
{
    ps.len() == 0 || (wf_json(ps[0].1) && wf_pairs(ps.drop_first()))
}

pub proof fn lemma_wf_items_index(items: Seq<JsonModel>)
    ensures
        wf_items(items) <==> (forall|m: int|
            0 <= m < items.len() ==> wf_json(#[trigger] items[m])),
    decreases items.len(),
{
    if items.len() > 0 {
        let rest = items.drop_first();
        lemma_wf_items_index(rest);
        if wf_items(items) {
            assert forall|m: int| 0 <= m < items.len() implies wf_json(#[trigger] items[m]) by {
                if m > 0 {
                    assert(items[m] == rest[m - 1]);
                }
            }
        }
        if forall|m: int| 0 <= m < items.len() ==> wf_json(#[trigger] items[m]) {
            assert forall|m: int| 0 <= m < rest.len() implies wf_json(#[trigger] rest[m]) by {
                assert(rest[m] == items[m + 1]);
            }
            assert(wf_json(items[0]));
        }
    }
}

pub proof fn lemma_wf_pairs_index(ps: Seq<(Seq<char>, JsonModel)>)
    ensures
        wf_pairs(ps) <==> (forall|m: int| 0 <= m < ps.len() ==> wf_json((#[trigger] ps[m]).1)),
    decreases ps.len(),
{
    if ps.len() > 0 {
        let rest = ps.drop_first();
        lemma_wf_pairs_index(rest);
        if wf_pairs(ps) {
            assert forall|m: int| 0 <= m < ps.len() implies wf_json((#[trigger] ps[m]).1) by {
                if m > 0 {
                    assert(ps[m] == rest[m - 1]);
                }
            }
        }
        if forall|m: int| 0 <= m < ps.len() ==> wf_json((#[trigger] ps[m]).1) {
            assert forall|m: int| 0 <= m < rest.len() implies wf_json((#[trigger] rest[m]).1) by {
                assert(rest[m] == ps[m + 1]);
            }
            assert(wf_json(ps[0].1));
        }
    }
}

/// Last-write-wins insertion of a well-formed value keeps an object's
/// pairs well formed.
proof fn lemma_assoc_update_wf(ps: Seq<(Seq<char>, JsonModel)>, k: Seq<char>, v: JsonModel)
    requires
        wf_json(JsonModel::Object(ps)),
        wf_json(v),
    ensures
        wf_json(JsonModel::Object(assoc_update(ps, k, v))),
{
    lemma_assoc_update_unique(ps, k, v);
    lemma_key_index(ps, k);
    lemma_wf_pairs_index(ps);
    let r = assoc_update(ps, k, v);
    lemma_wf_pairs_index(r);
    assert forall|m: int| 0 <= m < r.len() implies wf_json((#[trigger] r[m]).1) by {
        if has_key(ps, k) {
            if m != key_index(ps, k) {
                assert(r[m] == ps[m]);
            }
        } else {
            if m < ps.len() {
                assert(r[m] == ps[m]);
            }
        }
    }
}

/// Every value the `value` production yields is well formed, and the
/// production consumes at least one token and never runs past the end.
pub proof fn lemma_parse_value_wf(ts: Seq<TokenModel>, i: int)
    ensures
        spec_parse_value(ts, i) matches Ok((v, j)) ==> wf_json(v) && i < j <= ts.len(),
    decreases ts.len() - i, 1int,
{
    if 0 <= i < ts.len() {
        match ts[i] {
            TokenModel::ObjectStart => lemma_parse_object_wf(ts, i),
            TokenModel::ArrayStart => lemma_parse_array_wf(ts, i),
            _ => (),
        }
    }
}

/// As `lemma_parse_value_wf`, for the `object` production.
pub proof fn lemma_parse_object_wf(ts: Seq<TokenModel>, i: int)
    ensures
        spec_parse_object(ts, i) matches Ok((v, j)) ==> wf_json(v) && i < j <= ts.len(),
    decreases ts.len() - i, 0int,
{
    if spec_check(ts, i, TokenModel::ObjectStart) && !spec_check(ts, i + 1, TokenModel::ObjectEnd) {
        lemma_parse_members_wf(ts, i + 1, Seq::empty());
    }
}

/// As `lemma_parse_value_wf`, for the members loop: from a well-formed
/// accumulator it yields well-formed pairs.
pub proof fn lemma_parse_members_wf(ts: Seq<TokenModel>, i: int, acc: Seq<(Seq<char>, JsonModel)>)
    requires
        wf_json(JsonModel::Object(acc)),
    ensures
        spec_parse_members(ts, i, acc) matches Ok((ps, j)) ==> wf_json(JsonModel::Object(ps)) && i
            < j <= ts.len(),
    decreases ts.len() - i, 0int,
{
    if 0 <= i < ts.len() && ts[i] is String && spec_check(ts, i + 1, TokenModel::Colon) {
        let key = ts[i]->String_0;
        lemma_parse_value_wf(ts, i + 2);
        if let Ok((v, j0)) = spec_parse_value(ts, i + 2) {
            let acc2 = assoc_update(acc, key, v);
            lemma_assoc_update_wf(acc, key, v);
            if spec_check(ts, j0, TokenModel::Comma) && !spec_check(
                ts,
                j0,
                TokenModel::ObjectEnd,
            ) {
                lemma_parse_members_wf(ts, j0 + 1, acc2);
            }
        }
    }
}

/// As `lemma_parse_value_wf`, for the `array` production.
pub proof fn lemma_parse_array_wf(ts: Seq<TokenModel>, i: int)
    ensures
        spec_parse_array(ts, i) matches Ok((v, j)) ==> wf_json(v) && i < j <= ts.len(),
    decreases ts.len() - i, 0int,
{
    if spec_check(ts, i, TokenModel::ArrayStart) && !spec_check(ts, i + 1, TokenModel::ArrayEnd) {
        lemma_parse_items_wf(ts, i + 1, Seq::empty());
    }
}

/// As `lemma_parse_value_wf`, for the elements loop.
pub proof fn lemma_parse_items_wf(ts: Seq<TokenModel>, i: int, acc: Seq<JsonModel>)
    requires
        wf_json(JsonModel::Array(acc)),
    ensures
        spec_parse_items(ts, i, acc) matches Ok((items, j)) ==> wf_json(JsonModel::Array(items))
            && i < j <= ts.len(),
    decreases ts.len() - i, 2int,
{
    lemma_parse_value_wf(ts, i);
    if let Ok((v, j0)) = spec_parse_value(ts, i) {
        let acc2 = acc.push(v);
        lemma_wf_items_index(acc);
        lemma_wf_items_index(acc2);
        assert forall|m: int| 0 <= m < acc2.len() implies wf_json(#[trigger] acc2[m]) by {
            if m < acc.len() {
                assert(acc2[m] == acc[m]);
            } else {
                assert(acc2[m] == v);
            }
        }
        if spec_check(ts, j0, TokenModel::Comma) && !spec_check(ts, j0, TokenModel::ArrayEnd) {
            lemma_parse_items_wf(ts, j0 + 1, acc2);
        }
    }
}

/// As `lemma_parse_value_wf`, for the top level.
pub proof fn lemma_parse_documents_wf(ts: Seq<TokenModel>, i: int, acc: JsonModel)
    requires
        wf_json(acc),
    ensures
        spec_parse_documents(ts, i, acc) matches Ok((v, j)) ==> wf_json(v) && i <= j && (i
            <= ts.len() ==> j <= ts.len()),
    decreases ts.len() - i, 3int,
{
    if 0 <= i < ts.len() && !(ts[i] is Eof) {
        if ts[i] is ObjectStart {
            lemma_parse_object_wf(ts, i);
            if let Ok((v, j0)) = spec_parse_object(ts, i) {
                lemma_parse_documents_wf(ts, j0, v);
            }
        } else if ts[i] is ArrayStart {
            lemma_parse_array_wf(ts, i);
            if let Ok((v, j0)) = spec_parse_array(ts, i) {
                lemma_parse_documents_wf(ts, j0, v);
            }
        }
    }
}

/// Duplicate keys never survive parsing: every value tree a token
/// sequence parses to is well formed, so each of its objects, at any
/// depth, holds pairwise-distinct keys, the later of two writes under
/// one key having won.
pub proof fn lemma_parse_tokens_wf(ts: Seq<TokenModel>)
    ensures
        spec_parse_tokens(ts) matches Ok(v) ==> wf_json(v),
{
    lemma_parse_documents_wf(ts, 0, JsonModel::Null);
}

/// A bare scalar at the top level is rejected by design: a token
/// sequence opening with a string, number, boolean or null token does
/// not parse.
pub proof fn lemma_top_level_scalar_rejected(ts: Seq<TokenModel>)
    requires
        0 < ts.len(),
        ts[0] is String || ts[0] is Number || ts[0] is Boolean || ts[0] is Null,
    ensures
        spec_parse_tokens(ts) == Err::<JsonModel, ParserErrorModel>(
            ParserErrorModel::InvalidToken("invalid token"@),
        ),
{
}

} // verus!
