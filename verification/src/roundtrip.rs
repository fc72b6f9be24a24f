use vstd::prelude::*;

use crate::errors::{LexerErrorModel, ParserErrorModel};
use crate::parser::{
    assoc_update, has_key, key_index, lemma_key_index, spec_check, spec_parse_array,
    spec_parse_documents, spec_parse_items, spec_parse_members, spec_parse_object,
    spec_parse_tokens, spec_parse_value, unique_keys, JsonModel,
};
use crate::spec_parse_json;
use crate::scanner::{
    alnum_end, digits_end, number_end, spec_is_alnum, spec_is_digit, spec_scan, spec_scan_from,
    spec_scan_token, string_body_end,
};
use crate::token::TokenModel;

verus! {

// ---------------------------------------------------------------------------
// The canonical text of a value tree, and its token sequence.
// ---------------------------------------------------------------------------

/// The canonical text denoting `v`: no whitespace, keys and values in
/// order, `,` between members and elements.
pub open spec fn render(v: JsonModel) -> Seq<char>
    decreases v,
{
    match v {
        JsonModel::Null => seq!['n', 'u', 'l', 'l'],
        JsonModel::Boolean(b) => if b {
            seq!['t', 'r', 'u', 'e']
        } else {
            seq!['f', 'a', 'l', 's', 'e']
        },
        JsonModel::Number(s) => s,
        JsonModel::String(s) => seq!['"'] + s + seq!['"'],
        JsonModel::Array(items) => if items.len() == 0 {
            seq!['[', ']']
        } else {
            seq!['['] + render_items(items) + seq![']']
        },
        JsonModel::Object(ps) => if ps.len() == 0 {
            seq!['{', '}']
        } else {
            seq!['{'] + render_pairs(ps) + seq!['}']
        },
    }
}

/// The canonical text of the elements, separated by commas.
pub open spec fn render_items(items: Seq<JsonModel>) -> Seq<char>
    decreases items,
{
    if items.len() == 0 {
        Seq::empty()
    } else if items.len() == 1 {
        render(items[0])
    } else {
        render(items[0]) + seq![','] + render_items(items.drop_first())
    }
}

/// The canonical text of the members, separated by commas.
pub open spec fn render_pairs(ps: Seq<(Seq<char>, JsonModel)>) -> Seq<char>
    decreases ps,
{
    if ps.len() == 0 {
        Seq::empty()
    } else if ps.len() == 1 {
        render_pair(ps[0])
    } else {
        render_pair(ps[0]) + seq![','] + render_pairs(ps.drop_first())
    }
}

/// One member: the quoted key, a colon, the value.
pub open spec fn render_pair(p: (Seq<char>, JsonModel)) -> Seq<char>
    decreases p,
{
    seq!['"'] + p.0 + seq!['"', ':'] + render(p.1)
}

/// The token sequence the canonical text of `v` scans to (without the
/// end-of-input sentinel).
pub open spec fn tokens_of(v: JsonModel) -> Seq<TokenModel>
    decreases v,
{
    match v {
        JsonModel::Null => seq![TokenModel::Null],
        JsonModel::Boolean(b) => seq![TokenModel::Boolean(b)],
        JsonModel::Number(s) => seq![TokenModel::Number(s)],
        JsonModel::String(s) => seq![TokenModel::String(s)],
        JsonModel::Array(items) => seq![TokenModel::ArrayStart] + tokens_items(items)
            + seq![TokenModel::ArrayEnd],
        JsonModel::Object(ps) => seq![TokenModel::ObjectStart] + tokens_pairs(ps)
            + seq![TokenModel::ObjectEnd],
    }
}

pub open spec fn tokens_items(items: Seq<JsonModel>) -> Seq<TokenModel>
    decreases items,
{
    if items.len() == 0 {
        Seq::empty()
    } else if items.len() == 1 {
        tokens_of(items[0])
    } else {
        tokens_of(items[0]) + seq![TokenModel::Comma] + tokens_items(items.drop_first())
    }
}

pub open spec fn tokens_pairs(ps: Seq<(Seq<char>, JsonModel)>) -> Seq<TokenModel>
    decreases ps,
{
    if ps.len() == 0 {
        Seq::empty()
    } else if ps.len() == 1 {
        tokens_pair(ps[0])
    } else {
        tokens_pair(ps[0]) + seq![TokenModel::Comma] + tokens_pairs(ps.drop_first())
    }
}

pub open spec fn tokens_pair(p: (Seq<char>, JsonModel)) -> Seq<TokenModel>
    decreases p,
{
    seq![TokenModel::String(p.0), TokenModel::Colon] + tokens_of(p.1)
}

// ---------------------------------------------------------------------------
// Which value trees have a canonical text that scans back faithfully.
// ---------------------------------------------------------------------------

/// No character of `s` is a double quote, so `s` can stand as a string
/// body or an object key.
pub open spec fn no_quote(s: Seq<char>) -> bool {
    forall|k: int| 0 <= k < s.len() ==> (#[trigger] s[k]) != '"'
}

pub open spec fn all_digits(s: Seq<char>) -> bool {
    forall|k: int| 0 <= k < s.len() ==> spec_is_digit(#[trigger] s[k])
}

/// A well-formed numeric span: one or more digits, optionally followed
/// by `.` and one or more digits — exactly what the scanner's numeric
/// rule captures.
pub open spec fn wf_number_lexeme(s: Seq<char>) -> bool {
    s.len() > 0 && (all_digits(s) || (exists|d: int|
        1 <= d && d + 1 < s.len() && #[trigger] s[d] == '.' && all_digits(s.subrange(0, d))
            && all_digits(s.subrange(d + 1, s.len() as int))))
}

/// A document whose canonical text scans and parses back to itself:
/// string bodies and keys hold no quote, numeric spans are well
/// formed, and object keys are unique.
pub open spec fn renderable(v: JsonModel) -> bool
    decreases v,
{
    match v {
        JsonModel::Null => true,
        JsonModel::Boolean(_) => true,
        JsonModel::Number(s) => wf_number_lexeme(s),
        JsonModel::String(s) => no_quote(s),
        JsonModel::Array(items) => ren_items(items),
        JsonModel::Object(ps) => unique_keys(ps) && ren_pairs(ps),
    }
}

pub open spec fn ren_items(items: Seq<JsonModel>) -> bool
    decreases items,
{
    items.len() == 0 || (renderable(items[0]) && ren_items(items.drop_first()))
}

pub open spec fn ren_pairs(ps: Seq<(Seq<char>, JsonModel)>) -> bool
    decreases ps,
{
    ps.len() == 0 || (no_quote(ps[0].0) && renderable(ps[0].1) && ren_pairs(ps.drop_first()))
}

// ---------------------------------------------------------------------------
// Scanning known content.
// ---------------------------------------------------------------------------

/// A position just past a token after which scanning picks up cleanly:
/// the end of the input, or a character that can extend neither a
/// number nor a keyword.
pub open spec fn safe_boundary(cs: Seq<char>, e: int) -> bool {
    e == cs.len() || (!spec_is_alnum(cs[e]) && cs[e] != '.')
}

proof fn lemma_digits_end_known(cs: Seq<char>, i: int, e: int)
    requires
        0 <= i <= e <= cs.len(),
        forall|k: int| i <= k < e ==> spec_is_digit(#[trigger] cs[k]),
        e == cs.len() || !spec_is_digit(cs[e]),
    ensures
        digits_end(cs, i) == e,
    decreases e - i,
{
    if i < e {
        lemma_digits_end_known(cs, i + 1, e);
    }
}

proof fn lemma_alnum_end_known(cs: Seq<char>, i: int, e: int)
    requires
        0 <= i <= e <= cs.len(),
        forall|k: int| i <= k < e ==> spec_is_alnum(#[trigger] cs[k]),
        e == cs.len() || !spec_is_alnum(cs[e]),
    ensures
        alnum_end(cs, i) == e,
    decreases e - i,
{
    if i < e {
        lemma_alnum_end_known(cs, i + 1, e);
    }
}

proof fn lemma_string_body_end_known(cs: Seq<char>, i: int, e: int)
    requires
        0 <= i <= e <= cs.len(),
        forall|k: int| i <= k < e ==> #[trigger] cs[k] != '"',
        e < cs.len() && cs[e] == '"',
    ensures
        string_body_end(cs, i) == e,
    decreases e - i,
{
    if i < e {
        lemma_string_body_end_known(cs, i + 1, e);
    }
}

/// Prepends the scanned tokens of one region to the outcome of
/// scanning the rest.
pub open spec fn scan_cons(
    pre: Seq<TokenModel>,
    r: Result<Seq<TokenModel>, LexerErrorModel>,
) -> Result<Seq<TokenModel>, LexerErrorModel> {
    match r {
        Ok(rest) => Ok(pre + rest),
        Err(e) => Err(e),
    }
}

proof fn lemma_scan_cons_assoc(
    a: Seq<TokenModel>,
    b: Seq<TokenModel>,
    r: Result<Seq<TokenModel>, LexerErrorModel>,
)
    ensures
        scan_cons(a, scan_cons(b, r)) == scan_cons(a + b, r),
{
    if let Ok(rest) = r {
        assert(a + (b + rest) =~= (a + b) + rest);
    }
}

} // verus!

verus! {

// ---------------------------------------------------------------------------
// Scanning a rendered document yields exactly its tokens.
// ---------------------------------------------------------------------------

proof fn lemma_scan_punct(cs: Seq<char>, i: int, t: TokenModel)
    requires
        0 <= i < cs.len(),
        (cs[i] == '{' && t == TokenModel::ObjectStart) || (cs[i] == '}' && t
            == TokenModel::ObjectEnd) || (cs[i] == '[' && t == TokenModel::ArrayStart) || (cs[i]
            == ']' && t == TokenModel::ArrayEnd) || (cs[i] == ':' && t == TokenModel::Colon) || (
        cs[i] == ',' && t == TokenModel::Comma),
    ensures
        spec_scan_from(cs, i) == scan_cons(seq![t], spec_scan_from(cs, i + 1)),
{
    assert(spec_scan_token(cs, i) == Ok::<(TokenModel, int), LexerErrorModel>((t, i + 1)));
}

proof fn lemma_scan_string_at(cs: Seq<char>, i: int, s: Seq<char>)
    requires
        0 <= i,
        no_quote(s),
        i + s.len() + 2 <= cs.len(),
        cs.subrange(i, i + s.len() + 2) == seq!['"'] + s + seq!['"'],
    ensures
        spec_scan_from(cs, i) == scan_cons(
            seq![TokenModel::String(s)],
            spec_scan_from(cs, i + s.len() + 2),
        ),
{
    let seg = seq!['"'] + s + seq!['"'];
    let e = i + s.len() + 1;
    assert(cs[i] == seg[0]) by {
        assert(cs.subrange(i, i + s.len() + 2)[0] == cs[i]);
    }
    assert(cs[e] == seg[s.len() as int + 1]) by {
        assert(cs.subrange(i, i + s.len() + 2)[s.len() + 1 as int] == cs[e]);
    }
    assert(cs[i] == '"');
    assert(cs[e] == '"');
    assert forall|k: int| i + 1 <= k < e implies #[trigger] cs[k] != '"' by {
        assert(cs.subrange(i, i + s.len() + 2)[k - i] == cs[k]);
        assert(seg[k - i] == s[k - i - 1]);
    }
    lemma_string_body_end_known(cs, i + 1, e);
    assert(cs.subrange(i + 1, e) =~= s) by {
        assert forall|m: int| 0 <= m < s.len() implies cs.subrange(i + 1, e)[m] == s[m] by {
            assert(cs.subrange(i, i + s.len() + 2)[m + 1] == cs[i + 1 + m]);
            assert(seg[m + 1] == s[m]);
        }
    }
    assert(spec_scan_token(cs, i) == Ok::<(TokenModel, int), LexerErrorModel>((
        TokenModel::String(s),
        e + 1,
    )));
}

proof fn lemma_scan_number_at(cs: Seq<char>, i: int, s: Seq<char>)
    requires
        0 <= i,
        wf_number_lexeme(s),
        i + s.len() <= cs.len(),
        cs.subrange(i, i + s.len()) == s,
        safe_boundary(cs, i + s.len()),
    ensures
        spec_scan_from(cs, i) == scan_cons(
            seq![TokenModel::Number(s)],
            spec_scan_from(cs, i + s.len()),
        ),
{
    let e = i + s.len();
    assert forall|k: int| i <= k < e implies #[trigger] cs[k] == s[k - i] by {
        assert(cs.subrange(i, e)[k - i] == cs[k]);
    }
    if all_digits(s) {
        assert(spec_is_digit(cs[i]));
        lemma_digits_end_known(cs, i, e);
        assert(number_end(cs, i) == e);
    } else {
        let d = choose|d: int|
            1 <= d && d + 1 < s.len() && #[trigger] s[d] == '.' && all_digits(s.subrange(0, d))
                && all_digits(s.subrange(d + 1, s.len() as int));
        assert forall|k: int| i <= k < i + d implies spec_is_digit(#[trigger] cs[k]) by {
            assert(s.subrange(0, d)[k - i] == s[k - i]);
        }
        assert(cs[i + d] == '.');
        assert(!spec_is_digit('.'));
        lemma_digits_end_known(cs, i, i + d);
        assert forall|k: int| i + d + 1 <= k < e implies spec_is_digit(#[trigger] cs[k]) by {
            assert(s.subrange(d + 1, s.len() as int)[k - i - d - 1] == s[k - i]);
        }
        assert(spec_is_digit(cs[i + d + 1]));
        lemma_digits_end_known(cs, i + d + 1, e);
        assert(spec_is_digit(cs[i]));
        assert(number_end(cs, i) == e);
    }
    assert(cs.subrange(i, number_end(cs, i)) == s);
    assert(spec_scan_token(cs, i) == Ok::<(TokenModel, int), LexerErrorModel>((
        TokenModel::Number(s),
        e,
    )));
}

proof fn lemma_scan_keyword_at(cs: Seq<char>, i: int, word: Seq<char>, t: TokenModel)
    requires
        0 <= i,
        i + word.len() <= cs.len(),
        cs.subrange(i, i + word.len()) == word,
        safe_boundary(cs, i + word.len()),
        (word == seq!['n', 'u', 'l', 'l'] && t == TokenModel::Null) || (word == seq!['t', 'r', 'u', 'e']
            && t == TokenModel::Boolean(true)) || (word == seq!['f', 'a', 'l', 's', 'e'] && t
            == TokenModel::Boolean(false)),
    ensures
        spec_scan_from(cs, i) == scan_cons(seq![t], spec_scan_from(cs, i + word.len())),
{
    let e = i + word.len();
    assert forall|k: int| i <= k < e implies #[trigger] cs[k] == word[k - i] by {
        assert(cs.subrange(i, e)[k - i] == cs[k]);
    }
    assert forall|k: int| i <= k < e implies spec_is_alnum(#[trigger] cs[k]) by {
        assert(cs[k] == word[k - i]);
    }
    lemma_alnum_end_known(cs, i, e);
    let text = cs.subrange(i, alnum_end(cs, i));
    assert(text == word);
    reveal_strlit("null");
    reveal_strlit("true");
    reveal_strlit("false");
    if t == TokenModel::Null {
        assert(text =~= "null"@);
    } else if t == TokenModel::Boolean(true) {
        assert(text =~= "true"@);
        assert(text != "null"@);
    } else {
        assert(text =~= "false"@);
        assert(text != "null"@);
        assert(text != "true"@);
    }
    assert(spec_scan_token(cs, i) == Ok::<(TokenModel, int), LexerErrorModel>((t, e)));
}

/// The canonical text of `v`, standing at position `i` of a larger
/// input with a clean boundary after it, scans to exactly `tokens_of(v)`
/// followed by whatever the rest of the input scans to.
#[verifier::rlimit(60)]
pub proof fn lemma_render_scans(v: JsonModel, cs: Seq<char>, i: int)
    requires
        renderable(v),
        0 <= i,
        i + render(v).len() <= cs.len(),
        cs.subrange(i, i + render(v).len()) == render(v),
        safe_boundary(cs, i + render(v).len()),
    ensures
        spec_scan_from(cs, i) == scan_cons(tokens_of(v), spec_scan_from(cs, i + render(v).len())),
    decreases v, 0int,
{
    let e = i + render(v).len();
    assert forall|k: int| i <= k < e implies #[trigger] cs[k] == render(v)[k - i] by {
        assert(cs.subrange(i, e)[k - i] == cs[k]);
    }
    match v {
        JsonModel::Null => {
            lemma_scan_keyword_at(cs, i, seq!['n', 'u', 'l', 'l'], TokenModel::Null);
        },
        JsonModel::Boolean(b) => {
            if b {
                lemma_scan_keyword_at(cs, i, seq!['t', 'r', 'u', 'e'], TokenModel::Boolean(true));
            } else {
                lemma_scan_keyword_at(
                    cs,
                    i,
                    seq!['f', 'a', 'l', 's', 'e'],
                    TokenModel::Boolean(false),
                );
            }
        },
        JsonModel::Number(s) => {
            lemma_scan_number_at(cs, i, s);
        },
        JsonModel::String(s) => {
            lemma_scan_string_at(cs, i, s);
        },
        JsonModel::Array(items) => {
            lemma_render_scans_array(items, cs, i);
        },
        JsonModel::Object(ps) => {
            lemma_render_scans_object(ps, cs, i);
        },
    }
}

/// The array case of `lemma_render_scans`.
proof fn lemma_render_scans_array(items: Seq<JsonModel>, cs: Seq<char>, i: int)
    requires
        renderable(JsonModel::Array(items)),
        0 <= i,
        i + render(JsonModel::Array(items)).len() <= cs.len(),
        cs.subrange(i, i + render(JsonModel::Array(items)).len()) == render(
            JsonModel::Array(items),
        ),
        safe_boundary(cs, i + render(JsonModel::Array(items)).len()),
    ensures
        spec_scan_from(cs, i) == scan_cons(
            tokens_of(JsonModel::Array(items)),
            spec_scan_from(cs, i + render(JsonModel::Array(items)).len()),
        ),
    decreases items, 2int,
{
    let v = JsonModel::Array(items);
    let e = i + render(v).len();
    assert forall|k: int| i <= k < e implies #[trigger] cs[k] == render(v)[k - i] by {
        assert(cs.subrange(i, e)[k - i] == cs[k]);
    }
    assert(cs[i] == '[');
    lemma_scan_punct(cs, i, TokenModel::ArrayStart);
    if items.len() == 0 {
        assert(cs[i + 1] == ']');
        lemma_scan_punct(cs, i + 1, TokenModel::ArrayEnd);
        lemma_scan_cons_assoc(
            seq![TokenModel::ArrayStart],
            seq![TokenModel::ArrayEnd],
            spec_scan_from(cs, e),
        );
        assert(tokens_of(v) =~= seq![TokenModel::ArrayStart] + seq![TokenModel::ArrayEnd]);
    } else {
        let mid = render_items(items);
        assert(cs[e - 1] == ']');
        assert(cs.subrange(i + 1, e - 1) =~= mid) by {
            assert forall|m: int| 0 <= m < mid.len() implies cs.subrange(i + 1, e - 1)[m]
                == mid[m] by {
                assert(cs[i + 1 + m] == render(v)[m + 1]);
            }
        }
        lemma_scan_items(items, cs, i + 1);
        lemma_scan_punct(cs, e - 1, TokenModel::ArrayEnd);
        lemma_scan_cons_assoc(
            tokens_items(items),
            seq![TokenModel::ArrayEnd],
            spec_scan_from(cs, e),
        );
        lemma_scan_cons_assoc(
            seq![TokenModel::ArrayStart],
            tokens_items(items) + seq![TokenModel::ArrayEnd],
            spec_scan_from(cs, e),
        );
        assert(tokens_of(v) =~= seq![TokenModel::ArrayStart] + (tokens_items(items)
            + seq![TokenModel::ArrayEnd]));
    }
}

/// The object case of `lemma_render_scans`.
proof fn lemma_render_scans_object(ps: Seq<(Seq<char>, JsonModel)>, cs: Seq<char>, i: int)
    requires
        renderable(JsonModel::Object(ps)),
        0 <= i,
        i + render(JsonModel::Object(ps)).len() <= cs.len(),
        cs.subrange(i, i + render(JsonModel::Object(ps)).len()) == render(JsonModel::Object(ps)),
        safe_boundary(cs, i + render(JsonModel::Object(ps)).len()),
    ensures
        spec_scan_from(cs, i) == scan_cons(
            tokens_of(JsonModel::Object(ps)),
            spec_scan_from(cs, i + render(JsonModel::Object(ps)).len()),
        ),
    decreases ps, 2int,
{
    let v = JsonModel::Object(ps);
    let e = i + render(v).len();
    assert forall|k: int| i <= k < e implies #[trigger] cs[k] == render(v)[k - i] by {
        assert(cs.subrange(i, e)[k - i] == cs[k]);
    }
    assert(cs[i] == '{');
    lemma_scan_punct(cs, i, TokenModel::ObjectStart);
    if ps.len() == 0 {
        assert(cs[i + 1] == '}');
        lemma_scan_punct(cs, i + 1, TokenModel::ObjectEnd);
        lemma_scan_cons_assoc(
            seq![TokenModel::ObjectStart],
            seq![TokenModel::ObjectEnd],
            spec_scan_from(cs, e),
        );
        assert(tokens_of(v) =~= seq![TokenModel::ObjectStart] + seq![TokenModel::ObjectEnd]);
    } else {
        let mid = render_pairs(ps);
        assert(cs[e - 1] == '}');
        assert(cs.subrange(i + 1, e - 1) =~= mid) by {
            assert forall|m: int| 0 <= m < mid.len() implies cs.subrange(i + 1, e - 1)[m]
                == mid[m] by {
                assert(cs[i + 1 + m] == render(v)[m + 1]);
            }
        }
        lemma_scan_pairs(ps, cs, i + 1);
        lemma_scan_punct(cs, e - 1, TokenModel::ObjectEnd);
        lemma_scan_cons_assoc(
            tokens_pairs(ps),
            seq![TokenModel::ObjectEnd],
            spec_scan_from(cs, e),
        );
        lemma_scan_cons_assoc(
            seq![TokenModel::ObjectStart],
            tokens_pairs(ps) + seq![TokenModel::ObjectEnd],
            spec_scan_from(cs, e),
        );
        assert(tokens_of(v) =~= seq![TokenModel::ObjectStart] + (tokens_pairs(ps)
            + seq![TokenModel::ObjectEnd]));
    }
}

/// As `lemma_render_scans`, for a non-empty comma-separated run of
/// array elements.
proof fn lemma_scan_items(items: Seq<JsonModel>, cs: Seq<char>, i: int)
    requires
        items.len() > 0,
        ren_items(items),
        0 <= i,
        i + render_items(items).len() <= cs.len(),
        cs.subrange(i, i + render_items(items).len()) == render_items(items),
        safe_boundary(cs, i + render_items(items).len()),
    ensures
        spec_scan_from(cs, i) == scan_cons(
            tokens_items(items),
            spec_scan_from(cs, i + render_items(items).len()),
        ),
    decreases items, 1int,
{
    let e = i + render_items(items).len();
    if items.len() == 1 {
        lemma_render_scans(items[0], cs, i);
    } else {
        let v0 = items[0];
        let rest = items.drop_first();
        let l0 = render(v0).len();
        let seg = render_items(items);
        assert forall|k: int| i <= k < e implies #[trigger] cs[k] == seg[k - i] by {
            assert(cs.subrange(i, e)[k - i] == cs[k]);
        }
        assert(cs.subrange(i, i + l0) =~= render(v0)) by {
            assert forall|m: int| 0 <= m < l0 implies cs.subrange(i, i + l0)[m] == render(v0)[m] by {
                assert(cs[i + m] == seg[m]);
            }
        }
        assert(cs[i + l0] == ',');
        lemma_render_scans(v0, cs, i);
        lemma_scan_punct(cs, i + l0, TokenModel::Comma);
        assert(cs.subrange(i + l0 + 1, e) =~= render_items(rest)) by {
            assert forall|m: int| 0 <= m < render_items(rest).len() implies cs.subrange(
                i + l0 + 1,
                e,
            )[m] == render_items(rest)[m] by {
                assert(cs[i + l0 + 1 + m] == seg[l0 + 1 + m]);
            }
        }
        lemma_scan_items(rest, cs, i + l0 + 1);
        lemma_scan_cons_assoc(
            seq![TokenModel::Comma],
            tokens_items(rest),
            spec_scan_from(cs, e),
        );
        lemma_scan_cons_assoc(
            tokens_of(v0),
            seq![TokenModel::Comma] + tokens_items(rest),
            spec_scan_from(cs, e),
        );
        assert(tokens_items(items) =~= tokens_of(v0) + (seq![TokenModel::Comma] + tokens_items(
            rest,
        )));
    }
}

/// As `lemma_render_scans`, for one `"key":value` member.
proof fn lemma_scan_pair(p: (Seq<char>, JsonModel), cs: Seq<char>, i: int)
    requires
        no_quote(p.0),
        renderable(p.1),
        0 <= i,
        i + render_pair(p).len() <= cs.len(),
        cs.subrange(i, i + render_pair(p).len()) == render_pair(p),
        safe_boundary(cs, i + render_pair(p).len()),
    ensures
        spec_scan_from(cs, i) == scan_cons(
            tokens_pair(p),
            spec_scan_from(cs, i + render_pair(p).len()),
        ),
    decreases p, 0int,
{
    let k = p.0;
    let lk = k.len() as int;
    let e = i + render_pair(p).len();
    let seg = render_pair(p);
    assert forall|m: int| i <= m < e implies #[trigger] cs[m] == seg[m - i] by {
        assert(cs.subrange(i, e)[m - i] == cs[m]);
    }
    assert(cs.subrange(i, i + lk + 2) =~= seq!['"'] + k + seq!['"']) by {
        assert forall|m: int| 0 <= m < lk + 2 implies cs.subrange(i, i + lk + 2)[m] == (seq!['"'] + k
            + seq!['"'])[m] by {
            assert(cs[i + m] == seg[m]);
            if m == lk + 1 {
                assert(seg[m] == (seq!['"', ':'])[0]);
            }
        }
    }
    lemma_scan_string_at(cs, i, k);
    assert(cs[i + lk + 2] == ':') by {
        assert(seg[lk + 2] == (seq!['"', ':'])[1]);
    }
    lemma_scan_punct(cs, i + lk + 2, TokenModel::Colon);
    assert(cs.subrange(i + lk + 3, e) =~= render(p.1)) by {
        assert forall|m: int| 0 <= m < render(p.1).len() implies cs.subrange(i + lk + 3, e)[m]
            == render(p.1)[m] by {
            assert(cs[i + lk + 3 + m] == seg[lk + 3 + m]);
        }
    }
    lemma_render_scans(p.1, cs, i + lk + 3);
    lemma_scan_cons_assoc(seq![TokenModel::Colon], tokens_of(p.1), spec_scan_from(cs, e));
    lemma_scan_cons_assoc(
        seq![TokenModel::String(k)],
        seq![TokenModel::Colon] + tokens_of(p.1),
        spec_scan_from(cs, e),
    );
    assert(tokens_pair(p) =~= seq![TokenModel::String(k)] + (seq![TokenModel::Colon] + tokens_of(
        p.1,
    )));
}

/// As `lemma_render_scans`, for a non-empty comma-separated run of
/// object members.
proof fn lemma_scan_pairs(ps: Seq<(Seq<char>, JsonModel)>, cs: Seq<char>, i: int)
    requires
        ps.len() > 0,
        ren_pairs(ps),
        0 <= i,
        i + render_pairs(ps).len() <= cs.len(),
        cs.subrange(i, i + render_pairs(ps).len()) == render_pairs(ps),
        safe_boundary(cs, i + render_pairs(ps).len()),
    ensures
        spec_scan_from(cs, i) == scan_cons(
            tokens_pairs(ps),
            spec_scan_from(cs, i + render_pairs(ps).len()),
        ),
    decreases ps, 1int,
{
    let e = i + render_pairs(ps).len();
    if ps.len() == 1 {
        lemma_scan_pair(ps[0], cs, i);
    } else {
        let p0 = ps[0];
        let rest = ps.drop_first();
        let l0 = render_pair(p0).len();
        let seg = render_pairs(ps);
        assert forall|m: int| i <= m < e implies #[trigger] cs[m] == seg[m - i] by {
            assert(cs.subrange(i, e)[m - i] == cs[m]);
        }
        assert(cs.subrange(i, i + l0) =~= render_pair(p0)) by {
            assert forall|m: int| 0 <= m < l0 implies cs.subrange(i, i + l0)[m] == render_pair(
                p0,
            )[m] by {
                assert(cs[i + m] == seg[m]);
            }
        }
        assert(cs[i + l0] == ',');
        lemma_scan_pair(p0, cs, i);
        lemma_scan_punct(cs, i + l0, TokenModel::Comma);
        assert(cs.subrange(i + l0 + 1, e) =~= render_pairs(rest)) by {
            assert forall|m: int| 0 <= m < render_pairs(rest).len() implies cs.subrange(
                i + l0 + 1,
                e,
            )[m] == render_pairs(rest)[m] by {
                assert(cs[i + l0 + 1 + m] == seg[l0 + 1 + m]);
            }
        }
        lemma_scan_pairs(rest, cs, i + l0 + 1);
        lemma_scan_cons_assoc(
            seq![TokenModel::Comma],
            tokens_pairs(rest),
            spec_scan_from(cs, e),
        );
        lemma_scan_cons_assoc(
            tokens_pair(p0),
            seq![TokenModel::Comma] + tokens_pairs(rest),
            spec_scan_from(cs, e),
        );
        assert(tokens_pairs(ps) =~= tokens_pair(p0) + (seq![TokenModel::Comma] + tokens_pairs(
            rest,
        )));
    }
}

/// The canonical text of a renderable document scans to exactly its
/// token sequence, closed by the end-of-input sentinel.
pub proof fn lemma_scan_render(v: JsonModel)
    requires
        renderable(v),
    ensures
        spec_scan(render(v)) == Ok::<Seq<TokenModel>, LexerErrorModel>(
            tokens_of(v) + seq![TokenModel::Eof],
        ),
{
    let cs = render(v);
    assert(cs.subrange(0, cs.len() as int) =~= cs);
    lemma_render_scans(v, cs, 0);
}

} // verus!

verus! {

// ---------------------------------------------------------------------------
// Parsing the tokens of a rendered document yields the document back.
// ---------------------------------------------------------------------------

/// Every value occupies at least one token, and its first token is one
/// that can open a `value` production.
proof fn lemma_tokens_first(v: JsonModel)
    ensures
        tokens_of(v).len() >= 1,
        tokens_of(v)[0] is Null || tokens_of(v)[0] is Boolean || tokens_of(v)[0] is Number
            || tokens_of(v)[0] is String || tokens_of(v)[0] is ArrayStart || tokens_of(
            v,
        )[0] is ObjectStart,
{
    match v {
        JsonModel::Null => (),
        JsonModel::Boolean(_) => (),
        JsonModel::Number(_) => (),
        JsonModel::String(_) => (),
        JsonModel::Array(_) => (),
        JsonModel::Object(_) => (),
    }
}

/// Parsing one `value` production from the tokens of `v` succeeds and
/// reconstructs exactly `v`, the cursor landing just past its tokens.
pub proof fn lemma_parse_value_complete(v: JsonModel, ts: Seq<TokenModel>, i: int)
    requires
        renderable(v),
        0 <= i,
        i + tokens_of(v).len() <= ts.len(),
        ts.subrange(i, i + tokens_of(v).len()) == tokens_of(v),
    ensures
        spec_parse_value(ts, i) == Ok::<(JsonModel, int), ParserErrorModel>((
            v,
            i + tokens_of(v).len(),
        )),
    decreases v, 0int,
{
    let l = tokens_of(v).len() as int;
    let e = i + l;
    assert forall|k: int| i <= k < e implies #[trigger] ts[k] == tokens_of(v)[k - i] by {
        assert(ts.subrange(i, e)[k - i] == ts[k]);
    }
    match v {
        JsonModel::Null => {
            assert(ts[i] == TokenModel::Null);
        },
        JsonModel::Boolean(b) => {
            assert(ts[i] == TokenModel::Boolean(b));
        },
        JsonModel::Number(s) => {
            assert(ts[i] == TokenModel::Number(s));
        },
        JsonModel::String(s) => {
            assert(ts[i] == TokenModel::String(s));
        },
        JsonModel::Array(items) => {
            assert(ts[i] == TokenModel::ArrayStart);
            if items.len() == 0 {
                assert(ts[i + 1] == TokenModel::ArrayEnd);
                assert(spec_parse_array(ts, i) == Ok::<(JsonModel, int), ParserErrorModel>((
                    JsonModel::Array(Seq::empty()),
                    i + 2,
                )));
                assert(tokens_items(items) == Seq::<TokenModel>::empty());
                assert(items =~= Seq::<JsonModel>::empty());
                assert(l == 2);
            } else {
                let mid = tokens_items(items);
                assert(ts[i + 1] == tokens_of(v)[1]);
                assert(tokens_of(v)[1] == mid[0]);
                lemma_tokens_first(items[0]);
                assert(mid[0] == tokens_of(items[0])[0]);
                assert(!spec_check(ts, i + 1, TokenModel::ArrayEnd));
                assert(ts.subrange(i + 1, e - 1) =~= mid) by {
                    assert forall|m: int| 0 <= m < mid.len() implies ts.subrange(i + 1, e - 1)[m]
                        == mid[m] by {
                        assert(ts[i + 1 + m] == tokens_of(v)[m + 1]);
                    }
                }
                assert(ts[e - 1] == TokenModel::ArrayEnd);
                lemma_parse_items_complete(items, Seq::empty(), ts, i + 1);
                assert(Seq::<JsonModel>::empty() + items =~= items);
            }
        },
        JsonModel::Object(ps) => {
            assert(ts[i] == TokenModel::ObjectStart);
            if ps.len() == 0 {
                assert(ts[i + 1] == TokenModel::ObjectEnd);
                assert(spec_parse_object(ts, i) == Ok::<(JsonModel, int), ParserErrorModel>((
                    JsonModel::Object(Seq::empty()),
                    i + 2,
                )));
                assert(tokens_pairs(ps) == Seq::<TokenModel>::empty());
                assert(ps =~= Seq::<(Seq<char>, JsonModel)>::empty());
                assert(l == 2);
            } else {
                let mid = tokens_pairs(ps);
                assert(ts[i + 1] == tokens_of(v)[1]);
                assert(tokens_of(v)[1] == mid[0]);
                assert(mid[0] == tokens_pair(ps[0])[0]);
                assert(tokens_pair(ps[0])[0] == TokenModel::String(ps[0].0));
                assert(!spec_check(ts, i + 1, TokenModel::ObjectEnd));
                assert(ts.subrange(i + 1, e - 1) =~= mid) by {
                    assert forall|m: int| 0 <= m < mid.len() implies ts.subrange(i + 1, e - 1)[m]
                        == mid[m] by {
                        assert(ts[i + 1 + m] == tokens_of(v)[m + 1]);
                    }
                }
                assert(ts[e - 1] == TokenModel::ObjectEnd);
                assert(Seq::<(Seq<char>, JsonModel)>::empty() + ps =~= ps);
                lemma_parse_members_complete(ps, Seq::empty(), ts, i + 1);
            }
        },
    }
}

/// The elements loop gathers exactly the remaining items onto the
/// accumulator and stops on the closing bracket.
proof fn lemma_parse_items_complete(
    items: Seq<JsonModel>,
    acc: Seq<JsonModel>,
    ts: Seq<TokenModel>,
    i: int,
)
    requires
        items.len() > 0,
        ren_items(items),
        0 <= i,
        i + tokens_items(items).len() < ts.len(),
        ts.subrange(i, i + tokens_items(items).len()) == tokens_items(items),
        ts[i + tokens_items(items).len()] is ArrayEnd,
    ensures
        spec_parse_items(ts, i, acc) == Ok::<(Seq<JsonModel>, int), ParserErrorModel>((
            acc + items,
            i + tokens_items(items).len() + 1,
        )),
    decreases items, 1int,
{
    let l = tokens_items(items).len() as int;
    let e = i + l;
    assert forall|k: int| i <= k < e implies #[trigger] ts[k] == tokens_items(items)[k - i] by {
        assert(ts.subrange(i, e)[k - i] == ts[k]);
    }
    let v0 = items[0];
    let l0 = tokens_of(v0).len() as int;
    lemma_tokens_first(v0);
    assert(ts.subrange(i, i + l0) =~= tokens_of(v0)) by {
        assert forall|m: int| 0 <= m < l0 implies ts.subrange(i, i + l0)[m] == tokens_of(v0)[m] by {
            assert(ts[i + m] == tokens_items(items)[m]);
        }
    }
    lemma_parse_value_complete(v0, ts, i);
    if items.len() == 1 {
        assert(ts[e] is ArrayEnd);
        assert(acc.push(v0) =~= acc + items) by {
            assert(items =~= seq![v0]);
        }
    } else {
        let rest = items.drop_first();
        assert(ts[i + l0] == tokens_items(items)[l0]);
        assert(tokens_items(items)[l0] == TokenModel::Comma);
        assert(!spec_check(ts, i + l0, TokenModel::ArrayEnd));
        assert(spec_check(ts, i + l0, TokenModel::Comma));
        assert(ts.subrange(i + l0 + 1, e) =~= tokens_items(rest)) by {
            assert forall|m: int| 0 <= m < tokens_items(rest).len() implies ts.subrange(
                i + l0 + 1,
                e,
            )[m] == tokens_items(rest)[m] by {
                assert(ts[i + l0 + 1 + m] == tokens_items(items)[l0 + 1 + m]);
            }
        }
        lemma_parse_items_complete(rest, acc.push(v0), ts, i + l0 + 1);
        assert(acc.push(v0) + rest =~= acc + items);
    }
}

/// The members loop gathers exactly the remaining pairs onto the
/// accumulator — each insertion a plain append, the keys being unique —
/// and stops on the closing brace.
proof fn lemma_parse_members_complete(
    ps: Seq<(Seq<char>, JsonModel)>,
    acc: Seq<(Seq<char>, JsonModel)>,
    ts: Seq<TokenModel>,
    i: int,
)
    requires
        ps.len() > 0,
        ren_pairs(ps),
        unique_keys(acc + ps),
        0 <= i,
        i + tokens_pairs(ps).len() < ts.len(),
        ts.subrange(i, i + tokens_pairs(ps).len()) == tokens_pairs(ps),
        ts[i + tokens_pairs(ps).len()] is ObjectEnd,
    ensures
        spec_parse_members(ts, i, acc) == Ok::<
            (Seq<(Seq<char>, JsonModel)>, int),
            ParserErrorModel,
        >((acc + ps, i + tokens_pairs(ps).len() + 1)),
    decreases ps, 1int,
{
    let l = tokens_pairs(ps).len() as int;
    let e = i + l;
    assert forall|k: int| i <= k < e implies #[trigger] ts[k] == tokens_pairs(ps)[k - i] by {
        assert(ts.subrange(i, e)[k - i] == ts[k]);
    }
    let p0 = ps[0];
    let k0 = p0.0;
    let v0 = p0.1;
    let l0 = tokens_of(v0).len() as int;
    let lp = tokens_pair(p0).len() as int;
    assert(lp == 2 + l0);
    assert forall|m: int| 0 <= m < lp implies tokens_pairs(ps)[m] == tokens_pair(p0)[m] by {}
    assert(ts[i] == TokenModel::String(k0)) by {
        assert(tokens_pair(p0)[0] == TokenModel::String(k0));
    }
    assert(ts[i + 1] == TokenModel::Colon) by {
        assert(tokens_pair(p0)[1] == TokenModel::Colon);
    }
    assert(spec_check(ts, i + 1, TokenModel::Colon));
    lemma_tokens_first(v0);
    assert(ts.subrange(i + 2, i + 2 + l0) =~= tokens_of(v0)) by {
        assert forall|m: int| 0 <= m < l0 implies ts.subrange(i + 2, i + 2 + l0)[m] == tokens_of(
            v0,
        )[m] by {
            assert(ts[i + 2 + m] == tokens_pairs(ps)[2 + m]);
            assert(tokens_pair(p0)[2 + m] == tokens_of(v0)[m]);
        }
    }
    lemma_parse_value_complete(v0, ts, i + 2);
    lemma_key_index(acc, k0);
    assert forall|m: int| 0 <= m < acc.len() implies (#[trigger] acc[m]).0 != k0 by {
        assert((acc + ps)[m] == acc[m]);
        assert((acc + ps)[acc.len() as int] == p0);
    }
    assert(!has_key(acc, k0));
    let acc2 = acc.push((k0, v0));
    assert(assoc_update(acc, k0, v0) == acc2);
    assert(acc2 =~= acc + seq![p0]);
    if ps.len() == 1 {
        assert(ts[e] is ObjectEnd);
        assert(spec_check(ts, e, TokenModel::ObjectEnd));
        assert(acc2 =~= acc + ps) by {
            assert(ps =~= seq![p0]);
        }
    } else {
        let rest = ps.drop_first();
        assert(ts[i + lp] == tokens_pairs(ps)[lp]);
        assert(tokens_pairs(ps)[lp] == TokenModel::Comma);
        assert(!spec_check(ts, i + lp, TokenModel::ObjectEnd));
        assert(spec_check(ts, i + lp, TokenModel::Comma));
        assert(ts.subrange(i + lp + 1, e) =~= tokens_pairs(rest)) by {
            assert forall|m: int| 0 <= m < tokens_pairs(rest).len() implies ts.subrange(
                i + lp + 1,
                e,
            )[m] == tokens_pairs(rest)[m] by {
                assert(ts[i + lp + 1 + m] == tokens_pairs(ps)[lp + 1 + m]);
            }
        }
        assert(acc2 + rest =~= acc + ps);
        lemma_parse_members_complete(rest, acc2, ts, i + lp + 1);
    }
}

/// Parsing the tokens of a rendered document, closed by the sentinel,
/// yields the document back.
proof fn lemma_parse_document_complete(v: JsonModel, ts: Seq<TokenModel>)
    requires
        renderable(v),
        v is Array || v is Object,
        ts == tokens_of(v) + seq![TokenModel::Eof],
    ensures
        spec_parse_tokens(ts) == Ok::<JsonModel, ParserErrorModel>(v),
{
    let l = tokens_of(v).len() as int;
    lemma_tokens_first(v);
    assert(ts.subrange(0, l) =~= tokens_of(v));
    lemma_parse_value_complete(v, ts, 0);
    assert(ts[0] == tokens_of(v)[0]);
    if v is Array {
        assert(spec_parse_value(ts, 0) == spec_parse_array(ts, 0));
    } else {
        assert(spec_parse_value(ts, 0) == spec_parse_object(ts, 0));
    }
    assert(ts[l] is Eof);
    assert(spec_parse_documents(ts, l, v) == Ok::<(JsonModel, int), ParserErrorModel>((v, l)));
}

/// Whitespace insensitivity, in full: every text that scans to the
/// tokens of a well-formed document — in particular the document's
/// canonical text with any whitespace laid between its tokens — parses
/// to exactly that document's value tree.
pub proof fn lemma_parse_any_text_of(v: JsonModel, t: Seq<char>)
    requires
        renderable(v),
        v is Array || v is Object,
        spec_scan(t) == Ok::<Seq<TokenModel>, LexerErrorModel>(
            tokens_of(v) + seq![TokenModel::Eof],
        ),
    ensures
        spec_parse_json(t) == Ok::<JsonModel, ParserErrorModel>(v),
{
    lemma_parse_document_complete(v, tokens_of(v) + seq![TokenModel::Eof]);
}

/// For every well-formed document — nested objects and arrays whose
/// string bodies and keys hold no quote, whose numeric spans are well
/// formed and whose object keys are unique — parsing the document's
/// canonical text succeeds and yields exactly its value tree: the
/// result mirrors the document's nesting node for node.
pub proof fn lemma_parse_render_roundtrip(v: JsonModel)
    requires
        renderable(v),
        v is Array || v is Object,
    ensures
        spec_parse_json(render(v)) == Ok::<JsonModel, ParserErrorModel>(v),
{
    lemma_scan_render(v);
    lemma_parse_document_complete(v, tokens_of(v) + seq![TokenModel::Eof]);
}

} // verus!
