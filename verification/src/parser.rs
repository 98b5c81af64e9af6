use vstd::prelude::*;
use vstd::utf8::encode_utf8;
use crate::types::{Token, Template, SpecToken, tokens_view};
use crate::text::{chars_of, substring, decimal, usize_to_decimal, byte_offset};

verus! {

/// Check if a token is a literal.
pub fn is_literal(token: &Token) -> (r: bool)
    ensures
        r == (token@ is Literal),
{
    match token {
        Token::Literal(_) => true,
        Token::Tag(_) => false,
    }
}

/// Check if a token is a tag.
pub fn is_tag(token: &Token) -> (r: bool)
    ensures
        r == (token@ is Tag),
{
    match token {
        Token::Tag(_) => true,
        Token::Literal(_) => false,
    }
}

/// The two characters that delimit tags.
pub open spec fn is_brace(c: char) -> bool {
    c == '{' || c == '}'
}

/// The end of the run of characters other than braces that starts at `i`.
pub open spec fn plain_end(s: Seq<char>, i: int) -> int
    decreases s.len() - i,
{
    if 0 <= i < s.len() && !is_brace(s[i]) {
        plain_end(s, i + 1)
    } else {
        i
    }
}

/// The end of the run of braces that starts at `i`.
pub open spec fn brace_end(s: Seq<char>, i: int) -> int
    decreases s.len() - i,
{
    if 0 <= i < s.len() && is_brace(s[i]) {
        brace_end(s, i + 1)
    } else {
        i
    }
}

/// Unicode's `White_Space` property (as `char::is_whitespace` reports it).
pub open spec fn is_white_space(c: char) -> bool {
    let u = c as u32;
    ||| 0x09 <= u <= 0x0D
    ||| u == 0x20
    ||| u == 0x85
    ||| u == 0xA0
    ||| u == 0x1680
    ||| 0x2000 <= u <= 0x200A
    ||| u == 0x2028
    ||| u == 0x2029
    ||| u == 0x202F
    ||| u == 0x205F
    ||| u == 0x3000
}

/// Whether some character of `s` is white space.
pub open spec fn has_white_space(s: Seq<char>) -> bool {
    exists|j: int| 0 <= j < s.len() && is_white_space(#[trigger] s[j])
}

/// Why a text is not a template: a tag, opened at the given character index,
/// holds white space, or is not closed by `}}` after a non-empty name.
pub enum ParseFailure {
    WhitespaceInTag(int),
    UnclosedTag(int),
}

/// Put a token in front of a parse result.
pub open spec fn prepend(t: SpecToken, r: Result<Seq<SpecToken>, ParseFailure>) -> Result<
    Seq<SpecToken>,
    ParseFailure,
> {
    match r {
        Ok(ts) => Ok(seq![t] + ts),
        Err(f) => Err(f),
    }
}

/// Whether a tag opens at `i`: two opening braces.
pub open spec fn opens_tag(s: Seq<char>, i: int) -> bool {
    0 <= i && i + 1 < s.len() && s[i] == '{' && s[i + 1] == '{'
}

/// Whether the tag opened at `i` has a non-empty name closed by `}}`.
pub open spec fn tag_closed(s: Seq<char>, i: int) -> bool {
    let e = plain_end(s, i + 2);
    e > i + 2 && e + 1 < s.len() && s[e] == '}' && s[e + 1] == '}'
}

/// The tokens of `s` from character index `i` on.
///
/// A run of characters other than braces is a literal. Two opening braces
/// open a tag, whose name runs up to the next brace and must be non-empty,
/// free of white space and followed by two closing braces. Any other run of
/// braces is a literal.
pub open spec fn parse_from(s: Seq<char>, i: int) -> Result<Seq<SpecToken>, ParseFailure>
    decreases s.len() - i,
    via parse_from_decreases
{
    if !(0 <= i < s.len()) {
        Ok(seq![])
    } else if !is_brace(s[i]) {
        let e = plain_end(s, i);
        prepend(SpecToken::Literal(s.subrange(i, e)), parse_from(s, e))
    } else if opens_tag(s, i) {
        let e = plain_end(s, i + 2);
        if tag_closed(s, i) {
            let name = s.subrange(i + 2, e);
            if has_white_space(name) {
                Err(ParseFailure::WhitespaceInTag(i))
            } else {
                prepend(SpecToken::Tag(name), parse_from(s, e + 2))
            }
        } else {
            Err(ParseFailure::UnclosedTag(i))
        }
    } else {
        let e = brace_end(s, i);
        prepend(SpecToken::Literal(s.subrange(i, e)), parse_from(s, e))
    }
}

#[via_fn]
proof fn parse_from_decreases(s: Seq<char>, i: int) {
    if 0 <= i < s.len() {
        lemma_plain_end(s, i);
        lemma_brace_end(s, i);
        if i + 2 <= s.len() {
            lemma_plain_end(s, i + 2);
        }
    }
}

/// The template that `s` reads as, or why it reads as none.
pub open spec fn parse(s: Seq<char>) -> Result<Seq<SpecToken>, ParseFailure> {
    parse_from(s, 0)
}

/// The error message for a failure, with the byte offset of the tag in the
/// UTF-8 encoding of the text.
pub open spec fn failure_message(s: Seq<char>, f: ParseFailure) -> Seq<char> {
    match f {
        ParseFailure::WhitespaceInTag(i) => "whitespace in tag at position "@ + decimal(
            encode_utf8(s.take(i)).len(),
        ),
        ParseFailure::UnclosedTag(i) => "unclosed tag at position "@ + decimal(
            encode_utf8(s.take(i)).len(),
        ),
    }
}

/// A run of characters other than braces stays within the text, holds no
/// brace and ends at a brace or at the end.
pub proof fn lemma_plain_end(s: Seq<char>, i: int)
    requires
        0 <= i <= s.len(),
    ensures
        i <= plain_end(s, i) <= s.len(),
        forall|j: int| i <= j < plain_end(s, i) ==> !is_brace(#[trigger] s[j]),
        plain_end(s, i) < s.len() ==> is_brace(s[plain_end(s, i)]),
    decreases s.len() - i,
{
    if i < s.len() && !is_brace(s[i]) {
        lemma_plain_end(s, i + 1);
    }
}

/// A run of braces stays within the text, holds only braces and ends at a
/// character other than a brace or at the end.
pub proof fn lemma_brace_end(s: Seq<char>, i: int)
    requires
        0 <= i <= s.len(),
    ensures
        i <= brace_end(s, i) <= s.len(),
        forall|j: int| i <= j < brace_end(s, i) ==> is_brace(#[trigger] s[j]),
        brace_end(s, i) < s.len() ==> !is_brace(s[brace_end(s, i)]),
    decreases s.len() - i,
{
    if i < s.len() && is_brace(s[i]) {
        lemma_brace_end(s, i + 1);
    }
}

fn scan_plain(s: &Vec<char>, i: usize) -> (e: usize)
    requires
        i <= s@.len(),
    ensures
        e == plain_end(s@, i as int),
        i <= e <= s@.len(),
{
    let mut j = i;
    while j < s.len() && s[j] != '{' && s[j] != '}'
        invariant
            i <= j <= s@.len(),
            plain_end(s@, i as int) == plain_end(s@, j as int),
        decreases s@.len() - j,
    {
        j = j + 1;
    }
    j
}

fn scan_braces(s: &Vec<char>, i: usize) -> (e: usize)
    requires
        i <= s@.len(),
    ensures
        e == brace_end(s@, i as int),
        i <= e <= s@.len(),
{
    let mut j = i;
    while j < s.len() && (s[j] == '{' || s[j] == '}')
        invariant
            i <= j <= s@.len(),
            brace_end(s@, i as int) == brace_end(s@, j as int),
        decreases s@.len() - j,
    {
        j = j + 1;
    }
    j
}

fn is_white_space_char(c: char) -> (r: bool)
    ensures
        r == is_white_space(c),
{
    let u = c as u32;
    (0x09 <= u && u <= 0x0D) || u == 0x20 || u == 0x85 || u == 0xA0 || u == 0x1680 || (0x2000
        <= u && u <= 0x200A) || u == 0x2028 || u == 0x2029 || u == 0x202F || u == 0x205F || u
        == 0x3000
}

fn any_white_space(s: &Vec<char>, from: usize, to: usize) -> (r: bool)
    requires
        from <= to <= s@.len(),
    ensures
        r == has_white_space(s@.subrange(from as int, to as int)),
{
    let ghost sub = s@.subrange(from as int, to as int);
    let mut j = from;
    while j < to
        invariant
            from <= j <= to <= s@.len(),
            sub == s@.subrange(from as int, to as int),
            forall|k: int| 0 <= k < j - from ==> !is_white_space(#[trigger] sub[k]),
        decreases to - j,
    {
        if is_white_space_char(s[j]) {
            assert(sub[j - from] == s@[j as int]);
            return true;
        }
        j = j + 1;
    }
    false
}

/// The error message `prefix` followed by the byte offset of the character at
/// index `i`. `byte_len`, the length of the UTF-8 encoding of `s`, is what
/// shows that every such offset fits in a `usize`.
fn failure_text(prefix: &str, s: &Vec<char>, i: usize, byte_len: usize) -> (r: String)
    requires
        i <= s@.len(),
        byte_len == encode_utf8(s@).len(),
    ensures
        r@ == prefix@ + decimal(encode_utf8(s@.take(i as int)).len()),
{
    let pos = byte_offset(s, i);
    let mut m = String::from_str(prefix);
    m.append(usize_to_decimal(pos).as_str());
    m
}

/// Parse a string into a template.
///
/// The text is read as [`parse`] says; where it reads as no template, the
/// error names the failure and the byte offset of the offending tag.
pub fn from_text(input: &str) -> (r: Result<Template, String>)
    ensures
        r is Ok <==> parse(input@) is Ok,
        r matches Ok(t) ==> parse(input@) == Ok::<Seq<SpecToken>, ParseFailure>(t@),
        r matches Err(m) ==> m@ == failure_message(input@, parse(input@)->Err_0),
{
    let cs = chars_of(input);
    // The UTF-8 encoding of the input is a byte slice, so its length, which
    // bounds the byte offsets that the error messages report, fits in a usize.
    let byte_len = input.as_bytes().len();
    let n = cs.len();
    let mut tokens: Vec<Token> = Vec::new();
    let mut i: usize = 0;
    while i < n
        invariant
            i <= n == cs@.len(),
            cs@ == input@,
            byte_len == encode_utf8(cs@).len(),
            parse(cs@) == prepend_all(tokens_view(tokens@), parse_from(cs@, i as int)),
        decreases n - i,
    {
        let c = cs[i];
        if c != '{' && c != '}' {
            let e = scan_plain(&cs, i);
            proof {
                lemma_plain_end(cs@, i + 1);
            }
            let ghost before = tokens_view(tokens@);
            tokens.push(Token::Literal(substring(input, i, e)));
            proof {
                lemma_prepend_all_push(before, SpecToken::Literal(cs@.subrange(i as int, e as int)),
                    parse_from(cs@, e as int));
                assert(tokens_view(tokens@) =~= before.push(SpecToken::Literal(cs@.subrange(i as int, e as int))));
            }
            i = e;
        } else if c == '{' && i + 1 < n && cs[i + 1] == '{' {
            let e = scan_plain(&cs, i + 2);
            if e > i + 2 && e < n && e + 1 < n && cs[e] == '}' && cs[e + 1] == '}' {
                if any_white_space(&cs, i + 2, e) {
                    return Err(failure_text("whitespace in tag at position ", &cs, i, byte_len));
                }
                let ghost before = tokens_view(tokens@);
                tokens.push(Token::Tag(substring(input, i + 2, e)));
                proof {
                    lemma_prepend_all_push(before, SpecToken::Tag(cs@.subrange(i + 2, e as int)),
                        parse_from(cs@, e + 2));
                    assert(tokens_view(tokens@) =~= before.push(SpecToken::Tag(cs@.subrange(i + 2, e as int))));
                }
                i = e + 2;
            } else {
                return Err(failure_text("unclosed tag at position ", &cs, i, byte_len));
            }
        } else {
            let e = scan_braces(&cs, i);
            proof {
                lemma_brace_end(cs@, i as int);
            }
            let ghost before = tokens_view(tokens@);
            tokens.push(Token::Literal(substring(input, i, e)));
            proof {
                lemma_prepend_all_push(before, SpecToken::Literal(cs@.subrange(i as int, e as int)),
                    parse_from(cs@, e as int));
                assert(tokens_view(tokens@) =~= before.push(SpecToken::Literal(cs@.subrange(i as int, e as int))));
            }
            i = e;
        }
    }
    Ok(Template { content: tokens })
}

/// Put a sequence of tokens in front of a parse result.
pub open spec fn prepend_all(ts: Seq<SpecToken>, r: Result<Seq<SpecToken>, ParseFailure>) -> Result<
    Seq<SpecToken>,
    ParseFailure,
> {
    match r {
        Ok(rest) => Ok(ts + rest),
        Err(f) => Err(f),
    }
}

proof fn lemma_prepend_all_push(
    ts: Seq<SpecToken>,
    t: SpecToken,
    r: Result<Seq<SpecToken>, ParseFailure>,
)
    ensures
        prepend_all(ts, prepend(t, r)) == prepend_all(ts.push(t), r),
{
    if let Ok(rest) = r {
        assert(ts + (seq![t] + rest) =~= ts.push(t) + rest);
    }
}

} // verus!
