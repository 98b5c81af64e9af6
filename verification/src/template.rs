use vstd::prelude::*;
use crate::types::{Token, Template, SpecToken, tokens_view, copy_token, same_token};
use crate::variables::{Binding, to_map, borrowed_bindings};
use crate::text::{chars_of, substring};

verus! {

/// The text of a token as it is written in a template: a tag as `{{name}}`,
/// a literal as itself.
pub open spec fn token_text(t: SpecToken) -> Seq<char> {
    match t {
        SpecToken::Tag(name) => "{{"@ + name + "}}"@,
        SpecToken::Literal(text) => text,
    }
}

/// The text of a sequence of tokens, one after the other.
pub open spec fn render(ts: Seq<SpecToken>) -> Seq<char>
    decreases ts.len(),
{
    if ts.len() == 0 {
        Seq::empty()
    } else {
        render(ts.drop_last()) + token_text(ts.last())
    }
}

/// The literal text of a token: a literal's text, nothing for a tag.
pub open spec fn literal_text(t: SpecToken) -> Seq<char> {
    match t {
        SpecToken::Tag(_) => Seq::empty(),
        SpecToken::Literal(text) => text,
    }
}

/// The literals of a sequence of tokens, one after the other.
pub open spec fn render_literals(ts: Seq<SpecToken>) -> Seq<char>
    decreases ts.len(),
{
    if ts.len() == 0 {
        Seq::empty()
    } else {
        render_literals(ts.drop_last()) + literal_text(ts.last())
    }
}

/// Whether every token is a literal.
pub open spec fn all_literals(ts: Seq<SpecToken>) -> bool {
    forall|i: int| 0 <= i < ts.len() ==> (#[trigger] ts[i]) is Literal
}

/// Whether a token is a tag.
pub open spec fn is_tag_token(t: SpecToken) -> bool {
    t is Tag
}

/// The tags of a sequence of tokens, in order.
pub open spec fn tags_in(ts: Seq<SpecToken>) -> Seq<SpecToken> {
    ts.filter(|t: SpecToken| is_tag_token(t))
}

/// Rendering a concatenation renders each part in turn.
pub proof fn lemma_render_concat(a: Seq<SpecToken>, b: Seq<SpecToken>)
    ensures
        render(a + b) == render(a) + render(b),
    decreases b.len(),
{
    if b.len() == 0 {
        assert(a + b =~= a);
        assert(render(a) + render(b) =~= render(a));
    } else {
        lemma_render_concat(a, b.drop_last());
        assert((a + b).drop_last() =~= a + b.drop_last());
        assert((a + b).last() == b.last());
        assert(render(a + b) =~= render(a) + render(b));
    }
}

/// Get the list of tags in the given template.
pub fn tags_of(template: &Template) -> (r: Vec<Token>)
    ensures
        tokens_view(r@) == tags_in(template@),
{
    let mut r: Vec<Token> = Vec::new();
    let n = template.content.len();
    let ghost ts = template@;
    for i in 0..n
        invariant
            n == template.content@.len(),
            ts == template@,
            tokens_view(r@) == tags_in(ts.take(i as int)),
    {
        proof {
            reveal_with_fuel(Seq::<SpecToken>::filter, 1);
            assert(ts.take(i + 1).drop_last() =~= ts.take(i as int));
        }
        let ghost before = tokens_view(r@);
        let token = &template.content[i];
        if let Token::Tag(_) = token {
            r.push(copy_token(token));
            assert(tokens_view(r@) =~= before.push(ts[i as int]));
        } else {
            assert(tokens_view(r@) =~= before);
        }
    }
    proof {
        assert(ts.take(n as int) =~= ts);
    }
    r
}

/// Check if a template has no more tags inside.
///
/// Returns `true` if the template is final (contains only literals).
pub fn is_final(template: &Template) -> (r: bool)
    ensures
        r == all_literals(template@),
{
    let n = template.content.len();
    for i in 0..n
        invariant
            n == template.content@.len(),
            forall|j: int| 0 <= j < i ==> (#[trigger] template@[j]) is Literal,
    {
        if let Token::Tag(_) = &template.content[i] {
            assert(template@[i as int] is Tag);
            return false;
        }
    }
    true
}

/// Output the content of the given template as it is, with its tags.
pub fn to_text(template: &Template) -> (r: String)
    ensures
        r@ == render(template@),
{
    let mut r = String::new();
    let n = template.content.len();
    let ghost ts = template@;
    for i in 0..n
        invariant
            n == template.content@.len(),
            ts == template@,
            r@ == render(ts.take(i as int)),
    {
        proof {
            assert(ts.take(i + 1).drop_last() =~= ts.take(i as int));
            reveal_strlit("{{");
            reveal_strlit("}}");
        }
        match &template.content[i] {
            Token::Literal(text) => {
                r.append(text.as_str());
            },
            Token::Tag(name) => {
                r.append("{{");
                r.append(name.as_str());
                r.append("}}");
            },
        }
        assert(r@ =~= render(ts.take(i + 1)));
    }
    proof {
        assert(ts.take(n as int) =~= ts);
    }
    r
}

/// Output the content of the given template with all its tags removed.
pub fn to_final_text(template: &Template) -> (r: String)
    ensures
        r@ == render_literals(template@),
{
    let mut r = String::new();
    let n = template.content.len();
    let ghost ts = template@;
    for i in 0..n
        invariant
            n == template.content@.len(),
            ts == template@,
            r@ == render_literals(ts.take(i as int)),
    {
        proof {
            assert(ts.take(i + 1).drop_last() =~= ts.take(i as int));
        }
        match &template.content[i] {
            Token::Literal(text) => {
                r.append(text.as_str());
            },
            Token::Tag(_) => {},
        }
        assert(r@ =~= render_literals(ts.take(i + 1)));
    }
    proof {
        assert(ts.take(n as int) =~= ts);
    }
    r
}

/// A token with its tag renamed as `renames` says, where it says anything of it.
pub open spec fn rename(t: SpecToken, renames: Map<Seq<char>, Seq<char>>) -> SpecToken {
    match t {
        SpecToken::Tag(name) => if renames.dom().contains(name) {
            SpecToken::Tag(renames[name])
        } else {
            t
        },
        SpecToken::Literal(_) => t,
    }
}

/// The last binding of `name` is the one that a list of bindings gives it.
pub proof fn lemma_to_map_last(ps: Seq<Binding>, j: int)
    requires
        0 <= j < ps.len(),
        forall|l: int| j < l < ps.len() ==> (#[trigger] ps[l]).0 != ps[j].0,
    ensures
        to_map(ps).dom().contains(ps[j].0),
        to_map(ps)[ps[j].0] == ps[j].1,
    decreases ps.len(),
{
    if j < ps.len() - 1 {
        let q = ps.drop_last();
        assert forall|l: int| j < l < q.len() implies (#[trigger] q[l]).0 != q[j].0 by {
            assert(q[l] == ps[l]);
        }
        lemma_to_map_last(q, j);
        assert(ps[ps.len() - 1].0 != ps[j].0);
        assert(q[j] == ps[j]);
    }
}

/// A name that no binding of a list binds is not in its map.
pub proof fn lemma_to_map_absent(ps: Seq<Binding>, k: Seq<char>)
    requires
        forall|l: int| 0 <= l < ps.len() ==> (#[trigger] ps[l]).0 != k,
    ensures
        !to_map(ps).dom().contains(k),
    decreases ps.len(),
{
    if ps.len() > 0 {
        let q = ps.drop_last();
        assert forall|l: int| 0 <= l < q.len() implies (#[trigger] q[l]).0 != k by {
            assert(q[l] == ps[l]);
        }
        lemma_to_map_absent(q, k);
    }
}

/// The index of the last of `pairs` whose name is `name`, if any.
fn last_binding(pairs: &[(&str, &str)], name: &String) -> (r: Option<usize>)
    ensures
        r matches Some(j) ==> j < pairs@.len() && borrowed_bindings(pairs@)[j as int].0 == name@
            && forall|l: int| j < l < pairs@.len() ==> (#[trigger] borrowed_bindings(pairs@)[l]).0 != name@,
        r is None ==> forall|l: int| 0 <= l < pairs@.len() ==> (#[trigger] borrowed_bindings(pairs@)[l]).0 != name@,
{
    let mut k = pairs.len();
    while k > 0
        invariant
            k <= pairs@.len(),
            forall|l: int| k <= l < pairs@.len() ==> (#[trigger] borrowed_bindings(pairs@)[l]).0 != name@,
        decreases k,
    {
        k = k - 1;
        if String::from_str(pairs[k].0) == *name {
            return Some(k);
        }
    }
    None
}

/// Rename tags in a template based on a list of renames; of two renames of
/// the same name, the later one counts.
pub fn tags_rename(renames: &[(&str, &str)], template: &Template) -> (r: Template)
    ensures
        r@ == template@.map_values(|t: SpecToken| rename(t, to_map(borrowed_bindings(renames@)))),
{
    let ghost m = to_map(borrowed_bindings(renames@));
    let mut content: Vec<Token> = Vec::new();
    let n = template.content.len();
    let ghost ts = template@;
    for i in 0..n
        invariant
            n == template.content@.len() == ts.len(),
            ts == template@,
            m == to_map(borrowed_bindings(renames@)),
            tokens_view(content@) == ts.take(i as int).map_values(|t: SpecToken| rename(t, m)),
    {
        let token = &template.content[i];
        let ghost before = tokens_view(content@);
        let next = match token {
            Token::Tag(name) => match last_binding(renames, name) {
                Some(j) => {
                    proof {
                        lemma_to_map_last(borrowed_bindings(renames@), j as int);
                    }
                    Token::Tag(String::from_str(renames[j].1))
                },
                None => {
                    proof {
                        lemma_to_map_absent(borrowed_bindings(renames@), name@);
                    }
                    copy_token(token)
                },
            },
            Token::Literal(_) => copy_token(token),
        };
        assert(next@ == rename(ts[i as int], m));
        content.push(next);
        assert(tokens_view(content@) =~= before.push(rename(ts[i as int], m)));
        assert(tokens_view(content@) =~= ts.take(i + 1).map_values(|t: SpecToken| rename(t, m)));
    }
    assert(ts.take(n as int) =~= ts);
    Template { content }
}

/// Tokens with each run of adjacent literals merged into one literal.
pub open spec fn merge_literals(ts: Seq<SpecToken>) -> Seq<SpecToken>
    decreases ts.len(),
{
    if ts.len() == 0 {
        Seq::empty()
    } else {
        let done = merge_literals(ts.drop_last());
        let t = ts.last();
        if t is Literal && done.len() > 0 && done.last() is Literal {
            done.drop_last().push(SpecToken::Literal(done.last()->Literal_0 + t->Literal_0))
        } else {
            done.push(t)
        }
    }
}

/// Optimize a template content after (many) partial processing rewrites.
///
/// This function merges adjacent literal tokens.
pub fn compress(template: &Template) -> (r: Template)
    ensures
        r@ == merge_literals(template@),
{
    let mut content: Vec<Token> = Vec::new();
    let n = template.content.len();
    let ghost ts = template@;
    for i in 0..n
        invariant
            n == template.content@.len() == ts.len(),
            ts == template@,
            tokens_view(content@) == merge_literals(ts.take(i as int)),
    {
        let ghost done = tokens_view(content@);
        proof {
            assert(ts.take(i + 1).drop_last() =~= ts.take(i as int));
            assert(ts.take(i + 1).last() == ts[i as int]);
        }
        let token = &template.content[i];
        let last_is_literal = content.len() > 0 && is_literal_token(&content[content.len() - 1]);
        match token {
            Token::Literal(next) => {
                if last_is_literal {
                    let last = content.pop().unwrap();
                    match last {
                        Token::Literal(mut text) => {
                            text.append(next.as_str());
                            content.push(Token::Literal(text));
                        },
                        Token::Tag(_) => {},
                    }
                } else {
                    content.push(copy_token(token));
                }
            },
            Token::Tag(_) => {
                content.push(copy_token(token));
            },
        }
        assert(tokens_view(content@) =~= merge_literals(ts.take(i + 1)));
    }
    assert(ts.take(n as int) =~= ts);
    Template { content }
}

fn is_literal_token(token: &Token) -> (r: bool)
    ensures
        r == (token@ is Literal),
{
    match token {
        Token::Literal(_) => true,
        Token::Tag(_) => false,
    }
}

/// Tokens with each occurrence of `tag` replaced by the tokens `inserted`.
pub open spec fn replace_token(ts: Seq<SpecToken>, tag: SpecToken, inserted: Seq<SpecToken>) -> Seq<
    SpecToken,
>
    decreases ts.len(),
{
    if ts.len() == 0 {
        Seq::empty()
    } else {
        replace_token(ts.drop_last(), tag, inserted) + if ts.last() == tag {
            inserted
        } else {
            seq![ts.last()]
        }
    }
}

/// Insert a template into another template by replacing a tag.
///
/// Returns `Some(Template)` if the tag was found and replaced, or `None` otherwise.
pub fn insert_template(template: &Template, tag: &Token, inserted: &Template) -> (r: Option<Template>)
    ensures
        r is Some <==> (tag@ is Tag && template@.contains(tag@)),
        r matches Some(t) ==> t@ == replace_token(template@, tag@, inserted@),
{
    let n = template.content.len();
    let ghost ts = template@;
    if let Token::Literal(_) = tag {
        return None;
    }
    if !contains_token(&template.content, tag) {
        return None;
    }
    let mut content: Vec<Token> = Vec::new();
    for i in 0..n
        invariant
            n == template.content@.len() == ts.len(),
            ts == template@,
            tokens_view(content@) == replace_token(ts.take(i as int), tag@, inserted@),
    {
        proof {
            assert(ts.take(i + 1).drop_last() =~= ts.take(i as int));
            assert(ts.take(i + 1).last() == ts[i as int]);
        }
        let ghost before = tokens_view(content@);
        let token = &template.content[i];
        if same_token(token, tag) {
            append_tokens(&mut content, &inserted.content);
        } else {
            content.push(copy_token(token));
        }
        assert(tokens_view(content@) =~= replace_token(ts.take(i + 1), tag@, inserted@));
    }
    assert(ts.take(n as int) =~= ts);
    Some(Template { content })
}

/// Whether one of `tokens` equals `tag`.
fn contains_token(tokens: &Vec<Token>, tag: &Token) -> (r: bool)
    ensures
        r == tokens_view(tokens@).contains(tag@),
{
    let n = tokens.len();
    for i in 0..n
        invariant
            n == tokens@.len(),
            forall|j: int| 0 <= j < i ==> tokens_view(tokens@)[j] != tag@,
    {
        if same_token(&tokens[i], tag) {
            assert(tokens_view(tokens@)[i as int] == tag@);
            return true;
        }
    }
    false
}

/// Push copies of `tokens` at the end of `content`.
fn append_tokens(content: &mut Vec<Token>, tokens: &Vec<Token>)
    ensures
        tokens_view(final(content)@) == tokens_view(old(content)@) + tokens_view(tokens@),
{
    let n = tokens.len();
    let ghost start = tokens_view(content@);
    for i in 0..n
        invariant
            n == tokens@.len(),
            tokens_view(content@) == start + tokens_view(tokens@).take(i as int),
    {
        let ghost before = tokens_view(content@);
        content.push(copy_token(&tokens[i]));
        assert(tokens_view(content@) =~= before.push(tokens_view(tokens@)[i as int]));
        assert(tokens_view(content@) =~= start + tokens_view(tokens@).take(i + 1));
    }
    assert(tokens_view(tokens@).take(n as int) =~= tokens_view(tokens@));
}

/// Whether the tokens of `needle` occur in `hay` in the same order, not
/// necessarily next to each other.
pub open spec fn is_subsequence_of(needle: Seq<SpecToken>, hay: Seq<SpecToken>) -> bool
    decreases hay.len(),
{
    if needle.len() == 0 {
        true
    } else if hay.len() == 0 {
        false
    } else if needle[0] == hay[0] {
        is_subsequence_of(needle.drop_first(), hay.drop_first())
    } else {
        is_subsequence_of(needle, hay.drop_first())
    }
}

/// The views of a sequence of token references.
pub open spec fn token_refs_view(ts: Seq<&Token>) -> Seq<SpecToken> {
    ts.map_values(|t: &Token| t@)
}

fn is_subsequence(needle: &[&Token], haystack: &[Token]) -> (r: bool)
    ensures
        r == is_subsequence_of(token_refs_view(needle@), tokens_view(haystack@)),
{
    let ghost ns = token_refs_view(needle@);
    let ghost hs = tokens_view(haystack@);
    let nn = needle.len();
    let hn = haystack.len();
    let mut j: usize = 0;
    proof {
        assert(ns.skip(0) =~= ns);
        assert(hs.skip(0) =~= hs);
    }
    for i in 0..nn
        invariant
            nn == needle@.len() == ns.len(),
            hn == haystack@.len() == hs.len(),
            ns == token_refs_view(needle@),
            hs == tokens_view(haystack@),
            j <= hn,
            is_subsequence_of(ns, hs) == is_subsequence_of(ns.skip(i as int), hs.skip(j as int)),
    {
        while j < hn && !same_token(needle[i], &haystack[j])
            invariant
                i < nn == ns.len(),
                hn == hs.len(),
                ns == token_refs_view(needle@),
                hs == tokens_view(haystack@),
                j <= hn,
                is_subsequence_of(ns, hs) == is_subsequence_of(ns.skip(i as int), hs.skip(j as int)),
            decreases hn - j,
        {
            proof {
                assert(ns.skip(i as int)[0] == ns[i as int]);
                assert(hs.skip(j as int)[0] == hs[j as int]);
                assert(hs.skip(j as int).drop_first() =~= hs.skip(j + 1));
            }
            j = j + 1;
        }
        if j == hn {
            proof {
                assert(hs.skip(j as int).len() == 0);
            }
            return false;
        }
        proof {
            assert(ns.skip(i as int)[0] == ns[i as int]);
            assert(hs.skip(j as int)[0] == hs[j as int]);
            assert(hs.skip(j as int).drop_first() =~= hs.skip(j + 1));
            assert(ns.skip(i as int).drop_first() =~= ns.skip(i + 1));
        }
        j = j + 1;
    }
    proof {
        assert(ns.skip(nn as int).len() == 0);
    }
    true
}

/// The views of the pairs of [`insert_many_templates`]: a tag and the tokens
/// that replace it.
pub open spec fn insertions_view(ps: Seq<(&Token, &Template)>) -> Seq<(SpecToken, Seq<SpecToken>)> {
    ps.map_values(|p: (&Token, &Template)| (p.0@, p.1@))
}

/// The tokens that the last of `ps` whose tag is `t` inserts, if any.
pub open spec fn last_insertion(ps: Seq<(SpecToken, Seq<SpecToken>)>, t: SpecToken) -> Option<
    Seq<SpecToken>,
>
    decreases ps.len(),
{
    if ps.len() == 0 {
        None
    } else if ps.last().0 == t {
        Some(ps.last().1)
    } else {
        last_insertion(ps.drop_last(), t)
    }
}

/// Tokens with each token that one of `ps` names replaced by what the last
/// such pair inserts.
pub open spec fn insert_all(ts: Seq<SpecToken>, ps: Seq<(SpecToken, Seq<SpecToken>)>) -> Seq<
    SpecToken,
>
    decreases ts.len(),
{
    if ts.len() == 0 {
        Seq::empty()
    } else {
        insert_all(ts.drop_last(), ps) + match last_insertion(ps, ts.last()) {
            Some(inserted) => inserted,
            None => seq![ts.last()],
        }
    }
}

/// The index of the last of `pairs` whose tag is `token`, if any.
fn find_insertion(pairs: &[(&Token, &Template)], token: &Token) -> (r: Option<usize>)
    ensures
        r matches Some(k) ==> k < pairs@.len() && last_insertion(insertions_view(pairs@), token@)
            == Some(pairs@[k as int].1@),
        r is None ==> last_insertion(insertions_view(pairs@), token@) is None,
{
    let ghost ps = insertions_view(pairs@);
    let mut k = pairs.len();
    proof {
        assert(ps.take(k as int) =~= ps);
    }
    while k > 0
        invariant
            k <= pairs@.len() == ps.len(),
            ps == insertions_view(pairs@),
            last_insertion(ps, token@) == last_insertion(ps.take(k as int), token@),
        decreases k,
    {
        proof {
            assert(ps.take(k as int).drop_last() =~= ps.take(k - 1));
            assert(ps.take(k as int).last() == ps[k - 1]);
        }
        k = k - 1;
        if same_token(pairs[k].0, token) {
            return Some(k);
        }
    }
    None
}

/// Insert many templates into a template by replacing tags.
///
/// Returns `Some(Template)` if all tags were found and replaced in the exact
/// given order, or `None` otherwise. Where a tag is given twice, the last
/// pair with it says what replaces it.
pub fn insert_many_templates(template: &Template, pairs: &[(&Token, &Template)]) -> (r: Option<
    Template,
>)
    ensures
        r is Some <==> is_subsequence_of(
            insertions_view(pairs@).map_values(|p: (SpecToken, Seq<SpecToken>)| p.0),
            tags_in(template@),
        ),
        r matches Some(t) ==> t@ == insert_all(template@, insertions_view(pairs@)),
{
    let ghost ps = insertions_view(pairs@);
    let m = pairs.len();
    let mut tag_names: Vec<&Token> = Vec::new();
    for k in 0..m
        invariant
            m == pairs@.len() == ps.len(),
            ps == insertions_view(pairs@),
            tag_names@.len() == k,
            token_refs_view(tag_names@) == ps.map_values(|p: (SpecToken, Seq<SpecToken>)| p.0).take(
                k as int,
            ),
    {
        tag_names.push(pairs[k].0);
        assert(token_refs_view(tag_names@) =~= ps.map_values(
            |p: (SpecToken, Seq<SpecToken>)| p.0,
        ).take(k + 1));
    }
    proof {
        assert(ps.map_values(|p: (SpecToken, Seq<SpecToken>)| p.0).take(m as int) =~= ps.map_values(
            |p: (SpecToken, Seq<SpecToken>)| p.0,
        ));
    }
    let tags = tags_of(template);
    if !is_subsequence(tag_names.as_slice(), tags.as_slice()) {
        return None;
    }
    let mut content: Vec<Token> = Vec::new();
    let n = template.content.len();
    let ghost ts = template@;
    for i in 0..n
        invariant
            n == template.content@.len() == ts.len(),
            ts == template@,
            ps == insertions_view(pairs@),
            tokens_view(content@) == insert_all(ts.take(i as int), ps),
    {
        proof {
            assert(ts.take(i + 1).drop_last() =~= ts.take(i as int));
            assert(ts.take(i + 1).last() == ts[i as int]);
        }
        let token = &template.content[i];
        match find_insertion(pairs, token) {
            Some(k) => {
                append_tokens(&mut content, &pairs[k].1.content);
            },
            None => {
                let ghost before = tokens_view(content@);
                content.push(copy_token(token));
                assert(tokens_view(content@) =~= before.push(token@));
            },
        }
        assert(tokens_view(content@) =~= insert_all(ts.take(i + 1), ps));
    }
    assert(ts.take(n as int) =~= ts);
    Some(Template { content })
}

/// Whether `p` occurs in `s` at index `j`.
pub open spec fn occurs_at(s: Seq<char>, p: Seq<char>, j: int) -> bool {
    0 <= j && j + p.len() <= s.len() && s.subrange(j, j + p.len()) == p
}

/// The first index at or after `j` where the non-empty `p` occurs in `s`.
pub open spec fn find_from(s: Seq<char>, p: Seq<char>, j: int) -> Option<int>
    decreases s.len() - j,
{
    if p.len() == 0 || j < 0 || j + p.len() > s.len() {
        None
    } else if occurs_at(s, p, j) {
        Some(j)
    } else {
        find_from(s, p, j + 1)
    }
}

/// Where `find_from` finds `p`, it occurs, and not before.
pub proof fn lemma_find_from(s: Seq<char>, p: Seq<char>, j: int)
    requires
        0 <= j,
    ensures
        find_from(s, p, j) matches Some(k) ==> j <= k && k + p.len() <= s.len() && occurs_at(s, p, k)
            && forall|l: int| j <= l < k ==> !occurs_at(s, p, l),
        find_from(s, p, j) is None ==> p.len() == 0 || forall|l: int|
            j <= l ==> !occurs_at(s, p, l),
    decreases s.len() - j,
{
    if p.len() != 0 && j + p.len() <= s.len() && !occurs_at(s, p, j) {
        lemma_find_from(s, p, j + 1);
    }
}

/// A literal holding `text`, or nothing where `text` is empty.
pub open spec fn literal_unless_empty(text: Seq<char>) -> Seq<SpecToken> {
    if text.len() == 0 {
        Seq::empty()
    } else {
        seq![SpecToken::Literal(text)]
    }
}

/// The pieces of `s` from `start` on, split at each occurrence of the
/// non-empty `p`, with a tag named `name` in place of each occurrence and
/// without empty literals.
pub open spec fn pieces_from(s: Seq<char>, p: Seq<char>, name: Seq<char>, start: int) -> Seq<
    SpecToken,
>
    decreases s.len() - start,
    via pieces_from_decreases
{
    if p.len() == 0 || start < 0 || start > s.len() {
        Seq::empty()
    } else {
        match find_from(s, p, start) {
            None => literal_unless_empty(s.subrange(start, s.len() as int)),
            Some(j) => literal_unless_empty(s.subrange(start, j)) + seq![SpecToken::Tag(name)]
                + pieces_from(s, p, name, j + p.len()),
        }
    }
}

#[via_fn]
proof fn pieces_from_decreases(s: Seq<char>, p: Seq<char>, name: Seq<char>, start: int) {
    if start >= 0 {
        lemma_find_from(s, p, start);
    }
}

/// A tag named `name` before, between and after the characters of `s`, each
/// character a literal of its own: what splitting at the empty string gives.
pub open spec fn around_chars(s: Seq<char>, name: Seq<char>) -> Seq<SpecToken>
    decreases s.len(),
{
    if s.len() == 0 {
        seq![SpecToken::Tag(name)]
    } else {
        around_chars(s.drop_last(), name) + seq![
            SpecToken::Literal(seq![s.last()]),
            SpecToken::Tag(name),
        ]
    }
}

/// The tokens that a token becomes when each occurrence of `r` in a literal
/// is replaced by a tag named `name`.
pub open spec fn split_token(t: SpecToken, r: Seq<char>, name: Seq<char>) -> Seq<SpecToken> {
    match t {
        SpecToken::Tag(_) => seq![t],
        SpecToken::Literal(text) => if r.len() == 0 {
            around_chars(text, name)
        } else {
            pieces_from(text, r, name, 0)
        },
    }
}

/// The tokens that a sequence of tokens becomes when each occurrence of `r`
/// in a literal is replaced by a tag named `name`.
pub open spec fn split_all(ts: Seq<SpecToken>, r: Seq<char>, name: Seq<char>) -> Seq<SpecToken>
    decreases ts.len(),
{
    if ts.len() == 0 {
        Seq::empty()
    } else {
        split_all(ts.drop_last(), r, name) + split_token(ts.last(), r, name)
    }
}

/// Whether the non-empty `p` occurs in `s` at `i`.
fn occurs_here(s: &Vec<char>, p: &Vec<char>, i: usize) -> (r: bool)
    requires
        i + p@.len() <= s@.len(),
    ensures
        r == occurs_at(s@, p@, i as int),
{
    let m = p.len();
    let sn = s.len();
    for k in 0..m
        invariant
            m == p@.len(),
            sn == s@.len(),
            i + m <= sn,
            forall|l: int| 0 <= l < k ==> s@[i + l] == p@[l],
    {
        if s[i + k] != p[k] {
            assert(s@.subrange(i as int, i + m)[k as int] != p@[k as int]);
            return false;
        }
    }
    assert(s@.subrange(i as int, i + m) =~= p@);
    true
}

/// The tokens that a token becomes when each occurrence of `replacement` in
/// a literal is replaced by a tag named `name`.
fn insert_tag(token: &Token, replacement: &str, pattern: &Vec<char>, name: &str) -> (r: Vec<Token>)
    requires
        pattern@ == replacement@,
    ensures
        tokens_view(r@) == split_token(token@, replacement@, name@),
{
    match token {
        Token::Tag(_) => {
            let mut r = Vec::new();
            r.push(copy_token(token));
            assert(tokens_view(r@) =~= seq![token@]);
            r
        },
        Token::Literal(text) => {
            let s = chars_of(text.as_str());
            let n = s.len();
            let m = pattern.len();
            let mut r: Vec<Token> = Vec::new();
            if m == 0 {
                r.push(Token::Tag(String::from_str(name)));
                proof {
                    assert(s@.take(0) =~= Seq::<char>::empty());
                    assert(tokens_view(r@) =~= around_chars(s@.take(0), name@));
                }
                for k in 0..n
                    invariant
                        n == s@.len(),
                        s@ == text@,
                        tokens_view(r@) == around_chars(s@.take(k as int), name@),
                {
                    let ghost before = tokens_view(r@);
                    r.push(Token::Literal(substring(text.as_str(), k, k + 1)));
                    r.push(Token::Tag(String::from_str(name)));
                    proof {
                        assert(s@.take(k + 1).drop_last() =~= s@.take(k as int));
                        assert(s@.take(k + 1).last() == s@[k as int]);
                        assert(s@.subrange(k as int, k + 1) =~= seq![s@[k as int]]);
                        assert(tokens_view(r@) =~= around_chars(s@.take(k + 1), name@));
                    }
                }
                assert(s@.take(n as int) =~= s@);
                return r;
            }
            let ghost p = pattern@;
            let ghost full = pieces_from(s@, p, name@, 0);
            let mut start: usize = 0;
            let mut i: usize = 0;
            proof {
                assert(tokens_view(r@) + full =~= full);
            }
            while m <= n && i <= n - m
                invariant
                    n == s@.len(),
                    s@ == text@,
                    m == p.len() >= 1,
                    p == pattern@,
                    full == pieces_from(s@, p, name@, 0),
                    start <= i <= n,
                    find_from(s@, p, start as int) == find_from(s@, p, i as int),
                    tokens_view(r@) + pieces_from(s@, p, name@, start as int) == full,
                decreases n - i,
            {
                if occurs_here(&s, pattern, i) {
                    let ghost before = tokens_view(r@);
                    let ghost rest = pieces_from(s@, p, name@, (i + m) as int);
                    assert(pieces_from(s@, p, name@, start as int) == literal_unless_empty(
                        s@.subrange(start as int, i as int),
                    ) + seq![SpecToken::Tag(name@)] + rest);
                    if i > start {
                        r.push(Token::Literal(substring(text.as_str(), start, i)));
                    }
                    let ghost mid = tokens_view(r@);
                    assert(mid =~= before + literal_unless_empty(s@.subrange(start as int, i as int)));
                    r.push(Token::Tag(String::from_str(name)));
                    assert(tokens_view(r@) =~= mid.push(SpecToken::Tag(name@)));
                    assert(tokens_view(r@) + rest =~= before + (literal_unless_empty(
                        s@.subrange(start as int, i as int),
                    ) + seq![SpecToken::Tag(name@)] + rest));
                    i = i + m;
                    start = i;
                } else {
                    i = i + 1;
                }
            }
            proof {
                lemma_find_from(s@, p, i as int);
                assert(find_from(s@, p, i as int) is None);
                assert(pieces_from(s@, p, name@, start as int) == literal_unless_empty(
                    s@.subrange(start as int, n as int),
                ));
            }
            let ghost before = tokens_view(r@);
            if start < n {
                r.push(Token::Literal(substring(text.as_str(), start, n)));
            }
            assert(tokens_view(r@) =~= before + literal_unless_empty(s@.subrange(start as int, n as int)));
            r
        },
    }
}

/// Add a new tag to a template by replacing a literal string.
///
/// Each occurrence of `replacement` in a literal becomes a tag named
/// `new_tag_name`. Returns `Some(Template)` if that gives more tokens than
/// the template had, or `None` otherwise.
pub fn add_tag(template: &Template, replacement: &str, new_tag_name: &str) -> (r: Option<Template>)
    ensures
        r is Some <==> split_all(template@, replacement@, new_tag_name@).len() > template@.len(),
        r matches Some(t) ==> t@ == split_all(template@, replacement@, new_tag_name@),
{
    let pattern = chars_of(replacement);
    let mut content: Vec<Token> = Vec::new();
    let n = template.content.len();
    let ghost ts = template@;
    for i in 0..n
        invariant
            n == template.content@.len() == ts.len(),
            ts == template@,
            pattern@ == replacement@,
            tokens_view(content@) == split_all(ts.take(i as int), replacement@, new_tag_name@),
    {
        proof {
            assert(ts.take(i + 1).drop_last() =~= ts.take(i as int));
            assert(ts.take(i + 1).last() == ts[i as int]);
        }
        let ghost before = tokens_view(content@);
        let mut pieces = insert_tag(&template.content[i], replacement, &pattern, new_tag_name);
        let ghost added = tokens_view(pieces@);
        content.append(&mut pieces);
        assert(tokens_view(content@) =~= before + added);
        assert(tokens_view(content@) =~= split_all(ts.take(i + 1), replacement@, new_tag_name@));
    }
    assert(ts.take(n as int) =~= ts);
    if content.len() > template.content.len() {
        Some(Template { content })
    } else {
        None
    }
}

impl Token {
    /// The token as it is written in a template: a tag as `{{name}}`, a
    /// literal as itself.
    pub fn to_string(&self) -> (r: String)
        ensures
            r@ == token_text(self@),
    {
        proof {
            reveal_strlit("{{");
            reveal_strlit("}}");
        }
        match self {
            Token::Tag(name) => {
                let mut r = String::from_str("{{");
                r.append(name.as_str());
                r.append("}}");
                r
            },
            Token::Literal(text) => text.clone(),
        }
    }
}

impl Template {
    /// The template as it is written, with its tags.
    pub fn to_string(&self) -> (r: String)
        ensures
            r@ == render(self@),
    {
        to_text(self)
    }
}

} // verus!
