use vstd::prelude::*;
use crate::types::{Context, Template, Token, SpecToken, ProcessResult, tokens_view, copy_token};
use crate::context::{from_tags_list, blank, tag_names, str_views, string_views};

verus! {

/// The text that a token becomes when processed with `ctx`: a literal's text;
/// for a tag, the value of its name in `ctx`, or `default` where it has none.
pub open spec fn fill(t: SpecToken, ctx: Map<Seq<char>, Seq<char>>, default: Seq<char>) -> Seq<
    char,
> {
    match t {
        SpecToken::Literal(text) => text,
        SpecToken::Tag(name) => if ctx.dom().contains(name) {
            ctx[name]
        } else {
            default
        },
    }
}

/// The text of a sequence of tokens processed with `ctx`.
pub open spec fn render_with(
    ts: Seq<SpecToken>,
    ctx: Map<Seq<char>, Seq<char>>,
    default: Seq<char>,
) -> Seq<char>
    decreases ts.len(),
{
    if ts.len() == 0 {
        Seq::empty()
    } else {
        render_with(ts.drop_last(), ctx, default) + fill(ts.last(), ctx, default)
    }
}

/// A token with its tag replaced by a literal holding the tag's value, where
/// `ctx` has one.
pub open spec fn substitute(t: SpecToken, ctx: Map<Seq<char>, Seq<char>>) -> SpecToken {
    match t {
        SpecToken::Tag(name) => if ctx.dom().contains(name) {
            SpecToken::Literal(ctx[name])
        } else {
            t
        },
        SpecToken::Literal(_) => t,
    }
}

/// Tokens with each tag that `ctx` has a value for replaced by that value.
pub open spec fn substitute_all(ts: Seq<SpecToken>, ctx: Map<Seq<char>, Seq<char>>) -> Seq<
    SpecToken,
> {
    ts.map_values(|t: SpecToken| substitute(t, ctx))
}

/// The text of tokens processed with the variables of a context, `default`
/// standing for each tag that the context has no variable for.
fn to_text_with_context(default: &str, context: &Context, tokens: &[Token]) -> (r: String)
    ensures
        r@ == render_with(tokens_view(tokens@), context@, default@),
{
    let mut r = String::new();
    let n = tokens.len();
    let ghost ts = tokens_view(tokens@);
    for i in 0..n
        invariant
            n == tokens@.len() == ts.len(),
            ts == tokens_view(tokens@),
            r@ == render_with(ts.take(i as int), context@, default@),
    {
        proof {
            assert(ts.take(i + 1).drop_last() =~= ts.take(i as int));
        }
        match &tokens[i] {
            Token::Literal(text) => {
                r.append(text.as_str());
            },
            Token::Tag(name) => {
                match context.variables.get(name.as_str()) {
                    Some(value) => {
                        r.append(value.as_str());
                    },
                    None => {
                        r.append(default);
                    },
                }
            },
        }
        assert(r@ =~= render_with(ts.take(i + 1), context@, default@));
    }
    proof {
        assert(ts.take(n as int) =~= ts);
    }
    r
}

/// Process a template with a context, replacing missing tags with a default value.
pub fn process_with_default(default: &str, template: &Template, context: &Context) -> (r: String)
    ensures
        r@ == render_with(template@, context@, default@),
{
    to_text_with_context(default, context, template.content.as_slice())
}

/// Process a template with a context, discarding tags not present in the context.
pub fn process(template: &Template, context: &Context) -> (r: String)
    ensures
        r@ == render_with(template@, context@, Seq::empty()),
{
    proof {
        reveal_strlit("");
        assert(""@ =~= Seq::<char>::empty());
    }
    process_with_default("", template, context)
}

/// Process a (sub)context present in the given template, leaving other tags untouched.
///
/// Returns a new template with the processed tags replaced by their values.
pub fn partial_process(template: &Template, context: &Context) -> (r: Template)
    ensures
        r@ == substitute_all(template@, context@),
{
    let mut content: Vec<Token> = Vec::new();
    let n = template.content.len();
    let ghost ts = template@;
    for i in 0..n
        invariant
            n == template.content@.len() == ts.len(),
            ts == template@,
            tokens_view(content@) == substitute_all(ts.take(i as int), context@),
    {
        let token = &template.content[i];
        let ghost before = tokens_view(content@);
        let next = match token {
            Token::Tag(name) => match context.variables.get(name.as_str()) {
                Some(value) => Token::Literal(value.clone()),
                None => copy_token(token),
            },
            Token::Literal(_) => copy_token(token),
        };
        assert(next@ == substitute(ts[i as int], context@));
        content.push(next);
        assert(tokens_view(content@) =~= before.push(substitute(ts[i as int], context@)));
        assert(ts.take(i + 1) =~= ts.take(i as int).push(ts[i as int]));
        assert(tokens_view(content@) =~= substitute_all(ts.take(i + 1), context@));
    }
    assert(ts.take(n as int) =~= ts);
    Template { content }
}

/// The names of the tags among `ts` that `ctx` has no value for.
pub open spec fn missing_names(ts: Seq<SpecToken>, ctx: Map<Seq<char>, Seq<char>>) -> Set<
    Seq<char>,
> {
    tag_names(ts).difference(ctx.dom())
}

/// Processing the tags that a context has values for and then the others
/// with the same default gives what processing at once gives.
pub proof fn lemma_render_with_substitute(
    ts: Seq<SpecToken>,
    ctx: Map<Seq<char>, Seq<char>>,
    default: Seq<char>,
)
    ensures
        render_with(substitute_all(ts, ctx), ctx, default) == render_with(ts, ctx, default),
    decreases ts.len(),
{
    if ts.len() > 0 {
        lemma_render_with_substitute(ts.drop_last(), ctx, default);
        assert(substitute_all(ts, ctx).drop_last() =~= substitute_all(ts.drop_last(), ctx));
    }
}

/// Process a (sub)context present in the given template, returning either a
/// final string or a new template with its unset context.
///
/// The result is final exactly when the context has a value for every tag;
/// its text is then that of [`process`]. Otherwise it holds the template of
/// [`partial_process`] and a context that binds the names of the remaining
/// tags to the empty value.
pub fn partial_process_result(template: &Template, context: &Context) -> (r: ProcessResult)
    ensures
        r is Final <==> missing_names(template@, context@) == Set::<Seq<char>>::empty(),
        r matches ProcessResult::Final(text) ==> text@ == render_with(
            template@,
            context@,
            Seq::empty(),
        ),
        r matches ProcessResult::Partial { template: t, context: c } ==> t@ == substitute_all(
            template@,
            context@,
        ) && c@ == blank(missing_names(template@, context@)),
{
    let mut processed: Vec<Token> = Vec::new();
    let mut tags: Vec<String> = Vec::new();
    let n = template.content.len();
    let ghost ts = template@;
    proof {
        assert(string_views(tags@).to_set() =~= missing_names(ts.take(0), context@));
    }
    for i in 0..n
        invariant
            n == template.content@.len() == ts.len(),
            ts == template@,
            tokens_view(processed@) == substitute_all(ts.take(i as int), context@),
            string_views(tags@).to_set() == missing_names(ts.take(i as int), context@),
    {
        let token = &template.content[i];
        let ghost before = tokens_view(processed@);
        let ghost prev = ts.take(i as int);
        let ghost next = ts.take(i + 1);
        proof {
            assert(next =~= prev.push(ts[i as int]));
        }
        match token {
            Token::Tag(name) => match context.variables.get(name.as_str()) {
                Some(value) => {
                    processed.push(Token::Literal(value.clone()));
                    proof {
                        lemma_missing_names_push(prev, ts[i as int], context@);
                    }
                },
                None => {
                    processed.push(copy_token(token));
                    let ghost before = tags@;
                    tags.push(name.clone());
                    proof {
                        assert(string_views(tags@) =~= string_views(before).push(name@));
                        string_views(before).lemma_push_to_set_commute(name@);
                        lemma_missing_names_push(prev, ts[i as int], context@);
                    }
                },
            },
            Token::Literal(_) => {
                processed.push(copy_token(token));
                proof {
                    lemma_missing_names_push(prev, ts[i as int], context@);
                }
            },
        }
        assert(tokens_view(processed@) =~= before.push(substitute(ts[i as int], context@)));
        assert(tokens_view(processed@) =~= substitute_all(ts.take(i + 1), context@));
    }
    proof {
        assert(ts.take(n as int) =~= ts);
    }
    if tags.len() == 0 {
        proof {
            assert(string_views(tags@) =~= Seq::<Seq<char>>::empty());
            assert(string_views(tags@).to_set() =~= Set::<Seq<char>>::empty());
            lemma_render_with_substitute(ts, context@, Seq::empty());
            reveal_strlit("");
            assert(""@ =~= Seq::<char>::empty());
        }
        let text = to_text_with_context("", context, processed.as_slice());
        ProcessResult::Final(text)
    } else {
        let mut names: Vec<&str> = Vec::new();
        let m = tags.len();
        for j in 0..m
            invariant
                m == tags@.len(),
                names@.len() == j,
                str_views(names@) == string_views(tags@).take(j as int),
        {
            names.push(tags[j].as_str());
            assert(str_views(names@) =~= string_views(tags@).take(j + 1));
        }
        proof {
            assert(string_views(tags@).take(m as int) =~= string_views(tags@));
            assert(string_views(tags@).to_set().contains(string_views(tags@)[0]));
        }
        let unset = from_tags_list(names.as_slice());
        ProcessResult::Partial { template: Template { content: processed }, context: unset }
    }
}

proof fn lemma_missing_names_push(
    prev: Seq<SpecToken>,
    t: SpecToken,
    ctx: Map<Seq<char>, Seq<char>>,
)
    ensures
        missing_names(prev.push(t), ctx) == (match t {
            SpecToken::Tag(name) => if ctx.dom().contains(name) {
                missing_names(prev, ctx)
            } else {
                missing_names(prev, ctx).insert(name)
            },
            SpecToken::Literal(_) => missing_names(prev, ctx),
        }),
{
    let next = prev.push(t);
    assert forall|k: Seq<char>| #[trigger] tag_names(next).contains(k) <==> (tag_names(prev).contains(k)
        || t == SpecToken::Tag(k)) by {
        if tag_names(next).contains(k) {
            let j = choose|j: int| 0 <= j < next.len() && next[j] == SpecToken::Tag(k);
            if j < prev.len() {
                assert(prev[j] == next[j]);
            }
        }
        if tag_names(prev).contains(k) {
            let j = choose|j: int| 0 <= j < prev.len() && prev[j] == SpecToken::Tag(k);
            assert(next[j] == prev[j]);
        }
        if t == SpecToken::Tag(k) {
            assert(next[prev.len() as int] == t);
        }
    }
    match t {
        SpecToken::Tag(name) => {
            if ctx.dom().contains(name) {
                assert(missing_names(next, ctx) =~= missing_names(prev, ctx));
            } else {
                assert(missing_names(next, ctx) =~= missing_names(prev, ctx).insert(name));
            }
        },
        SpecToken::Literal(_) => {
            assert(missing_names(next, ctx) =~= missing_names(prev, ctx));
        },
    }
}

} // verus!
