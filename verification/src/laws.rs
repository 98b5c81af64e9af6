//! Properties that relate the operations of the library to one another.
use vstd::prelude::*;
use crate::types::SpecToken;
use crate::parser::{
    has_white_space,
    parse, parse_from, prepend, is_brace, opens_tag, tag_closed, plain_end, brace_end,
    lemma_plain_end, lemma_brace_end, ParseFailure, prepend_all,
};
use crate::template::{
    render, token_text, lemma_render_concat, render_literals, literal_text, all_literals, tags_in,
    is_tag_token, merge_literals, replace_token, insert_all, last_insertion, is_subsequence_of,
    split_all, split_token, pieces_from, around_chars, find_from, lemma_find_from, occurs_at,
    literal_unless_empty, rename,
};
use crate::process::{render_with, fill, substitute, substitute_all, missing_names};
use crate::context::{tag_names, unset_names};
use crate::variables::{to_map, Binding, lemma_to_map_dom};
use crate::template::lemma_to_map_last;
use crate::context::blank;
use crate::text::{decimal, digit_char};

verus! {

proof fn lemma_render_prepend(t: SpecToken, ts: Seq<SpecToken>)
    ensures
        render(seq![t] + ts) == token_text(t) + render(ts),
{
    lemma_render_concat(seq![t], ts);
    assert(seq![t].drop_last() =~= Seq::<SpecToken>::empty());
    assert(seq![t].last() == t);
    assert(render(Seq::<SpecToken>::empty()) =~= Seq::<char>::empty());
    assert(render(seq![t]) =~= render(Seq::<SpecToken>::empty()) + token_text(t));
}

proof fn lemma_parse_from_renders(s: Seq<char>, i: int)
    requires
        0 <= i <= s.len(),
    ensures
        parse_from(s, i) matches Ok(ts) ==> render(ts) == s.subrange(i, s.len() as int),
    decreases s.len() - i,
{
    if i < s.len() {
        lemma_plain_end(s, i);
        lemma_brace_end(s, i);
        if !is_brace(s[i]) {
            let e = plain_end(s, i);
            lemma_plain_end(s, i + 1);
            lemma_parse_from_renders(s, e);
            if let Ok(rest) = parse_from(s, e) {
                lemma_render_prepend(SpecToken::Literal(s.subrange(i, e)), rest);
                assert(s.subrange(i, e) + s.subrange(e, s.len() as int) =~= s.subrange(
                    i,
                    s.len() as int,
                ));
            }
        } else if opens_tag(s, i) {
            let e = plain_end(s, i + 2);
            lemma_plain_end(s, i + 2);
            if tag_closed(s, i) {
                let name = s.subrange(i + 2, e);
                lemma_parse_from_renders(s, e + 2);
                if let Ok(rest) = parse_from(s, e + 2) {
                    lemma_render_prepend(SpecToken::Tag(name), rest);
                    reveal_strlit("{{");
                    reveal_strlit("}}");
                    assert("{{"@ + name + "}}"@ + s.subrange(e + 2, s.len() as int) =~= s.subrange(
                        i,
                        s.len() as int,
                    ));
                }
            }
        } else {
            let e = brace_end(s, i);
            lemma_brace_end(s, i + 1);
            lemma_parse_from_renders(s, e);
            if let Ok(rest) = parse_from(s, e) {
                lemma_render_prepend(SpecToken::Literal(s.subrange(i, e)), rest);
                assert(s.subrange(i, e) + s.subrange(e, s.len() as int) =~= s.subrange(
                    i,
                    s.len() as int,
                ));
            }
        }
    } else {
        assert(s.subrange(i, s.len() as int) =~= Seq::<char>::empty());
    }
}

/// Reading a text as a template and writing the template back as text gives
/// the text again: `to_text(from_text(s)?) == s`.
pub proof fn law_parse_then_render(s: Seq<char>, ts: Seq<SpecToken>)
    requires
        parse(s) == Ok::<Seq<SpecToken>, ParseFailure>(ts),
    ensures
        render(ts) == s,
{
    lemma_parse_from_renders(s, 0);
    assert(s.subrange(0, s.len() as int) =~= s);
}

/// A template that was read from text reads back as itself from its own text:
/// `from_text(to_text(t)) == Ok(t)` for every `t` that `from_text` returns.
pub proof fn law_render_then_parse(s: Seq<char>, ts: Seq<SpecToken>)
    requires
        parse(s) == Ok::<Seq<SpecToken>, ParseFailure>(ts),
    ensures
        parse(render(ts)) == Ok::<Seq<SpecToken>, ParseFailure>(ts),
{
    law_parse_then_render(s, ts);
}

/// Rendering the tokens of a concatenation with a context renders each part in turn.
pub proof fn lemma_render_with_concat(
    a: Seq<SpecToken>,
    b: Seq<SpecToken>,
    ctx: Map<Seq<char>, Seq<char>>,
    d: Seq<char>,
)
    ensures
        render_with(a + b, ctx, d) == render_with(a, ctx, d) + render_with(b, ctx, d),
    decreases b.len(),
{
    if b.len() == 0 {
        assert(a + b =~= a);
        assert(render_with(a, ctx, d) + render_with(b, ctx, d) =~= render_with(a, ctx, d));
    } else {
        lemma_render_with_concat(a, b.drop_last(), ctx, d);
        assert((a + b).drop_last() =~= a + b.drop_last());
        assert((a + b).last() == b.last());
        assert(render_with(a + b, ctx, d) =~= render_with(a, ctx, d) + render_with(b, ctx, d));
    }
}

/// Processing a template gives the literal text of the template that partial
/// processing with the same context leaves:
/// `process(t, c) == to_final_text(&partial_process(t, c))`.
pub proof fn law_process_is_final_text_of_partial(
    ts: Seq<SpecToken>,
    ctx: Map<Seq<char>, Seq<char>>,
)
    ensures
        render_with(ts, ctx, Seq::empty()) == render_literals(substitute_all(ts, ctx)),
    decreases ts.len(),
{
    if ts.len() > 0 {
        law_process_is_final_text_of_partial(ts.drop_last(), ctx);
        assert(substitute_all(ts, ctx).drop_last() =~= substitute_all(ts.drop_last(), ctx));
        assert(substitute_all(ts, ctx).last() == substitute(ts.last(), ctx));
        assert(fill(ts.last(), ctx, Seq::empty()) == literal_text(substitute(ts.last(), ctx)));
    }
}

/// Partial processing leaves no tag exactly when the context has a value for
/// every tag of the template: `is_final(&partial_process(t, c))` holds iff
/// `partial_process_result(t, c)` is final.
pub proof fn law_partial_process_final(ts: Seq<SpecToken>, ctx: Map<Seq<char>, Seq<char>>)
    ensures
        all_literals(substitute_all(ts, ctx)) <==> missing_names(ts, ctx) == Set::<
            Seq<char>,
        >::empty(),
{
    let us = substitute_all(ts, ctx);
    if all_literals(us) {
        assert forall|k: Seq<char>| !missing_names(ts, ctx).contains(k) by {
            if tag_names(ts).contains(k) && !ctx.dom().contains(k) {
                let i = choose|i: int| 0 <= i < ts.len() && ts[i] == SpecToken::Tag(k);
                assert(us[i] == substitute(ts[i], ctx));
            }
        }
        assert(missing_names(ts, ctx) =~= Set::<Seq<char>>::empty());
    }
    if missing_names(ts, ctx) == Set::<Seq<char>>::empty() {
        assert forall|i: int| 0 <= i < us.len() implies (#[trigger] us[i]) is Literal by {
            assert(us[i] == substitute(ts[i], ctx));
            if let SpecToken::Tag(k) = ts[i] {
                assert(tag_names(ts).contains(k));
                assert(!missing_names(ts, ctx).contains(k));
            }
        }
    }
}

/// Partial processing twice with the same context changes nothing the
/// second time.
pub proof fn law_partial_process_idempotent(ts: Seq<SpecToken>, ctx: Map<Seq<char>, Seq<char>>)
    ensures
        substitute_all(substitute_all(ts, ctx), ctx) == substitute_all(ts, ctx),
{
    assert(substitute_all(substitute_all(ts, ctx), ctx) =~= substitute_all(ts, ctx));
}

/// Partial processing with one context and then another is partial
/// processing once with both, the first one's values counting where both
/// have a name.
pub proof fn law_partial_process_twice(
    ts: Seq<SpecToken>,
    first: Map<Seq<char>, Seq<char>>,
    second: Map<Seq<char>, Seq<char>>,
)
    ensures
        substitute_all(substitute_all(ts, first), second) == substitute_all(
            ts,
            second.union_prefer_right(first),
        ),
{
    assert(substitute_all(substitute_all(ts, first), second) =~= substitute_all(
        ts,
        second.union_prefer_right(first),
    ));
}

/// A template is final exactly when it has no tags:
/// `is_final(t) == tags_of(t).is_empty()`.
pub proof fn law_final_iff_no_tags(ts: Seq<SpecToken>)
    ensures
        all_literals(ts) <==> tags_in(ts).len() == 0,
{
    broadcast use vstd::seq_lib::group_filter_ensures;

    if all_literals(ts) {
        if tags_in(ts).len() > 0 {
            let t = tags_in(ts)[0];
            assert(is_tag_token(t));
            assert(tags_in(ts).contains(t));
            ts.lemma_filter_contains_rev(|t: SpecToken| is_tag_token(t), t);
        }
    } else {
        let i = choose|i: int| 0 <= i < ts.len() && !(ts[i] is Literal);
        assert(tags_in(ts).contains(ts[i]));
    }
}

/// Whether no two adjacent tokens are literals.
pub open spec fn no_adjacent_literals(ts: Seq<SpecToken>) -> bool {
    forall|i: int| 0 <= i < ts.len() - 1 ==> !((#[trigger] ts[i]) is Literal && ts[i + 1] is Literal)
}

/// Compressing a template keeps its text, its literal text and its text when
/// processed with any context and default, and leaves no two adjacent literals:
/// `to_text(&compress(t)) == to_text(t)`, and so on.
pub proof fn law_compress_keeps_text(
    ts: Seq<SpecToken>,
    ctx: Map<Seq<char>, Seq<char>>,
    d: Seq<char>,
)
    ensures
        render(merge_literals(ts)) == render(ts),
        render_literals(merge_literals(ts)) == render_literals(ts),
        render_with(merge_literals(ts), ctx, d) == render_with(ts, ctx, d),
        no_adjacent_literals(merge_literals(ts)),
        merge_literals(ts).len() <= ts.len(),
    decreases ts.len(),
{
    if ts.len() > 0 {
        let done = merge_literals(ts.drop_last());
        let t = ts.last();
        law_compress_keeps_text(ts.drop_last(), ctx, d);
        if t is Literal && done.len() > 0 && done.last() is Literal {
            let merged = done.drop_last().push(
                SpecToken::Literal(done.last()->Literal_0 + t->Literal_0),
            );
            assert(merged.drop_last() =~= done.drop_last());
            assert(render(merged) =~= render(done) + token_text(t));
            assert(render_literals(merged) =~= render_literals(done) + literal_text(t));
            assert(render_with(merged, ctx, d) =~= render_with(done, ctx, d) + fill(t, ctx, d));
            assert forall|i: int| 0 <= i < merged.len() - 1 implies !((#[trigger] merged[i]) is Literal
                && merged[i + 1] is Literal) by {
                assert(merged[i] == done[i]);
                if i + 1 < merged.len() - 1 {
                    assert(merged[i + 1] == done[i + 1]);
                } else {
                    assert(done[i + 1] == done.last());
                }
            }
        } else {
            let pushed = done.push(t);
            assert(pushed.drop_last() =~= done);
            assert forall|i: int| 0 <= i < pushed.len() - 1 implies !((#[trigger] pushed[i]) is Literal
                && pushed[i + 1] is Literal) by {
                assert(pushed[i] == done[i]);
                if i + 1 < pushed.len() - 1 {
                    assert(pushed[i + 1] == done[i + 1]);
                }
            }
        }
    }
}

/// With a single pair, a token is replaced exactly when it is that pair's tag.
proof fn lemma_last_insertion_single(tag: SpecToken, inserted: Seq<SpecToken>, t: SpecToken)
    ensures
        last_insertion(seq![(tag, inserted)], t) == if t == tag {
            Some(inserted)
        } else {
            None::<Seq<SpecToken>>
        },
{
    let ps = seq![(tag, inserted)];
    assert(ps.last() == (tag, inserted));
    assert(ps.drop_last() =~= Seq::<(SpecToken, Seq<SpecToken>)>::empty());
    assert(last_insertion(Seq::<(SpecToken, Seq<SpecToken>)>::empty(), t) is None);
    assert(ps.len() == 1);
}

proof fn lemma_subsequence_single(t: SpecToken, hay: Seq<SpecToken>)
    ensures
        is_subsequence_of(seq![t], hay) <==> hay.contains(t),
    decreases hay.len(),
{
    if hay.len() > 0 {
        assert(seq![t][0] == t);
        assert(seq![t].len() == 1);
        if hay[0] == t {
            assert(seq![t].drop_first().len() == 0);
            assert(is_subsequence_of(seq![t].drop_first(), hay.drop_first()));
            assert(hay.contains(t)) by {
                assert(hay[0] == t);
            }
        } else {
            lemma_subsequence_single(t, hay.drop_first());
            if hay.contains(t) {
                let i = choose|i: int| 0 <= i < hay.len() && hay[i] == t;
                assert(hay.drop_first()[i - 1] == t);
            }
            if hay.drop_first().contains(t) {
                let i = choose|i: int| 0 <= i < hay.drop_first().len() && hay.drop_first()[i] == t;
                assert(hay[i + 1] == t);
            }
        }
    }
}

/// Inserting one template at a tag is inserting many templates with that one
/// pair: `insert_template(t, tag, ins) == insert_many_templates(t, &[(tag, ins)])`.
pub proof fn law_insert_one_is_insert_many(
    ts: Seq<SpecToken>,
    tag: SpecToken,
    inserted: Seq<SpecToken>,
)
    ensures
        (tag is Tag && ts.contains(tag)) <==> is_subsequence_of(seq![tag], tags_in(ts)),
        replace_token(ts, tag, inserted) == insert_all(ts, seq![(tag, inserted)]),
    decreases ts.len(),
{
    broadcast use vstd::seq_lib::group_filter_ensures;

    lemma_subsequence_single(tag, tags_in(ts));
    if tag is Tag && ts.contains(tag) {
        let i = choose|i: int| 0 <= i < ts.len() && ts[i] == tag;
        assert(tags_in(ts).contains(ts[i]));
    }
    if tags_in(ts).contains(tag) {
        ts.lemma_filter_contains_rev(|t: SpecToken| is_tag_token(t), tag);
        let j = choose|j: int| 0 <= j < tags_in(ts).len() && tags_in(ts)[j] == tag;
        assert(is_tag_token(tags_in(ts)[j]));
    }
    if ts.len() > 0 {
        law_insert_one_is_insert_many(ts.drop_last(), tag, inserted);
        lemma_last_insertion_single(tag, inserted, ts.last());
    }
}

proof fn lemma_render_with_single(t: SpecToken, ctx: Map<Seq<char>, Seq<char>>, d: Seq<char>)
    ensures
        render_with(seq![t], ctx, d) == fill(t, ctx, d),
{
    assert(seq![t].drop_last() =~= Seq::<SpecToken>::empty());
    assert(seq![t].last() == t);
    assert(render_with(Seq::<SpecToken>::empty(), ctx, d) =~= Seq::<char>::empty());
    assert(render_with(seq![t], ctx, d) =~= render_with(Seq::<SpecToken>::empty(), ctx, d) + fill(t, ctx, d));
}

proof fn lemma_literal_unless_empty_render(text: Seq<char>, ctx: Map<Seq<char>, Seq<char>>, d: Seq<char>)
    ensures
        render_with(literal_unless_empty(text), ctx, d) == text,
{
    if text.len() == 0 {
        assert(render_with(Seq::<SpecToken>::empty(), ctx, d) =~= text);
    } else {
        lemma_render_with_single(SpecToken::Literal(text), ctx, d);
    }
}

proof fn lemma_pieces_render(
    s: Seq<char>,
    p: Seq<char>,
    name: Seq<char>,
    start: int,
    ctx: Map<Seq<char>, Seq<char>>,
    d: Seq<char>,
)
    requires
        p.len() > 0,
        0 <= start <= s.len(),
        ctx.dom().contains(name),
        ctx[name] == p,
    ensures
        render_with(pieces_from(s, p, name, start), ctx, d) == s.subrange(start, s.len() as int),
    decreases s.len() - start,
{
    lemma_find_from(s, p, start);
    match find_from(s, p, start) {
        None => {
            lemma_literal_unless_empty_render(s.subrange(start, s.len() as int), ctx, d);
        },
        Some(j) => {
            let rest = pieces_from(s, p, name, j + p.len());
            lemma_pieces_render(s, p, name, j + p.len(), ctx, d);
            let lit = literal_unless_empty(s.subrange(start, j));
            lemma_literal_unless_empty_render(s.subrange(start, j), ctx, d);
            lemma_render_with_single(SpecToken::Tag(name), ctx, d);
            lemma_render_with_concat(lit, seq![SpecToken::Tag(name)], ctx, d);
            lemma_render_with_concat(lit + seq![SpecToken::Tag(name)], rest, ctx, d);
            assert(s.subrange(j, j + p.len()) == p);
            assert(s.subrange(start, j) + p + s.subrange(j + p.len(), s.len() as int) =~= s.subrange(
                start,
                s.len() as int,
            ));
        },
    }
}

proof fn lemma_around_chars_render(
    s: Seq<char>,
    name: Seq<char>,
    ctx: Map<Seq<char>, Seq<char>>,
    d: Seq<char>,
)
    requires
        ctx.dom().contains(name),
        ctx[name] == Seq::<char>::empty(),
    ensures
        render_with(around_chars(s, name), ctx, d) == s,
    decreases s.len(),
{
    if s.len() == 0 {
        lemma_render_with_single(SpecToken::Tag(name), ctx, d);
    } else {
        lemma_around_chars_render(s.drop_last(), name, ctx, d);
        let tail = seq![SpecToken::Literal(seq![s.last()]), SpecToken::Tag(name)];
        lemma_render_with_concat(around_chars(s.drop_last(), name), tail, ctx, d);
        assert(tail.drop_last() =~= seq![SpecToken::Literal(seq![s.last()])]);
        lemma_render_with_single(SpecToken::Literal(seq![s.last()]), ctx, d);
        assert(render_with(tail, ctx, d) =~= seq![s.last()]);
        assert(s.drop_last() + seq![s.last()] =~= s);
    }
}

/// Turning each occurrence of a text into a new tag and then processing with
/// a context that gives the new tag that text gives what processing the
/// untouched template gives: with `c` binding `n` to `r`,
/// `process_with_default(d, &add_tag(t, r, n)?, c) == process_with_default(d, t, c)`.
pub proof fn law_add_tag_then_process(
    ts: Seq<SpecToken>,
    r: Seq<char>,
    name: Seq<char>,
    ctx: Map<Seq<char>, Seq<char>>,
    d: Seq<char>,
)
    requires
        ctx.dom().contains(name),
        ctx[name] == r,
    ensures
        render_with(split_all(ts, r, name), ctx, d) == render_with(ts, ctx, d),
    decreases ts.len(),
{
    if ts.len() > 0 {
        law_add_tag_then_process(ts.drop_last(), r, name, ctx, d);
        let t = ts.last();
        lemma_render_with_concat(split_all(ts.drop_last(), r, name), split_token(t, r, name), ctx, d);
        match t {
            SpecToken::Tag(_) => {
                lemma_render_with_single(t, ctx, d);
            },
            SpecToken::Literal(text) => {
                if r.len() == 0 {
                    assert(r =~= Seq::<char>::empty());
                    lemma_around_chars_render(text, name, ctx, d);
                } else {
                    lemma_pieces_render(text, r, name, 0, ctx, d);
                    assert(text.subrange(0, text.len() as int) =~= text);
                }
            },
        }
    }
}

/// Renaming with no renames changes nothing: `tags_rename(&[], t) == t`.
pub proof fn law_rename_nothing(ts: Seq<SpecToken>)
    ensures
        ts.map_values(|t: SpecToken| rename(t, to_map(Seq::empty()))) == ts,
{
    assert(to_map(Seq::empty()) =~= Map::<Seq<char>, Seq<char>>::empty());
    assert(ts.map_values(|t: SpecToken| rename(t, to_map(Seq::empty()))) =~= ts);
}

/// Joining two contexts succeeds or fails regardless of their order, and
/// where it succeeds gives the same variables either way.
pub proof fn law_join_commutes(first: Map<Seq<char>, Seq<char>>, second: Map<Seq<char>, Seq<char>>)
    ensures
        first.dom().disjoint(second.dom()) <==> second.dom().disjoint(first.dom()),
        first.dom().disjoint(second.dom()) ==> first.union_prefer_right(second)
            == second.union_prefer_right(first),
{
    if first.dom().disjoint(second.dom()) {
        assert(first.union_prefer_right(second) =~= second.union_prefer_right(first));
    }
}

/// After setting variables, a name given in the pairs has the value of the
/// last pair that gives it, and any other name keeps its value or stays unset.
pub proof fn law_set_then_get(
    ctx: Map<Seq<char>, Seq<char>>,
    pairs: Map<Seq<char>, Seq<char>>,
    k: Seq<char>,
)
    ensures
        pairs.dom().contains(k) ==> ctx.union_prefer_right(pairs).dom().contains(k)
            && ctx.union_prefer_right(pairs)[k] == pairs[k],
        !pairs.dom().contains(k) ==> (ctx.union_prefer_right(pairs).dom().contains(k)
            <==> ctx.dom().contains(k)) && (ctx.dom().contains(k) ==> ctx.union_prefer_right(
            pairs,
        )[k] == ctx[k]),
{
}

/// After deleting variables, a deleted name is unset and any other keeps
/// its value or stays unset.
pub proof fn law_delete_then_get(
    ctx: Map<Seq<char>, Seq<char>>,
    names: Set<Seq<char>>,
    k: Seq<char>,
)
    ensures
        names.contains(k) ==> !ctx.remove_keys(names).dom().contains(k),
        !names.contains(k) ==> (ctx.remove_keys(names).dom().contains(k) <==> ctx.dom().contains(k))
            && (ctx.dom().contains(k) ==> ctx.remove_keys(names)[k] == ctx[k]),
{
}

/// The text of a template without tags is its literal text, whatever context
/// it is processed with: for a final `t`, `to_final_text(t) == to_text(t)`
/// and `process_with_default(d, t, c) == to_text(t)`.
pub proof fn law_final_text_of_final(ts: Seq<SpecToken>, ctx: Map<Seq<char>, Seq<char>>, d: Seq<char>)
    requires
        all_literals(ts),
    ensures
        render_literals(ts) == render(ts),
        render_with(ts, ctx, d) == render(ts),
    decreases ts.len(),
{
    if ts.len() > 0 {
        assert(all_literals(ts.drop_last())) by {
            assert forall|i: int| 0 <= i < ts.drop_last().len() implies (#[trigger] ts.drop_last()[i]) is Literal by {
                assert(ts.drop_last()[i] == ts[i]);
            }
        }
        law_final_text_of_final(ts.drop_last(), ctx, d);
        assert(ts.last() == ts[ts.len() - 1]);
    }
}

/// The context of a partial result is the context that `from_template` builds
/// for the template of the partial result: the tags that partial processing
/// leaves are those whose names the context had no value for.
pub proof fn law_partial_context_is_template_context(
    ts: Seq<SpecToken>,
    ctx: Map<Seq<char>, Seq<char>>,
)
    ensures
        tag_names(substitute_all(ts, ctx)) == missing_names(ts, ctx),
{
    let us = substitute_all(ts, ctx);
    assert forall|k: Seq<char>| tag_names(us).contains(k) <==> missing_names(ts, ctx).contains(k) by {
        if tag_names(us).contains(k) {
            let i = choose|i: int| 0 <= i < us.len() && us[i] == SpecToken::Tag(k);
            assert(us[i] == substitute(ts[i], ctx));
            assert(ts[i] == SpecToken::Tag(k));
        }
        if missing_names(ts, ctx).contains(k) {
            let i = choose|i: int| 0 <= i < ts.len() && ts[i] == SpecToken::Tag(k);
            assert(us[i] == substitute(ts[i], ctx));
        }
    }
    assert(tag_names(us) =~= missing_names(ts, ctx));
}

/// What every token of a template read from text is like: a tag has a
/// non-empty name without white space or braces, a literal is not empty.
pub open spec fn well_formed_token(t: SpecToken) -> bool {
    match t {
        SpecToken::Tag(name) => name.len() > 0 && !has_white_space(name) && forall|j: int|
            0 <= j < name.len() ==> !is_brace(#[trigger] name[j]),
        SpecToken::Literal(text) => text.len() > 0,
    }
}

proof fn lemma_parse_from_well_formed(s: Seq<char>, i: int)
    requires
        0 <= i <= s.len(),
    ensures
        parse_from(s, i) matches Ok(ts) ==> forall|k: int|
            0 <= k < ts.len() ==> well_formed_token(#[trigger] ts[k]),
    decreases s.len() - i,
{
    if i < s.len() {
        lemma_plain_end(s, i);
        lemma_brace_end(s, i);
        if !is_brace(s[i]) {
            let e = plain_end(s, i);
            lemma_plain_end(s, i + 1);
            lemma_parse_from_well_formed(s, e);
            if let Ok(rest) = parse_from(s, e) {
                let ts = seq![SpecToken::Literal(s.subrange(i, e))] + rest;
                assert forall|k: int| 0 <= k < ts.len() implies well_formed_token(#[trigger] ts[k]) by {
                    if k > 0 {
                        assert(ts[k] == rest[k - 1]);
                    }
                }
            }
        } else if opens_tag(s, i) {
            let e = plain_end(s, i + 2);
            lemma_plain_end(s, i + 2);
            if tag_closed(s, i) {
                let name = s.subrange(i + 2, e);
                lemma_parse_from_well_formed(s, e + 2);
                if parse_from(s, e + 2) is Ok && !has_white_space(name) {
                    let rest = parse_from(s, e + 2)->Ok_0;
                    let ts = seq![SpecToken::Tag(name)] + rest;
                    assert forall|k: int| 0 <= k < ts.len() implies well_formed_token(#[trigger] ts[k]) by {
                        if k > 0 {
                            assert(ts[k] == rest[k - 1]);
                        } else {
                            assert forall|j: int| 0 <= j < name.len() implies !is_brace(#[trigger] name[j]) by {
                                assert(name[j] == s[i + 2 + j]);
                            }
                        }
                    }
                }
            }
        } else {
            let e = brace_end(s, i);
            lemma_brace_end(s, i + 1);
            lemma_parse_from_well_formed(s, e);
            if let Ok(rest) = parse_from(s, e) {
                let ts = seq![SpecToken::Literal(s.subrange(i, e))] + rest;
                assert forall|k: int| 0 <= k < ts.len() implies well_formed_token(#[trigger] ts[k]) by {
                    if k > 0 {
                        assert(ts[k] == rest[k - 1]);
                    }
                }
            }
        }
    }
}

/// Every token of a template that `from_text` returns is well formed: tags
/// have non-empty names without white space or braces, literals are not empty.
pub proof fn law_parsed_tokens_well_formed(s: Seq<char>, ts: Seq<SpecToken>)
    requires
        parse(s) == Ok::<Seq<SpecToken>, ParseFailure>(ts),
    ensures
        forall|k: int| 0 <= k < ts.len() ==> well_formed_token(#[trigger] ts[k]),
{
    lemma_parse_from_well_formed(s, 0);
}

/// A failure with its position moved on by `k` characters.
pub open spec fn shift_failure(f: ParseFailure, k: int) -> ParseFailure {
    match f {
        ParseFailure::WhitespaceInTag(i) => ParseFailure::WhitespaceInTag(i + k),
        ParseFailure::UnclosedTag(i) => ParseFailure::UnclosedTag(i + k),
    }
}

/// A parse result with the position of its failure, if any, moved on by `k`.
pub open spec fn shift_result(r: Result<Seq<SpecToken>, ParseFailure>, k: int) -> Result<
    Seq<SpecToken>,
    ParseFailure,
> {
    match r {
        Ok(ts) => Ok(ts),
        Err(f) => Err(shift_failure(f, k)),
    }
}

proof fn lemma_plain_end_shift(s: Seq<char>, i: int, k: int)
    requires
        0 <= i <= s.len(),
        0 <= k <= s.len() - i,
    ensures
        plain_end(s, i + k) == i + plain_end(s.skip(i), k),
    decreases s.len() - i - k,
{
    let t = s.skip(i);
    if i + k < s.len() {
        assert(t[k] == s[i + k]);
        if !is_brace(s[i + k]) {
            lemma_plain_end_shift(s, i, k + 1);
        }
    }
}

proof fn lemma_brace_end_shift(s: Seq<char>, i: int, k: int)
    requires
        0 <= i <= s.len(),
        0 <= k <= s.len() - i,
    ensures
        brace_end(s, i + k) == i + brace_end(s.skip(i), k),
    decreases s.len() - i - k,
{
    let t = s.skip(i);
    if i + k < s.len() {
        assert(t[k] == s[i + k]);
        if is_brace(s[i + k]) {
            lemma_brace_end_shift(s, i, k + 1);
        }
    }
}

proof fn lemma_prepend_shift(t: SpecToken, r: Result<Seq<SpecToken>, ParseFailure>, i: int)
    ensures
        prepend(t, shift_result(r, i)) == shift_result(prepend(t, r), i),
{
}

proof fn lemma_parse_from_shift(s: Seq<char>, i: int, k: int)
    requires
        0 <= i <= s.len(),
        0 <= k <= s.len() - i,
    ensures
        parse_from(s, i + k) == shift_result(parse_from(s.skip(i), k), i),
    decreases s.len() - i - k,
{
    let t = s.skip(i);
    let j = i + k;
    if j < s.len() {
        assert(t[k] == s[j]);
        lemma_plain_end(s, j);
        lemma_brace_end(s, j);
        lemma_plain_end_shift(s, i, k);
        lemma_brace_end_shift(s, i, k);
        if !is_brace(s[j]) {
            let e = plain_end(s, j);
            lemma_plain_end(s, j + 1);
            lemma_parse_from_shift(s, i, e - i);
            assert(s.subrange(j, e) =~= t.subrange(k, e - i));
            lemma_prepend_shift(SpecToken::Literal(s.subrange(j, e)), parse_from(t, e - i), i);
        } else if opens_tag(s, j) {
            assert(t[k + 1] == s[j + 1]);
            assert(opens_tag(t, k));
            let e = plain_end(s, j + 2);
            lemma_plain_end(s, j + 2);
            lemma_plain_end_shift(s, i, k + 2);
            if tag_closed(s, j) {
                assert(t[e - i] == s[e]);
                assert(t[e - i + 1] == s[e + 1]);
                assert(tag_closed(t, k));
                let name = s.subrange(j + 2, e);
                assert(name =~= t.subrange(k + 2, e - i));
                if !has_white_space(name) {
                    lemma_parse_from_shift(s, i, e + 2 - i);
                    lemma_prepend_shift(SpecToken::Tag(name), parse_from(t, e + 2 - i), i);
                }
            } else {
                if e + 1 < s.len() {
                    assert(t[e - i] == s[e]);
                    assert(t[e - i + 1] == s[e + 1]);
                }
                assert(!tag_closed(t, k));
            }
        } else {
            if k + 1 < t.len() {
                assert(t[k + 1] == s[j + 1]);
            }
            assert(!opens_tag(t, k));
            let e = brace_end(s, j);
            lemma_brace_end(s, j + 1);
            lemma_parse_from_shift(s, i, e - i);
            assert(s.subrange(j, e) =~= t.subrange(k, e - i));
            lemma_prepend_shift(SpecToken::Literal(s.subrange(j, e)), parse_from(t, e - i), i);
        }
    }
}

/// Reading a text from position `i` on is reading the rest of the text on its
/// own, a failure's position counted from the start of the whole text.
pub proof fn law_parse_from_is_parse_of_rest(s: Seq<char>, i: int)
    requires
        0 <= i <= s.len(),
    ensures
        parse_from(s, i) == shift_result(parse(s.subrange(i, s.len() as int)), i),
{
    lemma_parse_from_shift(s, i, 0);
    assert(s.skip(i) =~= s.subrange(i, s.len() as int));
}

/// Whether no character of `x` is a brace.
pub open spec fn brace_free(x: Seq<char>) -> bool {
    forall|j: int| 0 <= j < x.len() ==> !is_brace(#[trigger] x[j])
}

/// Whether `name` can be the name of a tag: not empty, without braces and
/// without white space.
pub open spec fn valid_tag_name(name: Seq<char>) -> bool {
    name.len() > 0 && brace_free(name) && !has_white_space(name)
}

proof fn lemma_plain_end_at(s: Seq<char>, i: int, e: int)
    requires
        0 <= i <= e <= s.len(),
        forall|j: int| i <= j < e ==> !is_brace(#[trigger] s[j]),
        e < s.len() ==> is_brace(s[e]),
    ensures
        plain_end(s, i) == e,
    decreases e - i,
{
    if i < e {
        lemma_plain_end_at(s, i + 1, e);
    }
}

/// Reading a text that starts with text free of braces `p` and a tag named
/// `name`: the literal `p` (where it is not empty), the tag, then what the
/// rest reads as, a failure there counted from the start of the whole text.
pub proof fn law_parse_text_then_tag(p: Seq<char>, name: Seq<char>, rest: Seq<char>)
    requires
        brace_free(p),
        valid_tag_name(name),
    ensures
        parse(p + "{{"@ + name + "}}"@ + rest) == prepend_all(
            literal_unless_empty(p) + seq![SpecToken::Tag(name)],
            shift_result(parse(rest), (p.len() + name.len() + 4) as int),
        ),
{
    reveal_strlit("{{");
    reveal_strlit("}}");
    let s = p + "{{"@ + name + "}}"@ + rest;
    let pl = p.len() as int;
    let e = pl + 2 + name.len();
    assert forall|j: int| 0 <= j < pl implies s[j] == p[j] by {}
    assert(s[pl] == '{' && s[pl + 1] == '{');
    assert forall|j: int| pl + 2 <= j < e implies s[j] == name[j - pl - 2] by {}
    assert(s[e] == '}' && s[e + 1] == '}');
    lemma_plain_end_at(s, pl + 2, e);
    assert(s.subrange(pl + 2, e) =~= name);
    assert(tag_closed(s, pl));
    assert(opens_tag(s, pl));
    assert(s.subrange(e + 2, s.len() as int) =~= rest);
    law_parse_from_is_parse_of_rest(s, e + 2);
    let tail = shift_result(parse(rest), (pl + name.len() + 4) as int);
    assert(parse_from(s, pl) == prepend(SpecToken::Tag(name), tail));
    if pl > 0 {
        lemma_plain_end_at(s, 0, pl);
        assert(s.subrange(0, pl) =~= p);
        assert(parse_from(s, 0) == prepend(SpecToken::Literal(p), parse_from(s, pl)));
        if let Ok(ts) = tail {
            assert(seq![SpecToken::Literal(p)] + (seq![SpecToken::Tag(name)] + ts) =~= (
            literal_unless_empty(p) + seq![SpecToken::Tag(name)]) + ts);
        }
    } else {
        if let Ok(ts) = tail {
            assert(seq![SpecToken::Tag(name)] + ts =~= (literal_unless_empty(p) + seq![
                SpecToken::Tag(name),
            ]) + ts);
        }
    }
}

/// A text that starts with text free of braces `p` and then two opening
/// braces reads as a template only where a valid tag name and two closing
/// braces follow.
pub proof fn law_parse_text_then_bad_tag(p: Seq<char>, r: Seq<char>)
    requires
        brace_free(p),
    ensures
        parse(p + "{{"@ + r) is Ok ==> exists|name: Seq<char>, rest: Seq<char>|
            r == name + "}}"@ + rest && valid_tag_name(name),
{
    reveal_strlit("{{");
    reveal_strlit("}}");
    let s = p + "{{"@ + r;
    let pl = p.len() as int;
    assert forall|j: int| 0 <= j < pl implies s[j] == p[j] by {}
    assert(s[pl] == '{' && s[pl + 1] == '{');
    assert(opens_tag(s, pl));
    if pl > 0 {
        lemma_plain_end_at(s, 0, pl);
        assert(parse_from(s, 0) == prepend(SpecToken::Literal(s.subrange(0, pl)), parse_from(s, pl)));
    }
    if parse(s) is Ok {
        assert(parse_from(s, pl) is Ok);
        let e = plain_end(s, pl + 2);
        lemma_plain_end(s, pl + 2);
        assert(tag_closed(s, pl));
        let name = s.subrange(pl + 2, e);
        assert(!has_white_space(name));
        let rest = s.subrange(e + 2, s.len() as int);
        assert forall|j: int| 0 <= j < name.len() implies !is_brace(#[trigger] name[j]) by {
            assert(name[j] == s[pl + 2 + j]);
        }
        assert(valid_tag_name(name));
        assert(r =~= name + "}}"@ + rest) by {
            assert forall|j: int| 0 <= j < r.len() implies r[j] == (name + "}}"@ + rest)[j] by {
                assert(s[pl + 2 + j] == r[j]);
            }
        }
    }
}

/// Whether two opening braces occur next to each other somewhere in `s`.
pub open spec fn has_tag_opening(s: Seq<char>) -> bool {
    exists|i: int| #[trigger] opens_tag(s, i)
}

proof fn lemma_parse_from_no_opening(s: Seq<char>, i: int)
    requires
        0 <= i <= s.len(),
        !has_tag_opening(s),
    ensures
        parse_from(s, i) is Ok,
        all_literals(parse_from(s, i)->Ok_0),
    decreases s.len() - i,
{
    if i < s.len() {
        lemma_plain_end(s, i);
        lemma_brace_end(s, i);
        assert(!opens_tag(s, i));
        let e = if !is_brace(s[i]) {
            lemma_plain_end(s, i + 1);
            plain_end(s, i)
        } else {
            lemma_brace_end(s, i + 1);
            brace_end(s, i)
        };
        lemma_parse_from_no_opening(s, e);
        let rest = parse_from(s, e)->Ok_0;
        let ts = seq![SpecToken::Literal(s.subrange(i, e))] + rest;
        assert(parse_from(s, i) == Ok::<Seq<SpecToken>, ParseFailure>(ts));
        assert forall|k: int| 0 <= k < ts.len() implies (#[trigger] ts[k]) is Literal by {
            if k > 0 {
                assert(ts[k] == rest[k - 1]);
            }
        }
    }
}

/// A text in which two opening braces never stand next to each other reads
/// as a template of literals only: `from_text(s)` succeeds and is final.
pub proof fn law_text_without_tags_is_final(s: Seq<char>)
    requires
        !has_tag_opening(s),
    ensures
        parse(s) is Ok,
        all_literals(parse(s)->Ok_0),
{
    lemma_parse_from_no_opening(s, 0);
}

/// Compressing a template in which no two literals stand next to each other
/// changes nothing: in particular an empty literal between two tags stays.
pub proof fn law_compress_without_adjacent_literals(u: Seq<SpecToken>)
    requires
        no_adjacent_literals(u),
    ensures
        merge_literals(u) == u,
{
    lemma_no_adjacent_merge_identity(u);
}

proof fn lemma_no_adjacent_merge_identity(u: Seq<SpecToken>)
    requires
        no_adjacent_literals(u),
    ensures
        merge_literals(u) == u,
    decreases u.len(),
{
    if u.len() > 0 {
        let v = u.drop_last();
        assert(no_adjacent_literals(v)) by {
            assert forall|i: int| 0 <= i < v.len() - 1 implies !((#[trigger] v[i]) is Literal
                && v[i + 1] is Literal) by {
                assert(v[i] == u[i] && v[i + 1] == u[i + 1]);
            }
        }
        lemma_no_adjacent_merge_identity(v);
        if u.last() is Literal && v.len() > 0 {
            assert(v.last() == u[u.len() - 2]);
        }
        assert(v.push(u.last()) =~= u);
    }
}

/// Compressing twice changes nothing the second time, and compressing keeps
/// the tags in order: `compress(&compress(t)) == compress(t)` and
/// `tags_of(&compress(t)) == tags_of(t)`.
pub proof fn law_compress_idempotent_keeps_tags(ts: Seq<SpecToken>)
    ensures
        merge_literals(merge_literals(ts)) == merge_literals(ts),
        tags_in(merge_literals(ts)) == tags_in(ts),
    decreases ts.len(),
{
    law_compress_keeps_text(ts, Map::empty(), Seq::empty());
    lemma_no_adjacent_merge_identity(merge_literals(ts));
    if ts.len() > 0 {
        law_compress_idempotent_keeps_tags(ts.drop_last());
        let done = merge_literals(ts.drop_last());
        let t = ts.last();
        reveal_with_fuel(Seq::<SpecToken>::filter, 1);
        if t is Literal && done.len() > 0 && done.last() is Literal {
            let merged = done.drop_last().push(
                SpecToken::Literal(done.last()->Literal_0 + t->Literal_0),
            );
            assert(merged.drop_last() =~= done.drop_last());
            assert(tags_in(merged) == tags_in(done.drop_last()));
            assert(tags_in(done) == tags_in(done.drop_last()));
        } else {
            assert(done.push(t).drop_last() =~= done);
        }
    }
}

proof fn lemma_merge_concat(a: Seq<SpecToken>, b: Seq<SpecToken>)
    ensures
        merge_literals(a + b) == merge_literals(merge_literals(a) + b),
    decreases b.len(),
{
    if b.len() == 0 {
        assert(a + b =~= a);
        assert(merge_literals(a) + b =~= merge_literals(a));
        law_compress_idempotent_keeps_tags(a);
    } else {
        lemma_merge_concat(a, b.drop_last());
        assert((a + b).drop_last() =~= a + b.drop_last());
        assert((a + b).last() == b.last());
        assert((merge_literals(a) + b).drop_last() =~= merge_literals(a) + b.drop_last());
        assert((merge_literals(a) + b).last() == b.last());
    }
}

proof fn lemma_merge_after_tag(a: Seq<SpecToken>, b: Seq<SpecToken>)
    requires
        merge_literals(a) == a,
        a.len() == 0 || a.last() is Tag,
    ensures
        merge_literals(a + b) == a + merge_literals(b),
    decreases b.len(),
{
    if b.len() == 0 {
        assert(a + b =~= a);
        assert(a + merge_literals(b) =~= a);
    } else {
        lemma_merge_after_tag(a, b.drop_last());
        assert((a + b).drop_last() =~= a + b.drop_last());
        assert((a + b).last() == b.last());
        let m = merge_literals(b.drop_last());
        let t = b.last();
        if m.len() > 0 {
            assert((a + m).last() == m.last());
            assert((a + m).drop_last() =~= a + m.drop_last());
            if t is Literal && m.last() is Literal {
                assert(merge_literals(b) == m.drop_last().push(
                    SpecToken::Literal(m.last()->Literal_0 + t->Literal_0),
                ));
                assert(a + m.drop_last().push(SpecToken::Literal(m.last()->Literal_0 + t->Literal_0))
                    =~= (a + m).drop_last().push(
                    SpecToken::Literal((a + m).last()->Literal_0 + t->Literal_0),
                ));
            } else {
                assert(a + m.push(t) =~= (a + m).push(t));
            }
        } else {
            assert(a + m =~= a);
            assert(merge_literals(b) == m.push(t));
            assert(a + m.push(t) =~= a.push(t));
        }
    }
}

proof fn lemma_merge_single(t: SpecToken)
    ensures
        merge_literals(seq![t]) == seq![t],
{
    assert(seq![t].drop_last() =~= Seq::<SpecToken>::empty());
    assert(seq![t].last() == t);
    assert(merge_literals(Seq::<SpecToken>::empty()) =~= Seq::<SpecToken>::empty());
    assert(Seq::<SpecToken>::empty().push(t) =~= seq![t]);
}

/// Whether a token reads back as itself from its own text: a tag with a valid
/// name, or a non-empty literal without braces.
pub open spec fn renderable_token(t: SpecToken) -> bool {
    match t {
        SpecToken::Tag(name) => valid_tag_name(name),
        SpecToken::Literal(text) => text.len() > 0 && brace_free(text),
    }
}

/// Whether every token reads back as itself from its own text.
pub open spec fn renderable(ts: Seq<SpecToken>) -> bool {
    forall|i: int| 0 <= i < ts.len() ==> renderable_token(#[trigger] ts[i])
}

proof fn lemma_parse_brace_free(x: Seq<char>)
    requires
        brace_free(x),
    ensures
        parse(x) == Ok::<Seq<SpecToken>, ParseFailure>(literal_unless_empty(x)),
{
    if x.len() > 0 {
        assert(!is_brace(x[0]));
        assert(parse_from(x, x.len() as int) == Ok::<Seq<SpecToken>, ParseFailure>(Seq::empty()));
        lemma_plain_end_at(x, 0, x.len() as int);
        assert(x.subrange(0, x.len() as int) =~= x);
        assert(seq![SpecToken::Literal(x)] + Seq::<SpecToken>::empty() =~= seq![SpecToken::Literal(x)]);
    }
}

proof fn lemma_parse_text_then_render(ts: Seq<SpecToken>, x: Seq<char>)
    requires
        renderable(ts),
        brace_free(x),
    ensures
        parse(x + render(ts)) == Ok::<Seq<SpecToken>, ParseFailure>(
            merge_literals(literal_unless_empty(x) + ts),
        ),
    decreases ts.len(),
{
    if ts.len() == 0 {
        assert(render(ts) =~= Seq::<char>::empty());
        assert(x + render(ts) =~= x);
        assert(literal_unless_empty(x) + ts =~= literal_unless_empty(x));
        lemma_parse_brace_free(x);
        if x.len() > 0 {
            lemma_merge_single(SpecToken::Literal(x));
        }
    } else {
        let t0 = ts[0];
        let rest = ts.drop_first();
        assert(ts =~= seq![t0] + rest);
        lemma_render_prepend(t0, rest);
        assert(renderable(rest)) by {
            assert forall|i: int| 0 <= i < rest.len() implies renderable_token(#[trigger] rest[i]) by {
                assert(rest[i] == ts[i + 1]);
            }
        }
        assert(renderable_token(t0));
        match t0 {
            SpecToken::Literal(y) => {
                let xy = x + y;
                assert(brace_free(xy)) by {
                    assert forall|j: int| 0 <= j < xy.len() implies !is_brace(#[trigger] xy[j]) by {
                        if j < x.len() {
                            assert(xy[j] == x[j]);
                        } else {
                            assert(xy[j] == y[j - x.len()]);
                        }
                    }
                }
                lemma_parse_text_then_render(rest, xy);
                assert(x + render(ts) =~= xy + render(rest));
                let c = seq![SpecToken::Literal(xy)];
                assert(literal_unless_empty(xy) == c);
                let a = literal_unless_empty(x) + seq![t0];
                assert(literal_unless_empty(x) + ts =~= a + rest);
                lemma_merge_concat(a, rest);
                lemma_merge_concat(c, rest);
                lemma_merge_single(SpecToken::Literal(xy));
                if x.len() > 0 {
                    let pair = seq![SpecToken::Literal(x), SpecToken::Literal(y)];
                    assert(a =~= pair);
                    assert(pair.drop_last() =~= seq![SpecToken::Literal(x)]);
                    lemma_merge_single(SpecToken::Literal(x));
                    assert(seq![SpecToken::Literal(x)].drop_last().push(SpecToken::Literal(x + y))
                        =~= c);
                    assert(merge_literals(a) == c);
                } else {
                    assert(xy =~= y);
                    assert(a =~= c);
                }
            },
            SpecToken::Tag(name) => {
                law_parse_text_then_tag(x, name, render(rest));
                reveal_strlit("{{");
                reveal_strlit("}}");
                assert(x + render(ts) =~= x + "{{"@ + name + "}}"@ + render(rest));
                lemma_parse_text_then_render(rest, Seq::<char>::empty());
                assert(Seq::<char>::empty() + render(rest) =~= render(rest));
                assert(literal_unless_empty(Seq::<char>::empty()) + rest =~= rest);
                let a = literal_unless_empty(x) + seq![t0];
                assert(literal_unless_empty(x) + ts =~= a + rest);
                if x.len() > 0 {
                    let pair = seq![SpecToken::Literal(x), t0];
                    assert(a =~= pair);
                    assert(pair.drop_last() =~= seq![SpecToken::Literal(x)]);
                    lemma_merge_single(SpecToken::Literal(x));
                    assert(seq![SpecToken::Literal(x)].push(t0) =~= pair);
                } else {
                    assert(a =~= seq![t0]);
                    lemma_merge_single(t0);
                }
                assert(merge_literals(a) == a);
                lemma_merge_after_tag(a, rest);
            },
        }
    }
}

/// A template whose tags have valid names and whose literals are non-empty
/// and free of braces reads back from its own text as its compressed form:
/// `from_text(&to_text(t)) == Ok(compress(t))`.
pub proof fn law_render_then_parse_compresses(ts: Seq<SpecToken>)
    requires
        renderable(ts),
    ensures
        parse(render(ts)) == Ok::<Seq<SpecToken>, ParseFailure>(merge_literals(ts)),
{
    lemma_parse_text_then_render(ts, Seq::<char>::empty());
    assert(Seq::<char>::empty() + render(ts) =~= render(ts));
    assert(literal_unless_empty(Seq::<char>::empty()) + ts =~= ts);
}

/// Processing renders each token on its own and puts the pieces together in
/// order: a literal as its text, a tag as the context's value for its name,
/// and a tag whose name the context lacks as exactly the default text.
pub proof fn law_process_renders_each_token(
    a: Seq<SpecToken>,
    b: Seq<SpecToken>,
    name: Seq<char>,
    text: Seq<char>,
    ctx: Map<Seq<char>, Seq<char>>,
    d: Seq<char>,
)
    ensures
        render_with(Seq::empty(), ctx, d) == Seq::<char>::empty(),
        render_with(a + b, ctx, d) == render_with(a, ctx, d) + render_with(b, ctx, d),
        render_with(seq![SpecToken::Literal(text)], ctx, d) == text,
        ctx.dom().contains(name) ==> render_with(seq![SpecToken::Tag(name)], ctx, d) == ctx[name],
        !ctx.dom().contains(name) ==> render_with(seq![SpecToken::Tag(name)], ctx, d) == d,
{
    lemma_render_with_concat(a, b, ctx, d);
    lemma_render_with_single(SpecToken::Literal(text), ctx, d);
    lemma_render_with_single(SpecToken::Tag(name), ctx, d);
}

/// Renaming looks each tag's name up once: the `i`-th token of the result
/// is the tag named `m[n]` where the `i`-th token is a tag named `n` that `m`
/// renames, whether or not `m[n]` is itself renamed, and is the token
/// unchanged otherwise.
pub proof fn law_tags_rename_single_lookup(ts: Seq<SpecToken>, m: Map<Seq<char>, Seq<char>>, i: int)
    requires
        0 <= i < ts.len(),
    ensures
        ts.map_values(|t: SpecToken| rename(t, m)).len() == ts.len(),
        ts.map_values(|t: SpecToken| rename(t, m))[i] == match ts[i] {
            SpecToken::Tag(n) => if m.dom().contains(n) {
                SpecToken::Tag(m[n])
            } else {
                ts[i]
            },
            SpecToken::Literal(_) => ts[i],
        },
{
}

/// Whether `idx` picks, in increasing order, positions of `hay` that hold the
/// tokens of `needle` one by one.
pub open spec fn embeds(needle: Seq<SpecToken>, hay: Seq<SpecToken>, idx: Seq<int>) -> bool {
    &&& idx.len() == needle.len()
    &&& forall|k: int| 0 <= k < idx.len() ==> 0 <= #[trigger] idx[k] < hay.len()
    &&& forall|k: int| 0 <= k < idx.len() ==> hay[#[trigger] idx[k]] == needle[k]
    &&& forall|k: int, l: int| 0 <= k < l < idx.len() ==> #[trigger] idx[k] < #[trigger] idx[l]
}

proof fn lemma_embeds_shift(needle: Seq<SpecToken>, hay: Seq<SpecToken>, idx: Seq<int>)
    requires
        embeds(needle, hay.drop_first(), idx),
        hay.len() > 0,
    ensures
        embeds(needle, hay, idx.map_values(|k: int| k + 1)),
{
    let jdx = idx.map_values(|k: int| k + 1);
    assert forall|k: int| 0 <= k < jdx.len() implies hay[#[trigger] jdx[k]] == needle[k] by {
        assert(jdx[k] == idx[k] + 1);
        assert(hay.drop_first()[idx[k]] == hay[idx[k] + 1]);
    }
    assert forall|k: int, l: int| 0 <= k < l < jdx.len() implies #[trigger] jdx[k] < #[trigger] jdx[l] by {
        assert(jdx[k] == idx[k] + 1 && jdx[l] == idx[l] + 1);
    }
}

proof fn lemma_subsequence_embeds(needle: Seq<SpecToken>, hay: Seq<SpecToken>)
    ensures
        is_subsequence_of(needle, hay) ==> exists|idx: Seq<int>| embeds(needle, hay, idx),
    decreases hay.len(),
{
    if needle.len() == 0 {
        assert(embeds(needle, hay, Seq::<int>::empty()));
    } else if hay.len() > 0 {
        if needle[0] == hay[0] {
            lemma_subsequence_embeds(needle.drop_first(), hay.drop_first());
            if is_subsequence_of(needle, hay) {
                let idx = choose|idx: Seq<int>| embeds(needle.drop_first(), hay.drop_first(), idx);
                lemma_embeds_shift(needle.drop_first(), hay, idx);
                let jdx = seq![0int] + idx.map_values(|k: int| k + 1);
                assert(embeds(needle, hay, jdx)) by {
                    assert forall|k: int| 0 <= k < jdx.len() implies hay[#[trigger] jdx[k]] == needle[k] by {
                        if k > 0 {
                            assert(jdx[k] == idx.map_values(|k: int| k + 1)[k - 1]);
                            assert(needle.drop_first()[k - 1] == needle[k]);
                        }
                    }
                    assert forall|k: int| 0 <= k < jdx.len() implies 0 <= #[trigger] jdx[k] < hay.len() by {
                        if k > 0 {
                            assert(jdx[k] == idx.map_values(|k: int| k + 1)[k - 1]);
                        }
                    }
                    assert forall|k: int, l: int| 0 <= k < l < jdx.len() implies #[trigger] jdx[k]
                        < #[trigger] jdx[l] by {
                        assert(jdx[l] == idx.map_values(|k: int| k + 1)[l - 1]);
                        if k > 0 {
                            assert(jdx[k] == idx.map_values(|k: int| k + 1)[k - 1]);
                        }
                    }
                }
            }
        } else {
            lemma_subsequence_embeds(needle, hay.drop_first());
            if is_subsequence_of(needle, hay) {
                let idx = choose|idx: Seq<int>| embeds(needle, hay.drop_first(), idx);
                lemma_embeds_shift(needle, hay, idx);
            }
        }
    }
}

proof fn lemma_embeds_subsequence(needle: Seq<SpecToken>, hay: Seq<SpecToken>, idx: Seq<int>)
    requires
        embeds(needle, hay, idx),
    ensures
        is_subsequence_of(needle, hay),
    decreases hay.len(),
{
    if needle.len() > 0 {
        assert(0 <= idx[0] < hay.len());
        let jdx = idx.map_values(|k: int| k - 1);
        if needle[0] == hay[0] {
            let tail = jdx.drop_first();
            assert(embeds(needle.drop_first(), hay.drop_first(), tail)) by {
                assert forall|k: int| 0 <= k < tail.len() implies 0 <= #[trigger] tail[k] < hay.len() - 1 by {
                    assert(tail[k] == idx[k + 1] - 1);
                    assert(idx[0] < idx[k + 1]);
                }
                assert forall|k: int| 0 <= k < tail.len() implies hay.drop_first()[#[trigger] tail[k]]
                    == needle.drop_first()[k] by {
                    assert(tail[k] == idx[k + 1] - 1);
                    assert(idx[0] < idx[k + 1]);
                    assert(hay[idx[k + 1]] == needle[k + 1]);
                }
                assert forall|k: int, l: int| 0 <= k < l < tail.len() implies #[trigger] tail[k]
                    < #[trigger] tail[l] by {
                    assert(tail[k] == idx[k + 1] - 1 && tail[l] == idx[l + 1] - 1);
                    assert(idx[k + 1] < idx[l + 1]);
                }
            }
            lemma_embeds_subsequence(needle.drop_first(), hay.drop_first(), tail);
        } else {
            assert(hay[idx[0]] == needle[0]);
            assert(idx[0] != 0);
            assert(embeds(needle, hay.drop_first(), jdx)) by {
                assert forall|k: int| 0 <= k < jdx.len() implies 0 <= #[trigger] jdx[k] < hay.len() - 1 by {
                    assert(jdx[k] == idx[k] - 1);
                    if k > 0 {
                        assert(idx[0] < idx[k]);
                    }
                }
                assert forall|k: int| 0 <= k < jdx.len() implies hay.drop_first()[#[trigger] jdx[k]]
                    == needle[k] by {
                    assert(jdx[k] == idx[k] - 1);
                    if k > 0 {
                        assert(idx[0] < idx[k]);
                    }
                    assert(hay[idx[k]] == needle[k]);
                }
                assert forall|k: int, l: int| 0 <= k < l < jdx.len() implies #[trigger] jdx[k]
                    < #[trigger] jdx[l] by {
                    assert(jdx[k] == idx[k] - 1 && jdx[l] == idx[l] - 1);
                    assert(idx[k] < idx[l]);
                }
            }
            lemma_embeds_subsequence(needle, hay.drop_first(), jdx);
        }
    }
}

/// The order check of `insert_many_templates` asks for a subsequence in the
/// usual sense: the tags of `needle` occur in `hay` at increasing positions,
/// with any tokens allowed between them.
pub proof fn law_subsequence_is_ordered_embedding(needle: Seq<SpecToken>, hay: Seq<SpecToken>)
    ensures
        is_subsequence_of(needle, hay) <==> exists|idx: Seq<int>| embeds(needle, hay, idx),
{
    lemma_subsequence_embeds(needle, hay);
    if exists|idx: Seq<int>| embeds(needle, hay, idx) {
        let idx = choose|idx: Seq<int>| embeds(needle, hay, idx);
        lemma_embeds_subsequence(needle, hay, idx);
    }
}

/// A variable counts as unset exactly when its value is the empty text (a
/// value of white space only is set), and a context is set exactly when every
/// variable has a non-empty value.
pub proof fn law_unset_means_empty_value(m: Map<Seq<char>, Seq<char>>, k: Seq<char>)
    ensures
        unset_names(m).contains(k) <==> (m.dom().contains(k) && m[k] == Seq::<char>::empty()),
        unset_names(m) == Set::<Seq<char>>::empty() <==> forall|j: Seq<char>|
            #[trigger] m.dom().contains(j) ==> m[j].len() > 0,
{
    if m.dom().contains(k) && m[k].len() == 0 {
        assert(m[k] =~= Seq::<char>::empty());
    }
    if unset_names(m) == Set::<Seq<char>>::empty() {
        assert forall|j: Seq<char>| #[trigger] m.dom().contains(j) implies m[j].len() > 0 by {
            assert(!unset_names(m).contains(j));
        }
    }
    if forall|j: Seq<char>| #[trigger] m.dom().contains(j) ==> m[j].len() > 0 {
        assert(unset_names(m) =~= Set::<Seq<char>>::empty());
    }
}

/// Partial processing works token by token: the `i`-th token of the result is
/// the literal holding the context's value where the `i`-th token is a tag
/// whose name the context has, and is the token unchanged otherwise.
pub proof fn law_partial_process_each_token(ts: Seq<SpecToken>, ctx: Map<Seq<char>, Seq<char>>, i: int)
    requires
        0 <= i < ts.len(),
    ensures
        substitute_all(ts, ctx).len() == ts.len(),
        substitute_all(ts, ctx)[i] == match ts[i] {
            SpecToken::Tag(n) => if ctx.dom().contains(n) {
                SpecToken::Literal(ctx[n])
            } else {
                ts[i]
            },
            SpecToken::Literal(_) => ts[i],
        },
{
}

/// The tags of a template are taken token by token, in order: those of two
/// parts one after the other are the tags of each in turn, a tag is its own
/// only tag and a literal has none.
pub proof fn law_tags_of_each_token(a: Seq<SpecToken>, b: Seq<SpecToken>, x: Seq<char>, n: Seq<char>)
    ensures
        tags_in(a + b) == tags_in(a) + tags_in(b),
        tags_in(seq![SpecToken::Tag(n)]) == seq![SpecToken::Tag(n)],
        tags_in(seq![SpecToken::Literal(x)]) == Seq::<SpecToken>::empty(),
{
    Seq::<SpecToken>::filter_distributes_over_add(a, b, |t: SpecToken| is_tag_token(t));
    reveal_with_fuel(Seq::<SpecToken>::filter, 2);
    assert(tags_in(a + b) == tags_in(a) + tags_in(b));
    assert(seq![SpecToken::Tag(n)].drop_last() =~= Seq::<SpecToken>::empty());
    assert(seq![SpecToken::Literal(x)].drop_last() =~= Seq::<SpecToken>::empty());
    assert(tags_in(seq![SpecToken::Tag(n)]) =~= seq![SpecToken::Tag(n)]);
    assert(tags_in(seq![SpecToken::Literal(x)]) =~= Seq::<SpecToken>::empty());
}

proof fn lemma_last_insertion_found(ps: Seq<(SpecToken, Seq<SpecToken>)>, t: SpecToken, j: int)
    requires
        0 <= j < ps.len(),
        ps[j].0 == t,
        forall|l: int| j < l < ps.len() ==> (#[trigger] ps[l]).0 != t,
    ensures
        last_insertion(ps, t) == Some(ps[j].1),
    decreases ps.len(),
{
    if j < ps.len() - 1 {
        let q = ps.drop_last();
        assert(ps.last() == ps[ps.len() - 1]);
        assert forall|l: int| j < l < q.len() implies (#[trigger] q[l]).0 != t by {
            assert(q[l] == ps[l]);
        }
        assert(q[j] == ps[j]);
        lemma_last_insertion_found(q, t, j);
    }
}

proof fn lemma_last_insertion_absent(ps: Seq<(SpecToken, Seq<SpecToken>)>, t: SpecToken)
    requires
        forall|l: int| 0 <= l < ps.len() ==> (#[trigger] ps[l]).0 != t,
    ensures
        last_insertion(ps, t) is None,
    decreases ps.len(),
{
    if ps.len() > 0 {
        let q = ps.drop_last();
        assert(ps.last() == ps[ps.len() - 1]);
        assert forall|l: int| 0 <= l < q.len() implies (#[trigger] q[l]).0 != t by {
            assert(q[l] == ps[l]);
        }
        lemma_last_insertion_absent(q, t);
    }
}

/// Of several pairs with the same tag, the last one says what replaces it,
/// and a token that no pair names is replaced by nothing.
pub proof fn law_last_pair_counts(ps: Seq<(SpecToken, Seq<SpecToken>)>, t: SpecToken, j: int)
    ensures
        0 <= j < ps.len() && ps[j].0 == t && (forall|l: int| j < l < ps.len() ==> (#[trigger] ps[l]).0
            != t) ==> last_insertion(ps, t) == Some(ps[j].1),
        (forall|l: int| 0 <= l < ps.len() ==> (#[trigger] ps[l]).0 != t) ==> last_insertion(ps, t) is None,
{
    if 0 <= j < ps.len() && ps[j].0 == t && (forall|l: int| j < l < ps.len() ==> (#[trigger] ps[l]).0 != t) {
        lemma_last_insertion_found(ps, t, j);
    }
    if forall|l: int| 0 <= l < ps.len() ==> (#[trigger] ps[l]).0 != t {
        lemma_last_insertion_absent(ps, t);
    }
}

proof fn lemma_replace_token_concat(a: Seq<SpecToken>, b: Seq<SpecToken>, tag: SpecToken, ins: Seq<SpecToken>)
    ensures
        replace_token(a + b, tag, ins) == replace_token(a, tag, ins) + replace_token(b, tag, ins),
    decreases b.len(),
{
    if b.len() == 0 {
        assert(a + b =~= a);
        assert(replace_token(b, tag, ins) =~= Seq::<SpecToken>::empty());
        assert(replace_token(a, tag, ins) + replace_token(b, tag, ins) =~= replace_token(a, tag, ins));
    } else {
        lemma_replace_token_concat(a, b.drop_last(), tag, ins);
        assert((a + b).drop_last() =~= a + b.drop_last());
        assert((a + b).last() == b.last());
        assert(replace_token(a + b, tag, ins) =~= replace_token(a, tag, ins) + replace_token(b, tag, ins));
    }
}

proof fn lemma_insert_all_concat(a: Seq<SpecToken>, b: Seq<SpecToken>, ps: Seq<(SpecToken, Seq<SpecToken>)>)
    ensures
        insert_all(a + b, ps) == insert_all(a, ps) + insert_all(b, ps),
    decreases b.len(),
{
    if b.len() == 0 {
        assert(a + b =~= a);
        assert(insert_all(b, ps) =~= Seq::<SpecToken>::empty());
        assert(insert_all(a, ps) + insert_all(b, ps) =~= insert_all(a, ps));
    } else {
        lemma_insert_all_concat(a, b.drop_last(), ps);
        assert((a + b).drop_last() =~= a + b.drop_last());
        assert((a + b).last() == b.last());
        assert(insert_all(a + b, ps) =~= insert_all(a, ps) + insert_all(b, ps));
    }
}

/// Inserting works token by token: the result for two parts is the results
/// for each in turn; a token equal to the tag becomes the inserted tokens and
/// any other token stays; with many pairs, a token that a pair names becomes
/// what the last such pair inserts, and any other token stays.
pub proof fn law_insert_each_token(
    a: Seq<SpecToken>,
    b: Seq<SpecToken>,
    t: SpecToken,
    tag: SpecToken,
    ins: Seq<SpecToken>,
    ps: Seq<(SpecToken, Seq<SpecToken>)>,
)
    ensures
        replace_token(a + b, tag, ins) == replace_token(a, tag, ins) + replace_token(b, tag, ins),
        replace_token(seq![t], tag, ins) == if t == tag {
            ins
        } else {
            seq![t]
        },
        insert_all(a + b, ps) == insert_all(a, ps) + insert_all(b, ps),
        insert_all(seq![t], ps) == match last_insertion(ps, t) {
            Some(inserted) => inserted,
            None => seq![t],
        },
{
    lemma_replace_token_concat(a, b, tag, ins);
    lemma_insert_all_concat(a, b, ps);
    assert(seq![t].drop_last() =~= Seq::<SpecToken>::empty());
    assert(seq![t].last() == t);
    assert(replace_token(Seq::<SpecToken>::empty(), tag, ins) =~= Seq::<SpecToken>::empty());
    assert(insert_all(Seq::<SpecToken>::empty(), ps) =~= Seq::<SpecToken>::empty());
    assert(Seq::<SpecToken>::empty() + ins =~= ins);
    assert(Seq::<SpecToken>::empty() + seq![t] =~= seq![t]);
    if let Some(inserted) = last_insertion(ps, t) {
        assert(Seq::<SpecToken>::empty() + inserted =~= inserted);
    }
    assert(replace_token(seq![t], tag, ins) =~= (if t == tag { ins } else { seq![t] }));
    assert(insert_all(seq![t], ps) =~= match last_insertion(ps, t) {
        Some(inserted) => inserted,
        None => seq![t],
    });
}

/// Of several bindings of a name, the last one gives its value, and a name
/// that no binding binds has none: what `from_list`, `set_variables` and
/// `tags_rename` go by.
pub proof fn law_bindings_last_wins(ps: Seq<Binding>, k: Seq<char>, j: int)
    ensures
        to_map(ps).dom().contains(k) <==> exists|l: int| 0 <= l < ps.len() && (#[trigger] ps[l]).0 == k,
        0 <= j < ps.len() && ps[j].0 == k && (forall|l: int| j < l < ps.len() ==> (#[trigger] ps[l]).0
            != k) ==> to_map(ps)[k] == ps[j].1,
{
    lemma_to_map_dom(ps);
    if 0 <= j < ps.len() && ps[j].0 == k && (forall|l: int| j < l < ps.len() ==> (#[trigger] ps[l]).0 != k) {
        lemma_to_map_last(ps, j);
    }
}

/// The context that `from_template` and `from_tags_list` build binds exactly
/// the given names, each to the empty text; the names of a template's tags
/// are those of the tags that occur in it.
pub proof fn law_blank_context(names: Set<Seq<char>>, ts: Seq<SpecToken>, k: Seq<char>)
    ensures
        blank(names).dom().contains(k) <==> names.contains(k),
        names.contains(k) ==> blank(names)[k] == Seq::<char>::empty(),
        tag_names(ts).contains(k) <==> exists|i: int| 0 <= i < ts.len() && ts[i] == SpecToken::Tag(k),
{
}

/// Whether `r` occurs somewhere in `x`.
pub open spec fn occurs_in(x: Seq<char>, r: Seq<char>) -> bool {
    exists|l: int| #[trigger] occurs_at(x, r, l)
}

/// Whether every literal among `ts` is non-empty and, where `r` is not empty,
/// holds no occurrence of `r`.
pub open spec fn literals_split_at(ts: Seq<SpecToken>, r: Seq<char>) -> bool {
    forall|i: int|
        0 <= i < ts.len() && (#[trigger] ts[i]) is Literal ==> ts[i]->Literal_0.len() > 0 && (r.len()
            > 0 ==> !occurs_in(ts[i]->Literal_0, r))
}

proof fn lemma_literals_split_at_concat(a: Seq<SpecToken>, b: Seq<SpecToken>, r: Seq<char>)
    requires
        literals_split_at(a, r),
        literals_split_at(b, r),
    ensures
        literals_split_at(a + b, r),
{
    assert forall|i: int| 0 <= i < (a + b).len() && (#[trigger] (a + b)[i]) is Literal implies (a
        + b)[i]->Literal_0.len() > 0 && (r.len() > 0 ==> !occurs_in((a + b)[i]->Literal_0, r)) by {
        if i < a.len() {
            assert((a + b)[i] == a[i]);
        } else {
            assert((a + b)[i] == b[i - a.len()]);
        }
    }
}

proof fn lemma_no_occurrence_in_piece(s: Seq<char>, r: Seq<char>, start: int, end: int)
    requires
        r.len() > 0,
        0 <= start <= end <= s.len(),
        forall|l: int| start <= l && l + r.len() <= end ==> !occurs_at(s, r, l),
    ensures
        !occurs_in(s.subrange(start, end), r),
{
    let x = s.subrange(start, end);
    assert forall|l: int| !occurs_at(x, r, l) by {
        if occurs_at(x, r, l) {
            assert(x.subrange(l, l + r.len()) =~= s.subrange(start + l, start + l + r.len()));
            assert(occurs_at(s, r, start + l));
        }
    }
}

proof fn lemma_pieces_split_at(s: Seq<char>, r: Seq<char>, name: Seq<char>, start: int)
    requires
        r.len() > 0,
        0 <= start <= s.len(),
    ensures
        literals_split_at(pieces_from(s, r, name, start), r),
    decreases s.len() - start,
{
    lemma_find_from(s, r, start);
    match find_from(s, r, start) {
        None => {
            let x = s.subrange(start, s.len() as int);
            lemma_no_occurrence_in_piece(s, r, start, s.len() as int);
            assert(literals_split_at(literal_unless_empty(x), r));
        },
        Some(j) => {
            let x = s.subrange(start, j);
            lemma_no_occurrence_in_piece(s, r, start, j);
            assert(literals_split_at(literal_unless_empty(x), r));
            assert(literals_split_at(seq![SpecToken::Tag(name)], r));
            lemma_pieces_split_at(s, r, name, j + r.len());
            lemma_literals_split_at_concat(literal_unless_empty(x), seq![SpecToken::Tag(name)], r);
            lemma_literals_split_at_concat(
                literal_unless_empty(x) + seq![SpecToken::Tag(name)],
                pieces_from(s, r, name, j + r.len()),
                r,
            );
        },
    }
}

proof fn lemma_around_chars_split_at(s: Seq<char>, name: Seq<char>)
    ensures
        literals_split_at(around_chars(s, name), Seq::<char>::empty()),
    decreases s.len(),
{
    if s.len() > 0 {
        lemma_around_chars_split_at(s.drop_last(), name);
        let tail = seq![SpecToken::Literal(seq![s.last()]), SpecToken::Tag(name)];
        assert(literals_split_at(tail, Seq::<char>::empty()));
        lemma_literals_split_at_concat(around_chars(s.drop_last(), name), tail, Seq::<char>::empty());
    } else {
        assert(literals_split_at(seq![SpecToken::Tag(name)], Seq::<char>::empty()));
    }
}

/// `add_tag` splits literals at the replaced text and drops what is left
/// empty: every literal that it produces is non-empty and, where the replaced
/// text is not empty, holds no occurrence of it; every tag that it produces
/// is a tag of the template or a tag named `name`.
pub proof fn law_add_tag_literals_split(ts: Seq<SpecToken>, r: Seq<char>, name: Seq<char>)
    ensures
        literals_split_at(split_all(ts, r, name), r),
        forall|i: int| 0 <= i < split_all(ts, r, name).len() && (#[trigger] split_all(ts, r, name)[i])
            is Tag ==> split_all(ts, r, name)[i] == SpecToken::Tag(name) || ts.contains(split_all(ts, r, name)[i]),
{
    lemma_split_all_facts(ts, r, name);
}

/// Whether every tag among `ts` is named `name`.
pub open spec fn tags_named(ts: Seq<SpecToken>, name: Seq<char>) -> bool {
    forall|i: int| 0 <= i < ts.len() && (#[trigger] ts[i]) is Tag ==> ts[i] == SpecToken::Tag(name)
}

proof fn lemma_tags_named_concat(a: Seq<SpecToken>, b: Seq<SpecToken>, name: Seq<char>)
    requires
        tags_named(a, name),
        tags_named(b, name),
    ensures
        tags_named(a + b, name),
{
    assert forall|i: int| 0 <= i < (a + b).len() && (#[trigger] (a + b)[i]) is Tag implies (a
        + b)[i] == SpecToken::Tag(name) by {
        if i < a.len() {
            assert((a + b)[i] == a[i]);
        } else {
            assert((a + b)[i] == b[i - a.len()]);
        }
    }
}

proof fn lemma_pieces_tags(s: Seq<char>, r: Seq<char>, name: Seq<char>, start: int)
    requires
        0 <= start <= s.len(),
    ensures
        tags_named(pieces_from(s, r, name, start), name),
    decreases s.len() - start,
{
    if r.len() > 0 {
        lemma_find_from(s, r, start);
        match find_from(s, r, start) {
            None => {
                assert(tags_named(literal_unless_empty(s.subrange(start, s.len() as int)), name));
            },
            Some(j) => {
                let x = s.subrange(start, j);
                assert(tags_named(literal_unless_empty(x), name));
                assert(tags_named(seq![SpecToken::Tag(name)], name));
                lemma_pieces_tags(s, r, name, j + r.len());
                lemma_tags_named_concat(literal_unless_empty(x), seq![SpecToken::Tag(name)], name);
                lemma_tags_named_concat(
                    literal_unless_empty(x) + seq![SpecToken::Tag(name)],
                    pieces_from(s, r, name, j + r.len()),
                    name,
                );
            },
        }
    }
}

proof fn lemma_around_chars_tags(s: Seq<char>, name: Seq<char>)
    ensures
        tags_named(around_chars(s, name), name),
    decreases s.len(),
{
    if s.len() > 0 {
        lemma_around_chars_tags(s.drop_last(), name);
        let tail = seq![SpecToken::Literal(seq![s.last()]), SpecToken::Tag(name)];
        assert(tags_named(tail, name));
        lemma_tags_named_concat(around_chars(s.drop_last(), name), tail, name);
    } else {
        assert(tags_named(seq![SpecToken::Tag(name)], name));
    }
}

proof fn lemma_split_token_tags(text: Seq<char>, r: Seq<char>, name: Seq<char>)
    ensures
        tags_named(split_token(SpecToken::Literal(text), r, name), name),
{
    if r.len() == 0 {
        lemma_around_chars_tags(text, name);
    } else {
        lemma_pieces_tags(text, r, name, 0);
    }
}

proof fn lemma_split_all_facts(ts: Seq<SpecToken>, r: Seq<char>, name: Seq<char>)
    ensures
        literals_split_at(split_all(ts, r, name), r),
        forall|i: int| 0 <= i < split_all(ts, r, name).len() && (#[trigger] split_all(ts, r, name)[i])
            is Tag ==> split_all(ts, r, name)[i] == SpecToken::Tag(name) || ts.contains(split_all(ts, r, name)[i]),
    decreases ts.len(),
{
    if ts.len() == 0 {
        assert(split_all(ts, r, name) =~= Seq::<SpecToken>::empty());
    } else {
        let q = ts.drop_last();
        let t = ts.last();
        lemma_split_all_facts(q, r, name);
        let tail = split_token(t, r, name);
        match t {
            SpecToken::Tag(_) => {
                assert(literals_split_at(tail, r));
            },
            SpecToken::Literal(text) => {
                if r.len() == 0 {
                    lemma_around_chars_split_at(text, name);
                } else {
                    lemma_pieces_split_at(text, r, name, 0);
                }
                lemma_split_token_tags(text, r, name);
            },
        }
        lemma_literals_split_at_concat(split_all(q, r, name), tail, r);
        let all = split_all(ts, r, name);
        let head = split_all(q, r, name);
        assert(all == head + tail);
        assert forall|i: int| 0 <= i < all.len() && (#[trigger] all[i]) is Tag implies all[i]
            == SpecToken::Tag(name) || ts.contains(all[i]) by {
            if i < head.len() {
                assert(all[i] == head[i]);
                if q.contains(head[i]) {
                    let k = choose|k: int| 0 <= k < q.len() && q[k] == head[i];
                    assert(ts[k] == q[k]);
                }
            } else {
                assert(all[i] == tail[i - head.len()]);
                if t is Tag {
                    assert(ts[ts.len() - 1] == t);
                }
            }
        }
    }
}

/// The number that a sequence of decimal digits stands for.
pub open spec fn digits_value(ds: Seq<char>) -> int
    decreases ds.len(),
{
    if ds.len() == 0 {
        0
    } else {
        digits_value(ds.drop_last()) * 10 + (ds.last() as u32 - 48)
    }
}

/// The position in an error message is written in decimal: digits `0` to `9`
/// only, that stand for the number, without a leading zero except for zero.
pub proof fn law_decimal_reads_back(n: nat)
    ensures
        decimal(n).len() >= 1,
        forall|i: int| 0 <= i < decimal(n).len() ==> '0' <= #[trigger] decimal(n)[i] <= '9',
        digits_value(decimal(n)) == n,
        decimal(n)[0] == '0' ==> n == 0,
    decreases n,
{
    let d = n % 10;
    assert(((48 + d) as u32) as char as u32 == 48 + d) by {
        vstd::utf8::char_u32_cast(((48 + d) as u32) as char, (48 + d) as u32);
    };
    if n < 10 {
        assert(decimal(n) =~= seq![digit_char(n)]);
        assert(seq![digit_char(n)].drop_last() =~= Seq::<char>::empty());
        assert(digits_value(Seq::<char>::empty()) == 0);
        assert(d == n);
        assert(seq![digit_char(n)].last() == digit_char(n));
        assert(digits_value(decimal(n)) == 0 * 10 + (digit_char(n) as u32 - 48));
    } else {
        law_decimal_reads_back(n / 10);
        let head = decimal((n / 10) as nat);
        assert(decimal(n) == head.push(digit_char(d)));
        assert(head.push(digit_char(d)).drop_last() =~= head);
        assert forall|i: int| 0 <= i < decimal(n).len() implies '0' <= #[trigger] decimal(n)[i] <= '9' by {
            if i < head.len() {
                assert(decimal(n)[i] == head[i]);
            }
        }
        assert(decimal(n)[0] == head[0]);
        assert(n == (n / 10) * 10 + d);
        assert(head.push(digit_char(d)).last() == digit_char(d));
        assert(digits_value(decimal(n)) == digits_value(head) * 10 + (digit_char(d) as u32 - 48));
    }
}

} // verus!
