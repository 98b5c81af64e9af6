use vstd::prelude::*;
use crate::types::{Context, Template, Token, SpecToken};
use crate::variables::{
    Variables, Binding, to_map, names_unique, owned_bindings, borrowed_bindings, bind, unbind,
    lemma_to_map_take, lemma_to_map_dom, lemma_to_map_value,
};

verus! {

/// The views of a sequence of string slices.
pub open spec fn str_views(names: Seq<&str>) -> Seq<Seq<char>> {
    names.map_values(|n: &str| n@)
}

/// The views of a sequence of strings.
pub open spec fn string_views(names: Seq<String>) -> Seq<Seq<char>> {
    names.map_values(|n: String| n@)
}

/// The map that binds each of `names` to the empty value.
pub open spec fn blank(names: Set<Seq<char>>) -> Map<Seq<char>, Seq<char>> {
    Map::new(|k: Seq<char>| names.contains(k), |k: Seq<char>| Seq::<char>::empty())
}

/// The names of the tags among `ts`.
pub open spec fn tag_names(ts: Seq<SpecToken>) -> Set<Seq<char>> {
    Set::new(|n: Seq<char>| exists|i: int| 0 <= i < ts.len() && ts[i] == SpecToken::Tag(n))
}

/// The names whose value in `m` is empty.
pub open spec fn unset_names(m: Map<Seq<char>, Seq<char>>) -> Set<Seq<char>> {
    Set::new(|k: Seq<char>| m.dom().contains(k) && m[k].len() == 0)
}

fn context_of(es: Vec<(String, String)>) -> (r: Context)
    requires
        names_unique(owned_bindings(es@)),
    ensures
        r@ == to_map(owned_bindings(es@)),
{
    Context { variables: Variables::from_entries(es) }
}

/// Bind each of `pairs` in turn in a list of bindings without repeated names.
fn bind_all(es: &mut Vec<(String, String)>, pairs: &[(&str, &str)])
    requires
        names_unique(owned_bindings(old(es)@)),
    ensures
        names_unique(owned_bindings(final(es)@)),
        to_map(owned_bindings(final(es)@)) == to_map(owned_bindings(old(es)@)).union_prefer_right(
            to_map(borrowed_bindings(pairs@)),
        ),
{
    let ghost base = to_map(owned_bindings(es@));
    let ghost ps = borrowed_bindings(pairs@);
    let n = pairs.len();
    proof {
        assert(ps.take(0) =~= Seq::<Binding>::empty());
        assert(base.union_prefer_right(to_map(ps.take(0))) =~= base);
    }
    for i in 0..n
        invariant
            n == pairs@.len() == ps.len(),
            ps == borrowed_bindings(pairs@),
            names_unique(owned_bindings(es@)),
            to_map(owned_bindings(es@)) == base.union_prefer_right(to_map(ps.take(i as int))),
    {
        let (name, value) = pairs[i];
        bind(es, String::from_str(name), String::from_str(value));
        proof {
            lemma_to_map_take(ps, i as int);
            assert(to_map(owned_bindings(es@)) =~= base.union_prefer_right(to_map(ps.take(i + 1))));
        }
    }
    proof {
        assert(ps.take(n as int) =~= ps);
    }
}

/// Build an empty context.
pub fn init_context() -> (r: Context)
    ensures
        r@ == Map::<Seq<char>, Seq<char>>::empty(),
{
    Context { variables: Variables::new() }
}

/// Build a context from a list of tag-value pairs; of two pairs with the
/// same name, the later one counts.
pub fn from_list(pairs: &[(&str, &str)]) -> (r: Context)
    ensures
        r@ == to_map(borrowed_bindings(pairs@)),
{
    let mut es: Vec<(String, String)> = Vec::new();
    proof {
        assert(owned_bindings(es@) =~= Seq::<Binding>::empty());
    }
    bind_all(&mut es, pairs);
    proof {
        assert(Map::<Seq<char>, Seq<char>>::empty().union_prefer_right(
            to_map(borrowed_bindings(pairs@)),
        ) =~= to_map(borrowed_bindings(pairs@)));
    }
    context_of(es)
}

/// Populate with variables and/or update variables in the given context.
pub fn set_variables(pairs: &[(&str, &str)], context: &Context) -> (r: Context)
    ensures
        r@ == context@.union_prefer_right(to_map(borrowed_bindings(pairs@))),
{
    let mut es = context.variables.copy_entries();
    bind_all(&mut es, pairs);
    context_of(es)
}

/// Build an unset context from a list of tag names.
///
/// All variables will have empty values.
pub fn from_tags_list(tags: &[&str]) -> (r: Context)
    ensures
        r@ == blank(str_views(tags@).to_set()),
{
    let mut es: Vec<(String, String)> = Vec::new();
    let n = tags.len();
    let ghost names = str_views(tags@);
    proof {
        assert(owned_bindings(es@) =~= Seq::<Binding>::empty());
        assert(blank(names.take(0).to_set()) =~= Map::<Seq<char>, Seq<char>>::empty());
    }
    for i in 0..n
        invariant
            n == tags@.len() == names.len(),
            names == str_views(tags@),
            names_unique(owned_bindings(es@)),
            to_map(owned_bindings(es@)) == blank(names.take(i as int).to_set()),
    {
        bind(&mut es, String::from_str(tags[i]), String::new());
        proof {
            assert(names.take(i + 1) =~= names.take(i as int).push(names[i as int]));
            names.take(i as int).lemma_push_to_set_commute(names[i as int]);
            assert(to_map(owned_bindings(es@)) =~= blank(names.take(i + 1).to_set()));
        }
    }
    proof {
        assert(names.take(n as int) =~= names);
    }
    context_of(es)
}

/// Build an unset ad hoc context from the given template: its tags' names,
/// each with the empty value.
pub fn from_template(template: &Template) -> (r: Context)
    ensures
        r@ == blank(tag_names(template@)),
{
    let mut es: Vec<(String, String)> = Vec::new();
    let n = template.content.len();
    let ghost ts = template@;
    proof {
        assert(owned_bindings(es@) =~= Seq::<Binding>::empty());
        assert(blank(tag_names(ts.take(0))) =~= Map::<Seq<char>, Seq<char>>::empty());
    }
    for i in 0..n
        invariant
            n == template.content@.len() == ts.len(),
            ts == template@,
            names_unique(owned_bindings(es@)),
            to_map(owned_bindings(es@)) == blank(tag_names(ts.take(i as int))),
    {
        let ghost prev = ts.take(i as int);
        let ghost next = ts.take(i + 1);
        proof {
            assert(next =~= prev.push(ts[i as int]));
        }
        match &template.content[i] {
            Token::Tag(name) => {
                bind(&mut es, name.clone(), String::new());
                proof {
                    assert forall|k: Seq<char>| tag_names(next).contains(k) <==> (tag_names(
                        prev,
                    ).contains(k) || k == name@) by {
                        if tag_names(next).contains(k) {
                            let j = choose|j: int| 0 <= j < next.len() && next[j] == SpecToken::Tag(k);
                            if j < i {
                                assert(prev[j] == next[j]);
                            }
                        }
                        if tag_names(prev).contains(k) {
                            let j = choose|j: int| 0 <= j < prev.len() && prev[j] == SpecToken::Tag(k);
                            assert(next[j] == prev[j]);
                        }
                        if k == name@ {
                            assert(next[i as int] == SpecToken::Tag(k));
                        }
                    }
                    assert(to_map(owned_bindings(es@)) =~= blank(tag_names(next)));
                }
            },
            Token::Literal(_) => {
                proof {
                    assert forall|k: Seq<char>| tag_names(next).contains(k) <==> tag_names(
                        prev,
                    ).contains(k) by {
                        if tag_names(next).contains(k) {
                            let j = choose|j: int| 0 <= j < next.len() && next[j] == SpecToken::Tag(k);
                            if j < i {
                                assert(prev[j] == next[j]);
                            }
                        }
                        if tag_names(prev).contains(k) {
                            let j = choose|j: int| 0 <= j < prev.len() && prev[j] == SpecToken::Tag(k);
                            assert(next[j] == prev[j]);
                        }
                    }
                    assert(tag_names(next) =~= tag_names(prev));
                }
            },
        }
    }
    proof {
        assert(ts.take(n as int) =~= ts);
    }
    context_of(es)
}

/// Delete variables from a context by their names.
pub fn delete_variables(names: &[&str], context: &Context) -> (r: Context)
    ensures
        r@ == context@.remove_keys(str_views(names@).to_set()),
{
    let mut es = context.variables.copy_entries();
    let n = names.len();
    let ghost ns = str_views(names@);
    proof {
        assert(context@.remove_keys(ns.take(0).to_set()) =~= context@);
    }
    for i in 0..n
        invariant
            n == names@.len() == ns.len(),
            ns == str_views(names@),
            names_unique(owned_bindings(es@)),
            to_map(owned_bindings(es@)) == context@.remove_keys(ns.take(i as int).to_set()),
    {
        let name = String::from_str(names[i]);
        unbind(&mut es, &name);
        proof {
            assert(ns.take(i + 1) =~= ns.take(i as int).push(ns[i as int]));
            ns.take(i as int).lemma_push_to_set_commute(ns[i as int]);
            assert(to_map(owned_bindings(es@)) =~= context@.remove_keys(ns.take(i + 1).to_set()));
        }
    }
    proof {
        assert(ns.take(n as int) =~= ns);
    }
    context_of(es)
}

/// Get the list of the given context's variables: each name once, in the
/// order in which the context keeps its bindings.
pub fn variables_of(context: &Context) -> (r: Vec<String>)
    ensures
        string_views(r@) == context.variables.pairs().map_values(|p: Binding| p.0),
        string_views(r@).no_duplicates(),
        string_views(r@).to_set() == context@.dom(),
{
    context.variables.names()
}

/// Returns `true` if all variables of the given context are not empty.
pub fn is_set(context: &Context) -> (r: bool)
    ensures
        r == (unset_names(context@) == Set::<Seq<char>>::empty()),
{
    let n = context.variables.count();
    let ghost ps = context.variables.pairs();
    proof {
        lemma_to_map_dom(ps);
    }
    for i in 0..n
        invariant
            n == ps.len(),
            ps == context.variables.pairs(),
            names_unique(ps),
            forall|j: int| 0 <= j < i ==> (#[trigger] ps[j]).1.len() > 0,
    {
        if context.variables.value_at(i).as_str().is_empty() {
            proof {
                lemma_to_map_value(ps, i as int);
                assert(unset_names(context@).contains(ps[i as int].0));
            }
            return false;
        }
    }
    proof {
        assert forall|k: Seq<char>| !unset_names(context@).contains(k) by {
            if context@.dom().contains(k) {
                let j = choose|j: int| 0 <= j < ps.len() && (#[trigger] ps[j]).0 == k;
                lemma_to_map_value(ps, j);
            }
        }
        assert(unset_names(context@) =~= Set::<Seq<char>>::empty());
    }
    true
}

/// Build `Some` a (sub)context made of unset variables of the given context, or `None`.
pub fn unset_context(context: &Context) -> (r: Option<Context>)
    ensures
        r is None <==> unset_names(context@) == Set::<Seq<char>>::empty(),
        r matches Some(c) ==> c@ == context@.restrict(unset_names(context@)),
{
    let n = context.variables.count();
    let ghost ps = context.variables.pairs();
    let ghost unset = unset_names(context@);
    let mut es: Vec<(String, String)> = Vec::new();
    proof {
        lemma_to_map_dom(ps);
        assert(owned_bindings(es@) =~= Seq::<Binding>::empty());
        assert(to_map(ps.take(0)).restrict(unset) =~= Map::<Seq<char>, Seq<char>>::empty());
    }
    for i in 0..n
        invariant
            n == ps.len(),
            ps == context.variables.pairs(),
            unset == unset_names(context@),
            names_unique(ps),
            names_unique(owned_bindings(es@)),
            to_map(owned_bindings(es@)) == to_map(ps.take(i as int)).restrict(unset),
    {
        proof {
            lemma_to_map_take(ps, i as int);
            lemma_to_map_value(ps, i as int);
        }
        let value = context.variables.value_at(i);
        if value.as_str().is_empty() {
            bind(&mut es, context.variables.name_at(i).clone(), value.clone());
        }
        assert(to_map(owned_bindings(es@)) =~= to_map(ps.take(i + 1)).restrict(unset));
    }
    proof {
        assert(ps.take(n as int) =~= ps);
    }
    proof {
        lemma_to_map_dom(owned_bindings(es@));
    }
    let r = context_of(es);
    proof {
        assert(r@ =~= context@.restrict(unset));
        assert(r@.dom() =~= unset);
    }
    if r.variables.is_empty() {
        proof {
            unset.lemma_len0_is_empty();
        }
        None
    } else {
        Some(r)
    }
}

/// Join two contexts if they don't share variable names.
///
/// Returns `Ok` with the merged context if successful, or `Err` with the
/// shared variables, valued as in `first`, if there are conflicts.
pub fn join(first: &Context, second: &Context) -> (r: Result<Context, Context>)
    ensures
        r is Ok <==> first@.dom().disjoint(second@.dom()),
        r matches Ok(c) ==> c@ == first@.union_prefer_right(second@),
        r matches Err(c) ==> c@ == first@.restrict(second@.dom()),
{
    let n = first.variables.count();
    let ghost ps = first.variables.pairs();
    let ghost shared = second@.dom();
    let mut es: Vec<(String, String)> = Vec::new();
    proof {
        lemma_to_map_dom(ps);
        assert(owned_bindings(es@) =~= Seq::<Binding>::empty());
        assert(to_map(ps.take(0)).restrict(shared) =~= Map::<Seq<char>, Seq<char>>::empty());
    }
    for i in 0..n
        invariant
            n == ps.len(),
            ps == first.variables.pairs(),
            shared == second@.dom(),
            names_unique(owned_bindings(es@)),
            to_map(owned_bindings(es@)) == to_map(ps.take(i as int)).restrict(shared),
    {
        proof {
            lemma_to_map_take(ps, i as int);
        }
        let name = first.variables.name_at(i);
        if second.variables.contains_key(name.as_str()) {
            bind(&mut es, name.clone(), first.variables.value_at(i).clone());
        }
        assert(to_map(owned_bindings(es@)) =~= to_map(ps.take(i + 1)).restrict(shared));
    }
    proof {
        assert(ps.take(n as int) =~= ps);
    }
    proof {
        lemma_to_map_dom(owned_bindings(es@));
    }
    let intersection = context_of(es);
    if intersection.variables.is_empty() {
        proof {
            assert(intersection@.dom() =~= first@.dom().intersect(shared));
            intersection@.dom().lemma_len0_is_empty();
            assert(first@.dom().disjoint(shared)) by {
                assert forall|k: Seq<char>| first@.dom().contains(k) implies !shared.contains(k) by {
                    assert(!intersection@.dom().contains(k));
                }
            }
        }
        let mut all = first.variables.copy_entries();
        let m = second.variables.count();
        let ghost qs = second.variables.pairs();
        proof {
            assert(first@.union_prefer_right(to_map(qs.take(0))) =~= first@);
        }
        for j in 0..m
            invariant
                m == qs.len(),
                qs == second.variables.pairs(),
                names_unique(owned_bindings(all@)),
                to_map(owned_bindings(all@)) == first@.union_prefer_right(to_map(qs.take(j as int))),
        {
            proof {
                lemma_to_map_take(qs, j as int);
            }
            bind(&mut all, second.variables.name_at(j).clone(), second.variables.value_at(j).clone());
            assert(to_map(owned_bindings(all@)) =~= first@.union_prefer_right(to_map(qs.take(j + 1))));
        }
        proof {
            assert(qs.take(m as int) =~= qs);
        }
        Ok(context_of(all))
    } else {
        proof {
            if first@.dom().disjoint(shared) {
                assert(intersection@.dom() =~= Set::<Seq<char>>::empty());
            }
        }
        Err(intersection)
    }
}

/// A context with the variables of `context`, each with the empty value.
pub fn clear_values(context: &Context) -> (r: Context)
    ensures
        r@ == blank(context@.dom()),
{
    let n = context.variables.count();
    let ghost ps = context.variables.pairs();
    let mut es: Vec<(String, String)> = Vec::new();
    proof {
        lemma_to_map_dom(ps);
        assert(owned_bindings(es@) =~= Seq::<Binding>::empty());
        assert(to_map(ps.take(0)).dom() =~= Set::<Seq<char>>::empty());
        assert(to_map(Seq::<Binding>::empty()) =~= blank(Set::<Seq<char>>::empty()));
    }
    for i in 0..n
        invariant
            n == ps.len(),
            ps == context.variables.pairs(),
            names_unique(owned_bindings(es@)),
            to_map(owned_bindings(es@)) == blank(to_map(ps.take(i as int)).dom()),
    {
        proof {
            lemma_to_map_take(ps, i as int);
        }
        bind(&mut es, context.variables.name_at(i).clone(), String::new());
        assert(to_map(owned_bindings(es@)) =~= blank(to_map(ps.take(i + 1)).dom()));
    }
    proof {
        assert(ps.take(n as int) =~= ps);
    }
    context_of(es)
}

/// The text of a binding: its name, a colon, a space and its value.
pub open spec fn binding_text(b: Binding) -> Seq<char> {
    b.0 + ": "@ + b.1
}

/// The texts of bindings, separated by a comma and a space.
pub open spec fn bindings_text(ps: Seq<Binding>) -> Seq<char>
    decreases ps.len(),
{
    if ps.len() == 0 {
        Seq::empty()
    } else if ps.len() == 1 {
        binding_text(ps[0])
    } else {
        bindings_text(ps.drop_last()) + ", "@ + binding_text(ps.last())
    }
}

impl Context {
    /// The variables between braces, each as `name: value`, separated by
    /// commas, in the order in which they are kept.
    pub fn to_string(&self) -> (r: String)
        ensures
            r@ == "{"@ + bindings_text(self.variables.pairs()) + "}"@,
    {
        let n = self.variables.count();
        let ghost ps = self.variables.pairs();
        let mut body = String::new();
        proof {
            reveal_strlit(": ");
            reveal_strlit(", ");
            assert(bindings_text(ps.take(0)) =~= Seq::<char>::empty());
        }
        for i in 0..n
            invariant
                n == ps.len(),
                ps == self.variables.pairs(),
                body@ == bindings_text(ps.take(i as int)),
        {
            proof {
                assert(ps.take(i + 1).drop_last() =~= ps.take(i as int));
                assert(ps.take(i + 1).last() == ps[i as int]);
                if i == 0 {
                    assert(ps.take(1)[0] == ps[0]);
                }
            }
            if i > 0 {
                body.append(", ");
            }
            body.append(self.variables.name_at(i).as_str());
            body.append(": ");
            body.append(self.variables.value_at(i).as_str());
            assert(body@ =~= bindings_text(ps.take(i + 1)));
        }
        proof {
            assert(ps.take(n as int) =~= ps);
        }
        let mut r = String::from_str("{");
        r.append(body.as_str());
        r.append("}");
        r
    }
}

} // verus!
