use vstd::prelude::*;

verus! {

/// A name and its value, as characters.
pub type Binding = (Seq<char>, Seq<char>);

/// The map that a sequence of bindings describes, a later binding of a name
/// overriding an earlier one.
pub open spec fn to_map(ps: Seq<Binding>) -> Map<Seq<char>, Seq<char>>
    decreases ps.len(),
{
    if ps.len() == 0 {
        Map::empty()
    } else {
        to_map(ps.drop_last()).insert(ps.last().0, ps.last().1)
    }
}

/// Whether no name is bound twice.
pub open spec fn names_unique(ps: Seq<Binding>) -> bool {
    forall|i: int, j: int| 0 <= i < j < ps.len() ==> (#[trigger] ps[i]).0 != (#[trigger] ps[j]).0
}

/// The bindings that a sequence of owned pairs holds.
pub open spec fn owned_bindings(es: Seq<(String, String)>) -> Seq<Binding> {
    es.map_values(|e: (String, String)| (e.0@, e.1@))
}

/// The bindings that a sequence of borrowed pairs holds.
pub open spec fn borrowed_bindings(ps: Seq<(&str, &str)>) -> Seq<Binding> {
    ps.map_values(|p: (&str, &str)| (p.0@, p.1@))
}

/// The variables of a context: a finite map from names to values, kept as a
/// list of bindings in which no name occurs twice.
#[derive(Debug)]
pub struct Variables {
    entries: Vec<(String, String)>,
}

impl Variables {
    #[verifier::type_invariant]
    spec fn well_formed(self) -> bool {
        names_unique(owned_bindings(self.entries@))
    }

    /// The bindings, in the order in which they are kept.
    pub closed spec fn pairs(self) -> Seq<Binding> {
        owned_bindings(self.entries@)
    }
}

impl View for Variables {
    type V = Map<Seq<char>, Seq<char>>;

    open spec fn view(&self) -> Map<Seq<char>, Seq<char>> {
        to_map(self.pairs())
    }
}

/// The names that a sequence of bindings binds.
pub proof fn lemma_to_map_dom(ps: Seq<Binding>)
    ensures
        to_map(ps).dom().finite(),
        forall|k: Seq<char>|
            to_map(ps).dom().contains(k) <==> exists|i: int| 0 <= i < ps.len() && (#[trigger] ps[i]).0 == k,
    decreases ps.len(),
{
    if ps.len() > 0 {
        let q = ps.drop_last();
        lemma_to_map_dom(q);
        assert forall|k: Seq<char>|
            to_map(ps).dom().contains(k) <==> exists|i: int| 0 <= i < ps.len() && (#[trigger] ps[i]).0 == k by {
            if to_map(ps).dom().contains(k) {
                if k != ps.last().0 {
                    let i = choose|i: int| 0 <= i < q.len() && (#[trigger] q[i]).0 == k;
                    assert(ps[i] == q[i]);
                }
            }
            if exists|i: int| 0 <= i < ps.len() && (#[trigger] ps[i]).0 == k {
                let i = choose|i: int| 0 <= i < ps.len() && (#[trigger] ps[i]).0 == k;
                if i < ps.len() - 1 {
                    assert(q[i] == ps[i]);
                }
            }
        }
    }
}

/// In a list of bindings without repeated names, each binding gives its name's value.
pub proof fn lemma_to_map_value(ps: Seq<Binding>, i: int)
    requires
        names_unique(ps),
        0 <= i < ps.len(),
    ensures
        to_map(ps).dom().contains(ps[i].0),
        to_map(ps)[ps[i].0] == ps[i].1,
    decreases ps.len(),
{
    let q = ps.drop_last();
    if i < ps.len() - 1 {
        assert(q[i] == ps[i]);
        assert(names_unique(q)) by {
            assert forall|a: int, b: int| 0 <= a < b < q.len() implies (#[trigger] q[a]).0 != (#[trigger] q[b]).0 by {
                assert(q[a] == ps[a] && q[b] == ps[b]);
            }
        }
        lemma_to_map_value(q, i);
        assert(ps[i].0 != ps[ps.len() - 1].0);
    }
}

/// A list of bindings without repeated names binds as many names as it has bindings.
pub proof fn lemma_to_map_len(ps: Seq<Binding>)
    requires
        names_unique(ps),
    ensures
        to_map(ps).dom().len() == ps.len(),
    decreases ps.len(),
{
    if ps.len() > 0 {
        let q = ps.drop_last();
        assert(names_unique(q)) by {
            assert forall|a: int, b: int| 0 <= a < b < q.len() implies (#[trigger] q[a]).0 != (#[trigger] q[b]).0 by {
                assert(q[a] == ps[a] && q[b] == ps[b]);
            }
        }
        lemma_to_map_len(q);
        lemma_to_map_dom(q);
        if to_map(q).dom().contains(ps.last().0) {
            let i = choose|i: int| 0 <= i < q.len() && (#[trigger] q[i]).0 == ps.last().0;
            assert(ps[i] == q[i]);
        }
        assert(to_map(ps).dom() == to_map(q).dom().insert(ps.last().0));
    }
}

/// The index of the binding of `name`, if any.
fn find_name(es: &Vec<(String, String)>, name: &String) -> (r: Option<usize>)
    ensures
        r matches Some(i) ==> i < es@.len() && owned_bindings(es@)[i as int].0 == name@,
        r is None ==> forall|i: int| 0 <= i < es@.len() ==> (#[trigger] owned_bindings(es@)[i]).0 != name@,
{
    let n = es.len();
    for i in 0..n
        invariant
            n == es@.len(),
            forall|j: int| 0 <= j < i ==> (#[trigger] owned_bindings(es@)[j]).0 != name@,
    {
        if es[i].0 == *name {
            return Some(i);
        }
    }
    None
}

/// Bind `name` to `value` in a list of bindings without repeated names.
pub(crate) fn bind(es: &mut Vec<(String, String)>, name: String, value: String)
    requires
        names_unique(owned_bindings(old(es)@)),
    ensures
        names_unique(owned_bindings(final(es)@)),
        to_map(owned_bindings(final(es)@)) == to_map(owned_bindings(old(es)@)).insert(name@, value@),
{
    let ghost ps = owned_bindings(es@);
    let ghost k = name@;
    let ghost v = value@;
    match find_name(es, &name) {
        Some(i) => {
            es.set(i, (name, value));
            proof {
            let qs = owned_bindings(es@);
            assert(qs =~= ps.update(i as int, (k, v)));
            assert(names_unique(qs)) by {
                assert forall|a: int, b: int| 0 <= a < b < qs.len() implies (#[trigger] qs[a]).0 != (#[trigger] qs[b]).0 by {
                    assert(qs[a].0 == ps[a].0 && qs[b].0 == ps[b].0);
                }
            }
            lemma_to_map_dom(ps);
            lemma_to_map_dom(qs);
            assert(to_map(qs) =~= to_map(ps).insert(k, v)) by {
                assert forall|key: Seq<char>| #[trigger] to_map(qs).dom().contains(key) <==> to_map(ps).insert(k, v).dom().contains(key) by {
                    if exists|j: int| 0 <= j < qs.len() && (#[trigger] qs[j]).0 == key {
                        let j = choose|j: int| 0 <= j < qs.len() && (#[trigger] qs[j]).0 == key;
                        assert(ps[j].0 == key);
                    }
                    if exists|j: int| 0 <= j < ps.len() && (#[trigger] ps[j]).0 == key {
                        let j = choose|j: int| 0 <= j < ps.len() && (#[trigger] ps[j]).0 == key;
                        assert(qs[j].0 == key);
                    }
                    if key == k {
                        assert(qs[i as int].0 == key);
                    }
                }
                assert forall|key: Seq<char>| #[trigger] to_map(qs).dom().contains(key) implies to_map(qs)[key] == to_map(ps).insert(k, v)[key] by {
                    let j = choose|j: int| 0 <= j < qs.len() && (#[trigger] qs[j]).0 == key;
                    lemma_to_map_value(qs, j);
                    if j != i {
                        lemma_to_map_value(ps, j);
                    }
                }
            }
            }
        },
        None => {
            es.push((name, value));
            proof {
            let qs = owned_bindings(es@);
            assert(qs =~= ps.push((k, v)));
            assert(qs.drop_last() =~= ps);
            assert(names_unique(qs)) by {
                assert forall|a: int, b: int| 0 <= a < b < qs.len() implies (#[trigger] qs[a]).0 != (#[trigger] qs[b]).0 by {
                    if b < ps.len() {
                        assert(qs[a] == ps[a] && qs[b] == ps[b]);
                    } else {
                        assert(qs[a] == ps[a]);
                    }
                }
            }
            }
        },
    }
}

/// Remove the binding of `name` from a list of bindings without repeated names.
pub(crate) fn unbind(es: &mut Vec<(String, String)>, name: &String)
    requires
        names_unique(owned_bindings(old(es)@)),
    ensures
        names_unique(owned_bindings(final(es)@)),
        to_map(owned_bindings(final(es)@)) == to_map(owned_bindings(old(es)@)).remove(name@),
{
    let ghost ps = owned_bindings(es@);
    let ghost k = name@;
    proof {
        lemma_to_map_dom(ps);
    }
    match find_name(es, name) {
        Some(i) => {
            es.remove(i);
            proof {
                let qs = owned_bindings(es@);
                assert(qs =~= ps.remove(i as int));
                assert(names_unique(qs)) by {
                    assert forall|a: int, b: int| 0 <= a < b < qs.len() implies (#[trigger] qs[a]).0
                        != (#[trigger] qs[b]).0 by {
                        let a2 = if a < i { a } else { a + 1 };
                        let b2 = if b < i { b } else { b + 1 };
                        assert(qs[a] == ps[a2] && qs[b] == ps[b2]);
                    }
                }
                lemma_to_map_dom(qs);
                assert(to_map(qs) =~= to_map(ps).remove(k)) by {
                    assert forall|key: Seq<char>| #[trigger] to_map(qs).dom().contains(key)
                        <==> to_map(ps).remove(k).dom().contains(key) by {
                        if exists|j: int| 0 <= j < qs.len() && (#[trigger] qs[j]).0 == key {
                            let j = choose|j: int| 0 <= j < qs.len() && (#[trigger] qs[j]).0 == key;
                            let j2 = if j < i { j } else { j + 1 };
                            assert(qs[j] == ps[j2]);
                            assert(ps[j2].0 != ps[i as int].0);
                        }
                        if to_map(ps).remove(k).dom().contains(key) {
                            let j = choose|j: int| 0 <= j < ps.len() && (#[trigger] ps[j]).0 == key;
                            assert(j != i);
                            let j2 = if j < i { j } else { j - 1 };
                            assert(qs[j2] == ps[j]);
                        }
                    }
                    assert forall|key: Seq<char>| #[trigger] to_map(qs).dom().contains(key) implies to_map(
                        qs,
                    )[key] == to_map(ps).remove(k)[key] by {
                        let j = choose|j: int| 0 <= j < qs.len() && (#[trigger] qs[j]).0 == key;
                        let j2 = if j < i { j } else { j + 1 };
                        assert(qs[j] == ps[j2]);
                        lemma_to_map_value(qs, j);
                        lemma_to_map_value(ps, j2);
                    }
                }
            }
        },
        None => {
            assert(to_map(ps).remove(k) =~= to_map(ps));
        },
    }
}

impl Variables {
    /// An empty set of variables.
    pub fn new() -> (r: Variables)
        ensures
            r@ == Map::<Seq<char>, Seq<char>>::empty(),
    {
        let r = Variables { entries: Vec::new() };
        assert(r.pairs() =~= Seq::<Binding>::empty());
        r
    }

    /// The variables whose bindings are those of `entries`.
    pub(crate) fn from_entries(entries: Vec<(String, String)>) -> (r: Variables)
        requires
            names_unique(owned_bindings(entries@)),
        ensures
            r.pairs() == owned_bindings(entries@),
    {
        Variables { entries }
    }

    /// A copy of the bindings, in the order in which they are kept.
    pub(crate) fn copy_entries(&self) -> (r: Vec<(String, String)>)
        ensures
            owned_bindings(r@) == self.pairs(),
            names_unique(owned_bindings(r@)),
    {
        proof {
            use_type_invariant(self);
        }
        let mut r: Vec<(String, String)> = Vec::new();
        let n = self.entries.len();
        for i in 0..n
            invariant
                n == self.entries@.len(),
                r@.len() == i,
                owned_bindings(r@) == owned_bindings(self.entries@).take(i as int),
        {
            let ghost before = r@;
            let name = self.entries[i].0.clone();
            let value = self.entries[i].1.clone();
            r.push((name, value));
            assert(r@ == before.push((name, value)));
            assert(owned_bindings(r@)[i as int] == owned_bindings(self.entries@)[i as int]);
            assert(owned_bindings(r@) =~= owned_bindings(self.entries@).take(i + 1));
        }
        assert(owned_bindings(self.entries@).take(n as int) =~= owned_bindings(self.entries@));
        r
    }

    /// The number of variables.
    pub fn len(&self) -> (r: usize)
        ensures
            r == self@.dom().len(),
    {
        proof {
            use_type_invariant(self);
            lemma_to_map_len(self.pairs());
            assert(self.pairs().len() == self.entries@.len());
        }
        self.entries.len()
    }

    /// Whether there are no variables.
    pub fn is_empty(&self) -> (r: bool)
        ensures
            r == (self@.dom().len() == 0),
    {
        self.len() == 0
    }

    /// The number of bindings kept, which is the number of variables.
    pub(crate) fn count(&self) -> (r: usize)
        ensures
            r == self.pairs().len(),
            r == self@.dom().len(),
            names_unique(self.pairs()),
    {
        proof {
            use_type_invariant(self);
            lemma_to_map_len(self.pairs());
        }
        self.entries.len()
    }

    /// The name of the `i`-th binding kept.
    pub(crate) fn name_at(&self, i: usize) -> (r: &String)
        requires
            i < self.pairs().len(),
        ensures
            r@ == self.pairs()[i as int].0,
    {
        &self.entries[i].0
    }

    /// The value of the `i`-th binding kept.
    pub(crate) fn value_at(&self, i: usize) -> (r: &String)
        requires
            i < self.pairs().len(),
        ensures
            r@ == self.pairs()[i as int].1,
    {
        &self.entries[i].1
    }

    /// The value of the variable `name`, if it is set.
    pub fn get(&self, name: &str) -> (r: Option<&String>)
        ensures
            r is Some <==> self@.dom().contains(name@),
            r matches Some(v) ==> self@[name@] == v@,
    {
        proof {
            use_type_invariant(self);
            lemma_to_map_dom(self.pairs());
        }
        let key = String::from_str(name);
        match find_name(&self.entries, &key) {
            Some(i) => {
                proof {
                    lemma_to_map_value(self.pairs(), i as int);
                }
                Some(&self.entries[i].1)
            },
            None => None,
        }
    }

    /// Whether the variable `name` is set.
    pub fn contains_key(&self, name: &str) -> (r: bool)
        ensures
            r == self@.dom().contains(name@),
    {
        self.get(name).is_some()
    }
}

impl PartialEq for Variables {
    fn eq(&self, other: &Self) -> (r: bool) {
        proof {
            use_type_invariant(self);
            use_type_invariant(other);
            lemma_to_map_dom(self.pairs());
            lemma_to_map_dom(other.pairs());
            lemma_to_map_len(self.pairs());
            lemma_to_map_len(other.pairs());
        }
        let n = self.entries.len();
        if n != other.entries.len() {
            return false;
        }
        let ghost ps = self.pairs();
        for i in 0..n
            invariant
                n == self.entries@.len() == ps.len(),
                ps == self.pairs(),
                names_unique(ps),
                self@.dom().len() == other@.dom().len(),
                forall|j: int|
                    0 <= j < i ==> other@.dom().contains((#[trigger] ps[j]).0) && other@[ps[j].0]
                        == ps[j].1,
        {
            proof {
                lemma_to_map_value(ps, i as int);
            }
            match other.get(self.entries[i].0.as_str()) {
                Some(v) => {
                    if *v != self.entries[i].1 {
                        return false;
                    }
                },
                None => {
                    return false;
                },
            }
        }
        proof {
            assert(self@.dom().subset_of(other@.dom())) by {
                assert forall|k: Seq<char>| self@.dom().contains(k) implies other@.dom().contains(k) by {
                    let j = choose|j: int| 0 <= j < ps.len() && (#[trigger] ps[j]).0 == k;
                }
            }
            vstd::set_lib::lemma_subset_equality(self@.dom(), other@.dom());
            assert forall|k: Seq<char>| #[trigger] self@.dom().contains(k) implies self@[k] == other@[k] by {
                let j = choose|j: int| 0 <= j < ps.len() && (#[trigger] ps[j]).0 == k;
                lemma_to_map_value(ps, j);
            }
            assert(self@ =~= other@);
        }
        true
    }
}

impl vstd::std_specs::cmp::PartialEqSpecImpl for Variables {
    open spec fn obeys_eq_spec() -> bool {
        true
    }

    open spec fn eq_spec(&self, other: &Self) -> bool {
        self@ == other@
    }
}

impl Eq for Variables {

}

impl Clone for Variables {
    fn clone(&self) -> (r: Self)
        ensures
            r@ == self@,
            r.pairs() == self.pairs(),
    {
        Variables::from_entries(self.copy_entries())
    }
}

/// The bindings of the first `i + 1` of a list describe those of the first `i`
/// with the `i`-th added.
pub proof fn lemma_to_map_take(ps: Seq<Binding>, i: int)
    requires
        0 <= i < ps.len(),
    ensures
        to_map(ps.take(i + 1)) == to_map(ps.take(i)).insert(ps[i].0, ps[i].1),
{
    assert(ps.take(i + 1).drop_last() =~= ps.take(i));
    assert(ps.take(i + 1).last() == ps[i]);
}

impl Variables {
    /// The names of the variables, in the order in which they are kept.
    pub(crate) fn names(&self) -> (r: Vec<String>)
        ensures
            r@.map_values(|s: String| s@) == self.pairs().map_values(|p: Binding| p.0),
            r@.map_values(|s: String| s@).no_duplicates(),
            r@.map_values(|s: String| s@).to_set() == self@.dom(),
    {
        let n = self.count();
        let ghost ps = self.pairs();
        let mut r: Vec<String> = Vec::new();
        for i in 0..n
            invariant
                n == ps.len(),
                ps == self.pairs(),
                r@.len() == i,
                r@.map_values(|s: String| s@) == ps.map_values(|p: Binding| p.0).take(i as int),
        {
            let name = self.name_at(i).clone();
            r.push(name);
            assert(r@.map_values(|s: String| s@) =~= ps.map_values(|p: Binding| p.0).take(i + 1));
        }
        let ghost v = r@.map_values(|s: String| s@);
        proof {
            assert(v =~= ps.map_values(|p: Binding| p.0));
            lemma_to_map_dom(ps);
            assert forall|a: int, b: int| 0 <= a < v.len() && 0 <= b < v.len() && a != b implies v[a]
                != v[b] by {
                if a < b {
                    assert(ps[a].0 != ps[b].0);
                } else {
                    assert(ps[b].0 != ps[a].0);
                }
            }
            assert forall|k: Seq<char>| v.to_set().contains(k) <==> self@.dom().contains(k) by {
                if v.to_set().contains(k) {
                    let j = choose|j: int| 0 <= j < v.len() && v[j] == k;
                    assert(ps[j].0 == k);
                }
                if self@.dom().contains(k) {
                    let j = choose|j: int| 0 <= j < ps.len() && (#[trigger] ps[j]).0 == k;
                    assert(v[j] == k);
                }
            }
            assert(v.to_set() =~= self@.dom());
        }
        r
    }
}

} // verus!
