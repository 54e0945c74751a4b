//! The bipartite factor graph: variable nodes, factor nodes, and for each
//! variable the list of factors that name it.

use std::collections::HashMap;
use vstd::prelude::*;

use crate::factor::{pow3, Factor};
use crate::ternary::TernaryVal;

verus! {

broadcast use vstd::std_specs::hash::group_hash_axioms, vstd::string::group_string_axioms;

/// A variable node in the factor graph; it takes values in {-1, 0, +1}.
#[derive(Debug, Clone)]
pub struct Variable {
    pub id: usize,
    pub name: String,
    pub evidence: Option<TernaryVal>,
}

/// Number of occurrences of `v` in `s`.
pub open spec fn count_of(s: Seq<usize>, v: usize) -> nat
    decreases s.len(),
{
    if s.len() == 0 {
        0
    } else {
        count_of(s.drop_last(), v) + if s.last() == v {
            1nat
        } else {
            0nat
        }
    }
}

/// `j`, `k` times.
pub open spec fn repeat(j: usize, k: nat) -> Seq<usize> {
    Seq::new(k, |_i: int| j)
}

/// The positions, from `from` on, of the factors in `fs` that name `v`, in
/// increasing order, each once per occurrence of `v` among the factor's variables.
pub open spec fn links<P>(fs: Seq<Factor<P>>, v: usize, from: int) -> Seq<usize>
    decreases fs.len(),
{
    if fs.len() == 0 || fs.len() <= from {
        Seq::empty()
    } else {
        links(fs.drop_last(), v, from) + repeat(
            (fs.len() - 1) as usize,
            count_of(fs.last().var_ids@, v),
        )
    }
}

/// The factor-variable incidences of `fs`: for each factor in order, the pair
/// (factor id, variable id) for each of its variables in order.
pub open spec fn incidences<P>(fs: Seq<Factor<P>>) -> Seq<(usize, usize)>
    decreases fs.len(),
{
    if fs.len() == 0 {
        Seq::empty()
    } else {
        incidences(fs.drop_last()) + fs.last().var_ids@.map_values(
            |v: usize| (fs.last().id, v),
        )
    }
}

/// `s` with every element equal to `x` removed (nothing removed for `None`).
pub open spec fn without(s: Seq<usize>, x: Option<usize>) -> Seq<usize>
    decreases s.len(),
{
    if s.len() == 0 {
        Seq::empty()
    } else {
        without(s.drop_last(), x) + if x == Some(s.last()) {
            Seq::empty()
        } else {
            seq![s.last()]
        }
    }
}

/// The entries a factor list keeps when `x` is left out: all but those equal to `x`.
pub open spec fn kept_by(x: Option<usize>) -> spec_fn(usize) -> bool {
    |g: usize| x != Some(g)
}

/// Leaving `x` out of a factor list keeps exactly the entries different from
/// `x`, in their order: it is the list filtered by `g != x`.
pub proof fn lemma_without_is_filter(s: Seq<usize>, x: Option<usize>)
    ensures
        without(s, x) == s.filter(kept_by(x)),
    decreases s.len(),
{
    reveal(Seq::filter);
    if s.len() > 0 {
        lemma_without_is_filter(s.drop_last(), x);
        let w = without(s.drop_last(), x);
        assert(w + seq![s.last()] =~= w.push(s.last()));
        assert(w + Seq::<usize>::empty() =~= w);
    }
}

/// With nothing left out a factor list is kept whole; with `x` left out, no
/// entry equal to `x` remains and every other entry does.
pub proof fn lemma_without_laws(s: Seq<usize>, x: Option<usize>)
    ensures
        without(s, None) == s,
        forall|y: usize| x == Some(y) ==> !without(s, x).contains(y),
        forall|y: usize| #[trigger] without(s, x).contains(y) <==> (s.contains(y) && x != Some(y)),
    decreases s.len(),
{
    if s.len() > 0 {
        let d = s.drop_last();
        lemma_without_laws(d, x);
        assert(without(s, None) =~= s) by {
            assert(without(d, None) + seq![s.last()] =~= s);
        }
        let w = without(s, x);
        let wd = without(d, x);
        let tail: Seq<usize> = if x == Some(s.last()) {
            Seq::empty()
        } else {
            seq![s.last()]
        };
        assert(w == wd + tail);
        assert forall|y: usize| #[trigger] w.contains(y) <==> (s.contains(y) && x != Some(y)) by {
            if w.contains(y) {
                let i: int = choose|i: int| 0 <= i < w.len() && w[i] == y;
                if i < wd.len() {
                    assert(w[i] == wd[i]);
                    assert(wd.contains(y));
                    let k: int = choose|k: int| 0 <= k < d.len() && d[k] == y;
                    assert(d[k] == s[k]);
                } else {
                    assert(s[s.len() - 1] == y);
                }
            }
            if s.contains(y) && x != Some(y) {
                let k: int = choose|k: int| 0 <= k < s.len() && s[k] == y;
                if k < s.len() - 1 {
                    assert(d[k] == y);
                    assert(d.contains(y));
                    assert(wd.contains(y));
                    let i: int = choose|i: int| 0 <= i < wd.len() && wd[i] == y;
                    assert(w[i] == wd[i]);
                } else {
                    assert(w[wd.len() as int] == y);
                }
            }
        }
    } else {
        assert(without(s, None) =~= s);
    }
}

/// `vs` with the evidence of variable `i` replaced by `e`; unchanged where
/// there is no variable `i`.
pub open spec fn with_evidence(vs: Seq<Variable>, i: usize, e: Option<TernaryVal>) -> Seq<Variable> {
    if i < vs.len() {
        vs.update(i as int, Variable { id: vs[i as int].id, name: vs[i as int].name, evidence: e })
    } else {
        vs
    }
}

proof fn lemma_links_push<P>(fs: Seq<Factor<P>>, f: Factor<P>, v: usize, from: int)
    requires
        0 <= from <= fs.len(),
    ensures
        links(fs.push(f), v, from) == links(fs, v, from) + repeat(
            fs.len() as usize,
            count_of(f.var_ids@, v),
        ),
{
    assert(fs.push(f).drop_last() =~= fs);
}

proof fn lemma_links_past_end<P>(fs: Seq<Factor<P>>, v: usize, from: int)
    requires
        fs.len() <= from,
    ensures
        links(fs, v, from) == Seq::<usize>::empty(),
{
}

proof fn lemma_count_of_take(s: Seq<usize>, k: int, w: usize)
    requires
        0 <= k < s.len(),
    ensures
        count_of(s.take(k + 1), w) == count_of(s.take(k), w) + if s[k] == w {
            1nat
        } else {
            0nat
        },
{
    assert(s.take(k + 1).drop_last() =~= s.take(k));
}

proof fn lemma_repeat_push(j: usize, k: nat)
    ensures
        repeat(j, k).push(j) == repeat(j, k + 1),
{
    assert(repeat(j, k).push(j) =~= repeat(j, k + 1));
}

/// What a message out of a variable, or its belief, is made of.
pub enum MessageSources {
    /// The variable is clamped to this value: the result is a point mass on it.
    Observed(TernaryVal),
    /// The product of the messages of these factors to the variable.
    Product(Vec<usize>),
}

/// Bipartite factor graph: variable nodes and factor nodes, with, for each
/// variable, the factors that name it.
pub struct FactorGraph<P> {
    pub variables: Vec<Variable>,
    pub factors: Vec<Factor<P>>,
    pub var_to_factors: HashMap<usize, Vec<usize>>,
    /// For each variable, the number of factors the graph held when the
    /// variable was added.
    pub var_births: Ghost<Seq<nat>>,
}

impl<P> FactorGraph<P> {
    /// The number of factors the graph held when variable `v` was added.
    pub open spec fn birth(&self, v: int) -> int {
        self.var_births@[v] as int
    }

    /// One birth per variable, none later than the present number of factors.
    pub open spec fn births_wf(&self) -> bool {
        &&& self.var_births@.len() == self.variables@.len()
        &&& forall|i: int|
            0 <= i < self.var_births@.len() ==> #[trigger] self.var_births@[i] <= self.factors@.len()
    }

    /// The factors listed for `v`: those added after `v` became a variable
    /// (all of them for an id that is not a variable yet) that name `v`.
    pub open spec fn linked(&self, v: usize) -> Seq<usize> {
        links(
            self.factors@,
            v,
            if v < self.variables@.len() {
                self.birth(v as int)
            } else {
                0
            },
        )
    }

    /// The factors listed for `v` in `var_to_factors`, or none.
    pub open spec fn listed(&self, v: usize) -> Seq<usize> {
        if self.var_to_factors@.contains_key(v) {
            self.var_to_factors@[v]@
        } else {
            Seq::empty()
        }
    }

    /// Well-formedness: ids are positions, tables have the right size, and
    /// `var_to_factors` lists for each variable (and each id a factor names)
    /// exactly the factors that name it since it was added.
    pub open spec fn wf(&self) -> bool {
        &&& forall|i: int|
            0 <= i < self.variables@.len() ==> (#[trigger] self.variables@[i]).id == i
        &&& forall|j: int|
            0 <= j < self.factors@.len() ==> (#[trigger] self.factors@[j]).id == j
                && self.factors@[j].wf()
        &&& forall|v: usize|
            #[trigger] self.var_to_factors@.contains_key(v) <==> (v < self.variables@.len()
                || links(self.factors@, v, 0).len() > 0)
        &&& forall|v: usize|
            #[trigger] self.var_to_factors@.contains_key(v) ==> self.var_to_factors@[v]@
                == self.linked(v)
        &&& self.births_wf()
    }

    /// An empty graph.
    pub fn new() -> (g: Self)
        ensures
            g.wf(),
            g.variables@.len() == 0,
            g.factors@.len() == 0,
            g.var_to_factors@ == Map::<usize, Vec<usize>>::empty(),
    {
        FactorGraph {
            variables: Vec::new(),
            factors: Vec::new(),
            var_to_factors: HashMap::new(),
            var_births: Ghost(Seq::empty()),
        }
    }

    /// Adds a variable with the given name and no evidence; its id is the
    /// number of variables before the call, and its factor list starts empty.
    pub fn add_variable(&mut self, name: &str) -> (r: usize)
        requires
            old(self).wf(),
        ensures
            final(self).wf(),
            r == old(self).variables@.len(),
            final(self).variables@.len() == r + 1,
            final(self).variables@.take(r as int) == old(self).variables@,
            final(self).variables@[r as int].id == r,
            final(self).variables@[r as int].name@ == name@,
            final(self).variables@[r as int].evidence is None,
            final(self).factors@ == old(self).factors@,
            final(self).var_to_factors@.dom() == old(self).var_to_factors@.dom().insert(r),
            final(self).var_to_factors@[r]@ == Seq::<usize>::empty(),
            forall|v: usize|
                v != r && #[trigger] old(self).var_to_factors@.contains_key(v)
                    ==> final(self).var_to_factors@[v] == old(self).var_to_factors@[v],
            final(self).birth(r as int) == old(self).factors@.len(),
            forall|i: int| 0 <= i < r ==> #[trigger] final(self).birth(i) == old(self).birth(i),
    {
        let id: usize = self.variables.len();
        self.variables.push(Variable { id, name: name.to_string(), evidence: None });
        self.var_to_factors.insert(id, Vec::new());
        self.var_births = Ghost(self.var_births@.push(self.factors@.len()));
        proof {
            assert(self.variables@.take(id as int) =~= old(self).variables@);
            lemma_links_past_end(self.factors@, id, self.factors@.len() as int);
            assert forall|i: int| 0 <= i < self.var_births@.len() implies #[trigger] self.var_births@[i]
                <= self.factors@.len() by {
                if i < id {
                    assert(self.var_births@[i] == old(self).var_births@[i]);
                }
            }
            assert forall|v: usize| #[trigger] self.var_to_factors@.contains_key(v)
                implies self.var_to_factors@[v]@ == self.linked(v) by {
                if v != id {
                    assert(old(self).var_to_factors@.contains_key(v));
                    if v < id {
                        assert(self.birth(v as int) == old(self).birth(v as int));
                    }
                }
            }
        }
        id
    }

    /// Adds a factor over `var_ids` with the given table (of `3^var_ids.len()`
    /// entries); its id is the number of factors before the call, and the id
    /// is appended to the list of each of its variables, once per occurrence.
    pub fn add_factor(&mut self, var_ids: Vec<usize>, table: Vec<P>) -> (r: usize)
        requires
            old(self).wf(),
            table@.len() == pow3(var_ids@.len()),
        ensures
            final(self).wf(),
            r == old(self).factors@.len(),
            final(self).factors@ == old(self).factors@.push(
                (Factor { id: r, var_ids: var_ids, table: table }),
            ),
            final(self).variables@ == old(self).variables@,
            forall|v: usize|
                #[trigger] final(self).var_to_factors@.contains_key(v) <==> (
                old(self).var_to_factors@.contains_key(v) || count_of(var_ids@, v) > 0),
            forall|v: usize|
                #[trigger] final(self).var_to_factors@.contains_key(v) ==> final(self).var_to_factors@[v]@ == old(self).listed(v) + repeat(r, count_of(var_ids@, v)),
            forall|i: int|
                0 <= i < old(self).variables@.len() ==> #[trigger] final(self).birth(i) == old(self).birth(i),
    {
        let id: usize = self.factors.len();
        let n_ids: usize = var_ids.len();
        let mut k: usize = 0;
        while k < n_ids
            invariant
                k <= n_ids,
                n_ids == var_ids@.len(),
                id == old(self).factors@.len(),
                self.factors@ == old(self).factors@,
                self.variables@ == old(self).variables@,
                self.var_births == old(self).var_births,
                forall|v: usize|
                    #[trigger] self.var_to_factors@.contains_key(v) <==> (old(self).var_to_factors@.contains_key(v) || count_of(var_ids@.take(k as int), v) > 0),
                forall|v: usize|
                    #[trigger] self.var_to_factors@.contains_key(v) ==> self.var_to_factors@[v]@
                        == old(self).listed(v) + repeat(id, count_of(var_ids@.take(k as int), v)),
            decreases n_ids - k,
        {
            let v: usize = var_ids[k];
            let mut l = match self.var_to_factors.remove(&v) {
                Some(l) => l,
                None => Vec::new(),
            };
            l.push(id);
            self.var_to_factors.insert(v, l);
            proof {
                assert forall|w: usize|
                    count_of(var_ids@.take(k + 1), w) == count_of(var_ids@.take(k as int), w)
                        + if var_ids@[k as int] == w {
                        1nat
                    } else {
                        0nat
                    } by {
                    lemma_count_of_take(var_ids@, k as int, w);
                }
                lemma_repeat_push(id, count_of(var_ids@.take(k as int), v));
            }
            k = k + 1;
        }
        proof {
            assert(var_ids@.take(n_ids as int) =~= var_ids@);
        }
        let f = Factor::new(id, var_ids, table);
        self.factors.push(f);
        proof {
            let fs = old(self).factors@;
            assert forall|v: usize, from: int| 0 <= from <= fs.len() implies #[trigger] links(
                self.factors@,
                v,
                from,
            ) == links(fs, v, from) + repeat(id, count_of(f.var_ids@, v)) by {
                lemma_links_push(fs, f, v, from);
            }
            assert forall|v: usize| #[trigger] self.var_to_factors@.contains_key(v)
                implies self.var_to_factors@[v]@ == self.linked(v) by {
                assert(links(self.factors@, v, 0) == links(fs, v, 0) + repeat(
                    id,
                    count_of(f.var_ids@, v),
                ));
                if v < self.variables@.len() {
                    assert(self.birth(v as int) == old(self).birth(v as int));
                    assert(old(self).var_births@[v as int] <= fs.len());
                    assert(links(self.factors@, v, self.birth(v as int)) == links(
                        fs,
                        v,
                        self.birth(v as int),
                    ) + repeat(id, count_of(f.var_ids@, v)));
                }
            }
            assert forall|v: usize| #[trigger] self.var_to_factors@.contains_key(v) <==> (v
                < self.variables@.len() || links(self.factors@, v, 0).len() > 0) by {
                assert(links(self.factors@, v, 0) == links(fs, v, 0) + repeat(
                    id,
                    count_of(f.var_ids@, v),
                ));
            }
            assert forall|j: int| 0 <= j < self.factors@.len() implies (
            #[trigger] self.factors@[j]).id == j && self.factors@[j].wf() by {
                if j < fs.len() {
                    assert(self.factors@[j] == fs[j]);
                }
            }
        }
        id
    }

    /// Sets the evidence of variable `var_id` to `value`; nothing happens
    /// where there is no such variable.
    pub fn clamp_evidence(&mut self, var_id: usize, value: TernaryVal)
        requires
            old(self).wf(),
        ensures
            final(self).wf(),
            final(self).variables@ == with_evidence(old(self).variables@, var_id, Some(value)),
            final(self).variables@.len() == old(self).variables@.len(),
            var_id < old(self).variables@.len() ==> final(self).variables@[var_id as int].evidence
                == Some(value),
            var_id < old(self).variables@.len() ==> final(self).variables@[var_id as int].id
                == old(self).variables@[var_id as int].id && final(self).variables@[var_id as int].name
                == old(self).variables@[var_id as int].name,
            forall|k: int|
                0 <= k < old(self).variables@.len() && k != var_id ==> #[trigger] final(
                    self).variables@[k] == old(self).variables@[k],
            final(self).factors@ == old(self).factors@,
            final(self).var_to_factors@ == old(self).var_to_factors@,
            forall|i: int| #[trigger] final(self).birth(i) == old(self).birth(i),
    {
        if var_id < self.variables.len() {
            self.variables[var_id].evidence = Some(value);
        }
        proof {
            assert(self.variables@ =~= with_evidence(old(self).variables@, var_id, Some(value)));
        }
    }

    /// Removes the evidence of variable `var_id`; nothing happens where there
    /// is no such variable.
    pub fn clear_evidence(&mut self, var_id: usize)
        requires
            old(self).wf(),
        ensures
            final(self).wf(),
            final(self).variables@ == with_evidence(old(self).variables@, var_id, None),
            final(self).variables@.len() == old(self).variables@.len(),
            var_id < old(self).variables@.len() ==> final(self).variables@[var_id as int].evidence
                == None::<TernaryVal>,
            var_id < old(self).variables@.len() ==> final(self).variables@[var_id as int].id
                == old(self).variables@[var_id as int].id && final(self).variables@[var_id as int].name
                == old(self).variables@[var_id as int].name,
            forall|k: int|
                0 <= k < old(self).variables@.len() && k != var_id ==> #[trigger] final(
                    self).variables@[k] == old(self).variables@[k],
            final(self).factors@ == old(self).factors@,
            final(self).var_to_factors@ == old(self).var_to_factors@,
            forall|i: int| #[trigger] final(self).birth(i) == old(self).birth(i),
    {
        if var_id < self.variables.len() {
            self.variables[var_id].evidence = None;
        }
        proof {
            assert(self.variables@ =~= with_evidence(old(self).variables@, var_id, None));
        }
    }

    /// Every (factor id, variable id) incidence of the graph, factor by factor
    /// in order and, within a factor, variable by variable in order: the keys
    /// of the messages and the order in which a round of message passing
    /// updates them.
    pub fn edges(&self) -> (r: Vec<(usize, usize)>)
        ensures
            r@ == incidences(self.factors@),
    {
        let mut r: Vec<(usize, usize)> = Vec::new();
        let n_f: usize = self.factors.len();
        let mut j: usize = 0;
        while j < n_f
            invariant
                j <= n_f,
                n_f == self.factors@.len(),
                r@ == incidences(self.factors@.take(j as int)),
            decreases n_f - j,
        {
            let f = &self.factors[j];
            let n_v: usize = f.var_ids.len();
            let mut k: usize = 0;
            while k < n_v
                invariant
                    k <= n_v,
                    j < n_f,
                    n_f == self.factors@.len(),
                    *f == self.factors@[j as int],
                    n_v == f.var_ids@.len(),
                    r@ == incidences(self.factors@.take(j as int)) + f.var_ids@.take(
                        k as int,
                    ).map_values(|v: usize| (f.id, v)),
                decreases n_v - k,
            {
                r.push((f.id, f.var_ids[k]));
                proof {
                    assert(f.var_ids@.take(k + 1).map_values(|v: usize| (f.id, v)) =~= f.var_ids@.take(
                        k as int,
                    ).map_values(|v: usize| (f.id, v)).push((f.id, f.var_ids@[k as int])));
                }
                k = k + 1;
            }
            proof {
                assert(f.var_ids@.take(n_v as int) =~= f.var_ids@);
                assert(self.factors@.take(j + 1).drop_last() =~= self.factors@.take(j as int));
            }
            j = j + 1;
        }
        proof {
            assert(self.factors@.take(n_f as int) =~= self.factors@);
        }
        r
    }

    /// What the belief of variable `var_id`, or its message to factor
    /// `exclude`, is made of: the variable's evidence where it has some;
    /// otherwise the messages of the factors listed for it, in list order,
    /// leaving out every entry equal to `exclude`.
    pub fn message_sources(&self, var_id: usize, exclude: Option<usize>) -> (r: MessageSources)
        requires
            self.wf(),
            var_id < self.variables@.len(),
        ensures
            match r {
                MessageSources::Observed(e) => self.variables@[var_id as int].evidence == Some(e),
                MessageSources::Product(l) => {
                    &&& self.variables@[var_id as int].evidence is None
                    &&& l@ == without(self.listed(var_id), exclude)
                    &&& l@ == without(self.linked(var_id), exclude)
                    &&& l@ == self.listed(var_id).filter(kept_by(exclude))
                    &&& exclude is None ==> l@ == self.listed(var_id)
                    &&& forall|x: usize| exclude == Some(x) ==> !l@.contains(x)
                },
            },
    {
        if let Some(ev) = self.variables[var_id].evidence {
            return MessageSources::Observed(ev);
        }
        let mut l: Vec<usize> = Vec::new();
        match self.var_to_factors.get(&var_id) {
            Some(list) => {
                let n: usize = list.len();
                let mut k: usize = 0;
                while k < n
                    invariant
                        k <= n,
                        n == list@.len(),
                        l@ == without(list@.take(k as int), exclude),
                    decreases n - k,
                {
                    let g: usize = list[k];
                    let skip = match exclude {
                        Some(x) => x == g,
                        None => false,
                    };
                    if !skip {
                        l.push(g);
                    }
                    proof {
                        assert(list@.take(k + 1).drop_last() =~= list@.take(k as int));
                    }
                    k = k + 1;
                }
                proof {
                    assert(list@.take(n as int) =~= list@);
                }
            },
            None => {},
        }
        proof {
            lemma_without_is_filter(self.listed(var_id), exclude);
            lemma_without_laws(self.listed(var_id), exclude);
        }
        MessageSources::Product(l)
    }

    /// The number of variables.
    pub fn n_vars(&self) -> (n: usize)
        ensures
            n == self.variables@.len(),
    {
        self.variables.len()
    }

    /// The number of factors.
    pub fn n_factors(&self) -> (n: usize)
        ensures
            n == self.factors@.len(),
    {
        self.factors.len()
    }
}

/// Clearing a variable's evidence after clamping it leaves the variables as
/// clearing alone does: the evidence is gone and nothing else changed.
pub proof fn lemma_clear_after_clamp(vs: Seq<Variable>, i: usize, value: TernaryVal)
    ensures
        with_evidence(with_evidence(vs, i, Some(value)), i, None) == with_evidence(vs, i, None),
        i < vs.len() ==> with_evidence(with_evidence(vs, i, Some(value)), i, None)[i as int].evidence
            is None,
{
    assert(with_evidence(with_evidence(vs, i, Some(value)), i, None) =~= with_evidence(vs, i, None));
}

/// Clamping evidence touches only the clamped variable: every other
/// variable, and every variable's id and name, stay as they were.
pub proof fn lemma_clamp_is_local(vs: Seq<Variable>, i: usize, e: Option<TernaryVal>)
    ensures
        with_evidence(vs, i, e).len() == vs.len(),
        forall|k: int|
            0 <= k < vs.len() && k != i ==> #[trigger] with_evidence(vs, i, e)[k] == vs[k],
        forall|k: int|
            0 <= k < vs.len() ==> (#[trigger] with_evidence(vs, i, e)[k]).id == vs[k].id
                && with_evidence(vs, i, e)[k].name == vs[k].name,
        i < vs.len() ==> with_evidence(vs, i, e)[i as int].evidence == e,
        i >= vs.len() ==> with_evidence(vs, i, e) == vs,
{
}

proof fn lemma_count_of_contains(s: Seq<usize>, v: usize)
    ensures
        count_of(s, v) > 0 <==> s.contains(v),
    decreases s.len(),
{
    if s.len() > 0 {
        let d = s.drop_last();
        lemma_count_of_contains(d, v);
        if d.contains(v) {
            let i: int = choose|i: int| 0 <= i < d.len() && d[i] == v;
            assert(s[i] == v);
        }
        if s.contains(v) {
            let i: int = choose|i: int| 0 <= i < s.len() && s[i] == v;
            if i < s.len() - 1 {
                assert(d[i] == v);
            }
        }
        if s.last() == v {
            assert(s[s.len() - 1] == v);
        }
    }
}

proof fn lemma_links_members<P>(fs: Seq<Factor<P>>, v: usize, from: int, j: usize)
    requires
        0 <= from,
        fs.len() <= usize::MAX,
    ensures
        links(fs, v, from).contains(j) <==> (from <= j < fs.len() && fs[j as int].var_ids@.contains(
            v,
        )),
    decreases fs.len(),
{
    if fs.len() == 0 || fs.len() <= from {
    } else {
        let d = fs.drop_last();
        lemma_links_members(d, v, from, j);
        lemma_count_of_contains(fs.last().var_ids@, v);
        let a = links(d, v, from);
        let b = repeat((fs.len() - 1) as usize, count_of(fs.last().var_ids@, v));
        assert(links(fs, v, from) == a + b);
        if (a + b).contains(j) {
            let i: int = choose|i: int| 0 <= i < (a + b).len() && (a + b)[i] == j;
            if i < a.len() {
                assert(a[i] == j);
                assert(fs[j as int] == d[j as int]);
            } else {
                assert(b[i - a.len()] == j);
            }
        }
        if from <= j < fs.len() && fs[j as int].var_ids@.contains(v) {
            if j < fs.len() - 1 {
                assert(fs[j as int] == d[j as int]);
                let i: int = choose|i: int| 0 <= i < a.len() && a[i] == j;
                assert((a + b)[i] == j);
            } else {
                assert(b[0] == j);
                assert((a + b)[a.len() as int] == j);
            }
        }
    }
}

proof fn lemma_links_sorted<P>(fs: Seq<Factor<P>>, v: usize, from: int)
    requires
        0 <= from,
        fs.len() <= usize::MAX,
    ensures
        forall|i: int|
            0 <= i < links(fs, v, from).len() ==> from <= #[trigger] links(fs, v, from)[i] < fs.len(),
        forall|i: int, k: int|
            0 <= i < k < links(fs, v, from).len() ==> #[trigger] links(fs, v, from)[i] <= #[trigger] links(
                fs,
                v,
                from,
            )[k],
    decreases fs.len(),
{
    if !(fs.len() == 0 || fs.len() <= from) {
        let d = fs.drop_last();
        lemma_links_sorted(d, v, from);
        let a = links(d, v, from);
        let b = repeat((fs.len() - 1) as usize, count_of(fs.last().var_ids@, v));
        assert(links(fs, v, from) == a + b);
        assert forall|i: int| 0 <= i < (a + b).len() implies from <= #[trigger] (a + b)[i] < fs.len() by {
            if i < a.len() {
                assert((a + b)[i] == a[i]);
            } else {
                assert((a + b)[i] == b[i - a.len()]);
            }
        }
        assert forall|i: int, k: int| 0 <= i < k < (a + b).len() implies #[trigger] (a + b)[i]
            <= #[trigger] (a + b)[k] by {
            if k < a.len() {
                assert((a + b)[i] == a[i]);
                assert((a + b)[k] == a[k]);
            } else if i < a.len() {
                assert((a + b)[i] == a[i]);
                assert((a + b)[k] == b[k - a.len()]);
            } else {
                assert((a + b)[i] == b[i - a.len()]);
                assert((a + b)[k] == b[k - a.len()]);
            }
        }
    }
}

/// A variable's factor list is in the order the factors were added, and
/// holds only factors of the graph added since the variable was.
pub proof fn lemma_listed_in_order<P>(g: FactorGraph<P>, v: usize)
    requires
        g.wf(),
        g.factors@.len() <= usize::MAX,
    ensures
        forall|i: int, k: int|
            0 <= i < k < g.listed(v).len() ==> #[trigger] g.listed(v)[i] <= #[trigger] g.listed(v)[k],
        forall|i: int|
            0 <= i < g.listed(v).len() ==> (if v < g.variables@.len() {
                g.birth(v as int)
            } else {
                0
            }) <= #[trigger] g.listed(v)[i] < g.factors@.len(),
{
    let from: int = if v < g.variables@.len() {
        g.birth(v as int)
    } else {
        0
    };
    lemma_links_sorted(g.factors@, v, from);
    if !g.var_to_factors@.contains_key(v) {
        assert(g.listed(v) =~= Seq::<usize>::empty());
    }
}

/// The factors listed for an id in `var_to_factors` are exactly the factors
/// that name it and were added since it became a variable (all of them for
/// an id that is not a variable yet).
pub proof fn lemma_listed_factors<P>(g: FactorGraph<P>, v: usize, j: usize)
    requires
        g.wf(),
        g.factors@.len() <= usize::MAX,
    ensures
        g.listed(v).contains(j) <==> ((if v < g.variables@.len() {
            g.birth(v as int)
        } else {
            0
        }) <= j < g.factors@.len() && g.factors@[j as int].var_ids@.contains(v)),
{
    let from: int = if v < g.variables@.len() {
        g.birth(v as int)
    } else {
        0
    };
    lemma_links_members(g.factors@, v, from, j);
    if !g.var_to_factors@.contains_key(v) {
        lemma_links_members(g.factors@, v, 0, j);
        assert(links(g.factors@, v, 0).len() == 0);
        if from <= j < g.factors@.len() && g.factors@[j as int].var_ids@.contains(v) {
            assert(links(g.factors@, v, 0).contains(j));
        }
    }
}

proof fn lemma_incidences_members<P>(fs: Seq<Factor<P>>, j: usize, v: usize)
    requires
        forall|i: int| 0 <= i < fs.len() ==> (#[trigger] fs[i]).id == i,
    ensures
        incidences(fs).contains((j, v)) <==> (j < fs.len() && fs[j as int].var_ids@.contains(v)),
    decreases fs.len(),
{
    if fs.len() > 0 {
        let d = fs.drop_last();
        assert forall|i: int| 0 <= i < d.len() implies (#[trigger] d[i]).id == i by {
            assert(d[i] == fs[i]);
        }
        lemma_incidences_members(d, j, v);
        let a = incidences(d);
        let f = fs.last();
        let b = f.var_ids@.map_values(|x: usize| (f.id, x));
        assert(incidences(fs) == a + b);
        assert(f.id == fs.len() - 1) by {
            assert(fs[fs.len() - 1].id == fs.len() - 1);
        }
        if (a + b).contains((j, v)) {
            let i: int = choose|i: int| 0 <= i < (a + b).len() && (a + b)[i] == (j, v);
            if i < a.len() {
                assert(a[i] == (j, v));
                assert(fs[j as int] == d[j as int]);
            } else {
                assert(b[i - a.len()] == (j, v));
                assert(f.var_ids@[i - a.len()] == v);
            }
        }
        if j < fs.len() && fs[j as int].var_ids@.contains(v) {
            if j < fs.len() - 1 {
                assert(fs[j as int] == d[j as int]);
                let i: int = choose|i: int| 0 <= i < a.len() && a[i] == (j, v);
                assert((a + b)[i] == (j, v));
            } else {
                let k: int = choose|k: int| 0 <= k < f.var_ids@.len() && f.var_ids@[k] == v;
                assert(b[k] == (j, v));
                assert((a + b)[a.len() + k] == (j, v));
            }
        }
    }
}

/// The number of variable slots of the factors before position `j`.
pub open spec fn offset<P>(fs: Seq<Factor<P>>, j: int) -> int
    decreases j,
{
    if j <= 0 {
        0
    } else {
        offset(fs, j - 1) + fs[j - 1].var_ids@.len()
    }
}

proof fn lemma_offset_prefix<P>(fs: Seq<Factor<P>>, f: Factor<P>, j: int)
    requires
        0 <= j <= fs.len(),
    ensures
        offset(fs.push(f), j) == offset(fs, j),
    decreases j,
{
    if j > 0 {
        lemma_offset_prefix(fs, f, j - 1);
        assert(fs.push(f)[j - 1] == fs[j - 1]);
    }
}

proof fn lemma_offset_monotone<P>(fs: Seq<Factor<P>>, j: int, k: int)
    requires
        0 <= j <= k,
    ensures
        offset(fs, j) <= offset(fs, k),
    decreases k - j,
{
    if j < k {
        lemma_offset_monotone(fs, j, k - 1);
    }
}

/// The order of `edges`: factor after factor, each factor's variables in a
/// block of their own, in order; the block of factor `j` starts after the
/// variable slots of all factors before it.
pub proof fn lemma_incidences_layout<P>(fs: Seq<Factor<P>>)
    ensures
        incidences(fs).len() == offset(fs, fs.len() as int),
        forall|j: int, i: int|
            0 <= j < fs.len() && 0 <= i < fs[j].var_ids@.len() ==> #[trigger] incidences(fs)[offset(
                fs,
                j,
            ) + i] == (fs[j].id, #[trigger] fs[j].var_ids@[i]),
    decreases fs.len(),
{
    if fs.len() > 0 {
        let d = fs.drop_last();
        let f = fs.last();
        lemma_incidences_layout(d);
        assert(d.push(f) =~= fs);
        let m = f.var_ids@.map_values(|v: usize| (f.id, v));
        assert(incidences(fs) == incidences(d) + m);
        lemma_offset_prefix(d, f, d.len() as int);
        assert(offset(fs, fs.len() as int) == offset(fs, d.len() as int) + f.var_ids@.len());
        assert forall|j: int, i: int|
            0 <= j < fs.len() && 0 <= i < fs[j].var_ids@.len() implies #[trigger] incidences(fs)[offset(
                fs,
                j,
            ) + i] == (fs[j].id, #[trigger] fs[j].var_ids@[i]) by {
            lemma_offset_prefix(d, f, j);
            if j < d.len() {
                assert(fs[j] == d[j]);
                lemma_offset_monotone(d, j + 1, d.len() as int);
                assert(offset(d, j + 1) == offset(d, j) + d[j].var_ids@.len());
                assert(d[j].var_ids@[i] == fs[j].var_ids@[i]);
                lemma_offset_monotone(d, 0, j);
                assert(offset(d, j) + i < incidences(d).len());
                assert(incidences(d)[offset(d, j) + i] == (d[j].id, d[j].var_ids@[i]));
                assert((incidences(d) + m)[offset(d, j) + i] == incidences(d)[offset(d, j) + i]);
            } else {
                assert(m[i] == (f.id, f.var_ids@[i]));
                assert(offset(fs, j) == incidences(d).len());
                assert((incidences(d) + m)[incidences(d).len() + i] == m[i]);
            }
        }
    }
}

/// The incidences that `edges` lists, and that message passing keys its
/// messages by, are exactly the pairs (factor, variable named by it).
pub proof fn lemma_edges_are_incidences<P>(g: FactorGraph<P>, j: usize, v: usize)
    requires
        g.wf(),
    ensures
        incidences(g.factors@).contains((j, v)) <==> (j < g.factors@.len()
            && g.factors@[j as int].var_ids@.contains(v)),
{
    lemma_incidences_members(g.factors@, j, v);
}

/// Every factor listed for a variable is incident to it: the factor-to-
/// variable messages that a variable's product reads are among those keyed by
/// `edges`, so message passing has initialised each of them.
pub proof fn lemma_listed_are_edges<P>(g: FactorGraph<P>, v: usize, j: usize)
    requires
        g.wf(),
        g.factors@.len() <= usize::MAX,
        g.listed(v).contains(j),
    ensures
        incidences(g.factors@).contains((j, v)),
{
    lemma_listed_factors(g, v, j);
    lemma_edges_are_incidences(g, j, v);
}

impl<P> Default for FactorGraph<P> {
    fn default() -> (g: Self)
        ensures
            g.wf(),
            g.variables@.len() == 0,
            g.factors@.len() == 0,
            g.var_to_factors@ == Map::<usize, Vec<usize>>::empty(),
    {
        Self::new()
    }
}

} // verus!
