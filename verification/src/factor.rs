//! Factor tables: a joint table over a factor's variables, stored flat in
//! row-major order with each dimension of size 3, and the arithmetic that
//! turns an assignment into a table position and back.

use vstd::prelude::*;
use vstd::arithmetic::div_mod::{
    lemma_div_denominator, lemma_fundamental_div_mod, lemma_fundamental_div_mod_converse,
};

verus! {

/// 3 to the power `n`: the number of joint assignments of `n` ternary variables.
pub open spec fn pow3(n: nat) -> nat
    decreases n,
{
    if n == 0 {
        1
    } else {
        3 * pow3((n - 1) as nat)
    }
}

/// Row-major position of an assignment in a flat table whose dimensions are
/// all of size 3: the first variable is the most significant digit.
pub open spec fn flat_index(a: Seq<usize>) -> int
    decreases a.len(),
{
    if a.len() == 0 {
        0
    } else {
        flat_index(a.drop_last()) * 3 + a.last()
    }
}

/// `a` assigns a value position (0, 1 or 2) to each of `n` variables.
pub open spec fn is_assignment(a: Seq<usize>, n: nat) -> bool {
    &&& a.len() == n
    &&& forall|i: int| 0 <= i < a.len() ==> #[trigger] a[i] < 3
}

/// The base-3 digits of `c`, `n` of them, most significant first
/// (digits above the `n`-th are dropped).
pub open spec fn decode(c: nat, n: nat) -> Seq<usize> {
    Seq::new(n, |i: int| ((c / pow3((n - 1 - i) as nat)) % 3) as usize)
}

pub proof fn lemma_pow3_positive(n: nat)
    ensures
        pow3(n) >= 1,
    decreases n,
{
    if n > 0 {
        lemma_pow3_positive((n - 1) as nat);
    }
}

pub proof fn lemma_pow3_monotone(m: nat, n: nat)
    requires
        m <= n,
    ensures
        pow3(m) <= pow3(n),
    decreases n - m,
{
    if m < n {
        lemma_pow3_monotone(m, (n - 1) as nat);
        lemma_pow3_positive((n - 1) as nat);
    }
}

proof fn lemma_flat_index_nonneg(a: Seq<usize>)
    ensures
        flat_index(a) >= 0,
    decreases a.len(),
{
    if a.len() > 0 {
        lemma_flat_index_nonneg(a.drop_last());
    }
}

/// Extending an assignment by one digit multiplies its position by 3 and adds
/// the digit; positions of prefixes never exceed the position of the whole.
proof fn lemma_flat_index_prefix(a: Seq<usize>, k: int)
    requires
        0 <= k < a.len(),
    ensures
        flat_index(a.take(k + 1)) == flat_index(a.take(k)) * 3 + a[k],
        flat_index(a.take(k + 1)) <= flat_index(a),
    decreases a.len(),
{
    assert(a.take(k + 1).drop_last() =~= a.take(k));
    if k + 1 < a.len() {
        lemma_flat_index_prefix(a.drop_last(), k);
        assert(a.drop_last().take(k + 1) =~= a.take(k + 1));
        assert(a.drop_last().take(k) =~= a.take(k));
        lemma_flat_index_nonneg(a.drop_last());
    } else {
        assert(a.take(k + 1) =~= a);
    }
}

proof fn lemma_decode_drop_last(c: nat, n: nat)
    requires
        n > 0,
    ensures
        decode(c, n).drop_last() =~= decode(c / 3, (n - 1) as nat),
        decode(c, n).last() == c % 3,
{
    let d = decode(c, n);
    let e = decode(c / 3, (n - 1) as nat);
    assert(pow3(0) == 1);
    assert(c / 1 == c);
    assert forall|i: int| 0 <= i < n - 1 implies d[i] == e[i] by {
        let p: nat = pow3((n - 2 - i) as nat);
        lemma_pow3_positive((n - 2 - i) as nat);
        assert(pow3((n - 1 - i) as nat) == 3 * p);
        lemma_div_denominator(c as int, 3, p as int);
    }
}

/// Decoding a configuration number below `3^n` gives an assignment of `n`
/// variables whose table position is that number.
pub proof fn lemma_decode_then_index(c: nat, n: nat)
    requires
        c < pow3(n),
    ensures
        is_assignment(decode(c, n), n),
        flat_index(decode(c, n)) == c,
    decreases n,
{
    if n > 0 {
        lemma_decode_drop_last(c, n);
        lemma_fundamental_div_mod(c as int, 3);
        lemma_decode_then_index(c / 3, (n - 1) as nat);
        let d = decode(c, n);
        assert forall|i: int| 0 <= i < d.len() implies #[trigger] d[i] < 3 by {
            if i < n - 1 {
                assert(d[i] == d.drop_last()[i]);
            }
        }
    }
}

/// The table position of an assignment of `n` variables is below `3^n`, and
/// decoding that position gives the assignment back.
pub proof fn lemma_index_then_decode(a: Seq<usize>, n: nat)
    requires
        is_assignment(a, n),
    ensures
        0 <= flat_index(a) < pow3(n),
        decode(flat_index(a) as nat, n) == a,
    decreases n,
{
    if n > 0 {
        let d = a.drop_last();
        assert(is_assignment(d, (n - 1) as nat)) by {
            assert forall|i: int| 0 <= i < d.len() implies #[trigger] d[i] < 3 by {
                assert(d[i] == a[i]);
            }
        }
        lemma_index_then_decode(d, (n - 1) as nat);
        let f: int = flat_index(a);
        assert(a.last() < 3) by {
            assert(a[a.len() - 1] < 3);
        }
        lemma_fundamental_div_mod_converse(f, 3, flat_index(d), a.last() as int);
        lemma_decode_drop_last(f as nat, n);
        let e = decode(f as nat, n);
        assert forall|i: int| 0 <= i < n implies e[i] == a[i] by {
            if i < n - 1 {
                assert(e[i] == e.drop_last()[i]);
                assert(a[i] == d[i]);
            }
        }
        assert(e =~= a);
    } else {
        assert(a =~= Seq::<usize>::empty());
    }
}

/// The first variable is the most significant digit of a table position:
/// its value position counts `3^(n-1)`, and the remaining variables give the
/// rest of the position the same way.
pub proof fn lemma_flat_index_first_digit(a: Seq<usize>)
    requires
        a.len() > 0,
    ensures
        flat_index(a) == a[0] * pow3((a.len() - 1) as nat) + flat_index(a.drop_first()),
    decreases a.len(),
{
    let n = a.len();
    if n == 1 {
        assert(a.drop_last() =~= Seq::<usize>::empty());
        assert(a.drop_first() =~= Seq::<usize>::empty());
        assert(pow3(0) == 1);
        assert(flat_index(a.drop_last()) == 0);
        assert(a.last() == a[0]);
        assert(flat_index(a.drop_first()) == 0);
        assert(flat_index(a) == a[0]);
        assert(a[0] * 1 == a[0]);
    } else {
        let d = a.drop_last();
        lemma_flat_index_first_digit(d);
        assert(a.drop_first().drop_last() =~= d.drop_first());
        assert(a.drop_first().last() == a.last());
        assert(d[0] == a[0]);
        let p = pow3((n - 2) as nat);
        assert(pow3((n - 1) as nat) == 3 * p);
        let x = a[0] as int;
        assert(x * (3 * p) == 3 * (x * p)) by (nonlinear_arith);
        let fd = flat_index(d.drop_first());
        assert(flat_index(d) == x * p + fd);
        assert(flat_index(a.drop_first()) == fd * 3 + a.last());
        assert(flat_index(a) == flat_index(d) * 3 + a.last());
    }
}

/// The number of entries of a table over `n_vars` variables, `3^n_vars`,
/// or `None` where that number does not fit in a `usize`.
pub fn table_size(n_vars: usize) -> (r: Option<usize>)
    ensures
        match r {
            Some(s) => s == pow3(n_vars as nat),
            None => pow3(n_vars as nat) > usize::MAX,
        },
{
    let mut s: usize = 1;
    let mut i: usize = 0;
    while i < n_vars
        invariant
            i <= n_vars,
            s == pow3(i as nat),
        decreases n_vars - i,
    {
        match s.checked_mul(3) {
            Some(t) => {
                s = t;
            },
            None => {
                proof {
                    lemma_pow3_monotone((i + 1) as nat, n_vars as nat);
                }
                return None;
            },
        }
        i = i + 1;
    }
    Some(s)
}

/// The assignment numbered `config` among those of `n_vars` variables: its
/// base-3 digits, most significant first.
pub fn decode_assignment(config: usize, n_vars: usize) -> (a: Vec<usize>)
    ensures
        a@ == decode(config as nat, n_vars as nat),
{
    let mut a: Vec<usize> = Vec::new();
    let mut k: usize = 0;
    while k < n_vars
        invariant
            k <= n_vars,
            a@.len() == k,
        decreases n_vars - k,
    {
        a.push(0);
        k = k + 1;
    }
    let mut tmp: usize = config;
    let mut i: usize = n_vars;
    assert(pow3(0) == 1);
    assert(config as nat / 1 == config as nat);
    while i > 0
        invariant
            i <= n_vars,
            a@.len() == n_vars,
            tmp as nat == config as nat / pow3((n_vars - i) as nat),
            forall|j: int| i <= j < n_vars ==> a@[j] == decode(config as nat, n_vars as nat)[j],
        decreases i,
    {
        i = i - 1;
        a.set(i, tmp % 3);
        proof {
            let p: nat = pow3((n_vars - 1 - i) as nat);
            lemma_pow3_positive((n_vars - 1 - i) as nat);
            lemma_div_denominator(config as int, p as int, 3);
            assert(pow3((n_vars - i) as nat) == 3 * p);
            assert(p * 3 == 3 * p);
        }
        tmp = tmp / 3;
    }
    assert(a@ =~= decode(config as nat, n_vars as nat));
    a
}

/// For the configuration with digits `a` of a factor over `var_ids`, the
/// positions before `k` other than `pos`, in order: the variable at each and
/// its value position in the configuration.
pub open spec fn inputs_of(var_ids: Seq<usize>, a: Seq<usize>, pos: int, k: nat) -> Seq<
    (usize, usize),
>
    decreases k,
{
    if k == 0 {
        Seq::empty()
    } else {
        inputs_of(var_ids, a, pos, (k - 1) as nat) + if k - 1 == pos {
            Seq::empty()
        } else {
            seq![(var_ids[k - 1], a[k - 1])]
        }
    }
}

/// The inputs of a term are exactly the positions other than the receiving
/// one, in order: there are `n - 1` of them, the `k`-th is the variable and
/// value position at `k` below `pos` and at `k + 1` from `pos` on, and every
/// position other than `pos` contributes.
pub proof fn lemma_inputs_of_shape(var_ids: Seq<usize>, a: Seq<usize>, pos: int, k: nat)
    requires
        0 <= pos,
        k <= var_ids.len(),
        k <= a.len(),
    ensures
        inputs_of(var_ids, a, pos, k).len() == k - (if pos < k {
            1int
        } else {
            0int
        }),
        forall|i: int|
            0 <= i < inputs_of(var_ids, a, pos, k).len() ==> #[trigger] inputs_of(var_ids, a, pos, k)[i]
                == (var_ids[if i < pos {
                i
            } else {
                i + 1
            }], a[if i < pos {
                i
            } else {
                i + 1
            }]),
        forall|j: int|
            0 <= j < k && j != pos ==> inputs_of(var_ids, a, pos, k).contains(
                (#[trigger] var_ids[j], a[j]),
            ),
    decreases k,
{
    if k > 0 {
        lemma_inputs_of_shape(var_ids, a, pos, (k - 1) as nat);
        let p = inputs_of(var_ids, a, pos, (k - 1) as nat);
        let r = inputs_of(var_ids, a, pos, k);
        if k - 1 == pos {
            assert(r =~= p);
        } else {
            assert(r =~= p.push((var_ids[k - 1], a[k - 1])));
        }
        assert forall|j: int| 0 <= j < k && j != pos implies r.contains((#[trigger] var_ids[j], a[j])) by {
            let i: int = if j < pos { j } else { j - 1 };
            assert(r[i] == (var_ids[j], a[j]));
        }
    }
}

/// One term of the sum that makes a factor's message to one of its variables:
/// the table entry `config` times the incoming messages named in `inputs`,
/// added to the message entry `target`.
pub struct FactorTerm {
    /// The configuration, which is also the table position of its weight.
    pub config: usize,
    /// The value position of the receiving variable in the configuration.
    pub target: usize,
    /// For every other position of the factor, in order: the variable there
    /// and its value position in the configuration.
    pub inputs: Vec<(usize, usize)>,
}

/// `t` is the term of configuration `c` for the variable at position `pos`
/// of a factor over `var_ids`.
pub open spec fn is_term(t: FactorTerm, var_ids: Seq<usize>, pos: int, c: nat) -> bool {
    let a = decode(c, var_ids.len());
    &&& t.config == c
    &&& t.target == a[pos]
    &&& t.inputs@ == inputs_of(var_ids, a, pos, var_ids.len())
}

/// A factor node: a joint table over its variables, flat and row-major over
/// `var_ids`, each dimension of size 3. The entries are weights of any type.
#[derive(Debug, Clone)]
pub struct Factor<P> {
    pub id: usize,
    pub var_ids: Vec<usize>,
    pub table: Vec<P>,
}

impl<P> Factor<P> {
    /// The table has one entry per joint assignment of the variables.
    pub open spec fn wf(&self) -> bool {
        self.table@.len() == pow3(self.var_ids@.len())
    }

    /// A factor over `var_ids` with the given table; the table must hold
    /// exactly `3^var_ids.len()` entries.
    pub fn new(id: usize, var_ids: Vec<usize>, table: Vec<P>) -> (f: Self)
        requires
            table@.len() == pow3(var_ids@.len()),
        ensures
            f == (Factor { id, var_ids, table }),
            f.id == id,
            f.var_ids@ == var_ids@,
            f.table@ == table@,
            f.wf(),
    {
        Factor { id, var_ids, table }
    }

    /// The position of the first occurrence of `var_id` among the factor's
    /// variables, or `None` where the factor does not name it.
    pub fn position(&self, var_id: usize) -> (r: Option<usize>)
        ensures
            match r {
                Some(p) => {
                    &&& p < self.var_ids@.len()
                    &&& self.var_ids@[p as int] == var_id
                    &&& forall|q: int| 0 <= q < p ==> self.var_ids@[q] != var_id
                },
                None => !self.var_ids@.contains(var_id),
            },
    {
        let n: usize = self.var_ids.len();
        let mut k: usize = 0;
        while k < n
            invariant
                k <= n,
                n == self.var_ids@.len(),
                forall|q: int| 0 <= q < k ==> self.var_ids@[q] != var_id,
            decreases n - k,
        {
            if self.var_ids[k] == var_id {
                return Some(k);
            }
            k = k + 1;
        }
        None
    }

    /// The terms of the factor's message to the variable at position
    /// `var_pos`, one per configuration in increasing order; the number of
    /// configurations, `3^var_ids.len()`, must fit in a `usize`.
    pub fn message_terms(&self, var_pos: usize) -> (r: Vec<FactorTerm>)
        requires
            var_pos < self.var_ids@.len(),
            pow3(self.var_ids@.len()) <= usize::MAX,
        ensures
            r@.len() == pow3(self.var_ids@.len()),
            forall|c: int|
                0 <= c < r@.len() ==> is_term(#[trigger] r@[c], self.var_ids@, var_pos as int, c as nat),
            forall|c: int|
                0 <= c < r@.len() ==> (#[trigger] r@[c]).target < 3 && forall|k: int|
                    0 <= k < r@[c].inputs@.len() ==> (#[trigger] r@[c].inputs@[k]).1 < 3,
            forall|c: int|
                0 <= c < r@.len() ==> (#[trigger] r@[c]).config == c && r@[c].target == decode(
                    c as nat,
                    self.var_ids@.len(),
                )[var_pos as int] && r@[c].inputs@.len() == self.var_ids@.len() - 1 && forall|k: int|
                    0 <= k < r@[c].inputs@.len() ==> #[trigger] r@[c].inputs@[k] == (
                    self.var_ids@[if k < var_pos {
                        k
                    } else {
                        k + 1
                    }],
                    decode(c as nat, self.var_ids@.len())[if k < var_pos {
                        k
                    } else {
                        k + 1
                    }],
                ),
    {
        let n: usize = self.var_ids.len();
        let n_configs: usize = match table_size(n) {
            Some(s) => s,
            None => {
                return Vec::new();
            },
        };
        let mut r: Vec<FactorTerm> = Vec::new();
        let mut c: usize = 0;
        while c < n_configs
            invariant
                c <= n_configs,
                n == self.var_ids@.len(),
                var_pos < n,
                n_configs == pow3(n as nat),
                r@.len() == c,
                forall|i: int|
                    0 <= i < c ==> is_term(#[trigger] r@[i], self.var_ids@, var_pos as int, i as nat),
                forall|i: int|
                    0 <= i < c ==> (#[trigger] r@[i]).target < 3 && forall|k: int|
                        0 <= k < r@[i].inputs@.len() ==> (#[trigger] r@[i].inputs@[k]).1 < 3,
                forall|i: int|
                    0 <= i < c ==> (#[trigger] r@[i]).config == i && r@[i].target == decode(
                        i as nat,
                        self.var_ids@.len(),
                    )[var_pos as int] && r@[i].inputs@.len() == self.var_ids@.len() - 1
                        && forall|k: int|
                        0 <= k < r@[i].inputs@.len() ==> #[trigger] r@[i].inputs@[k] == (
                        self.var_ids@[if k < var_pos {
                            k
                        } else {
                            k + 1
                        }],
                        decode(i as nat, self.var_ids@.len())[if k < var_pos {
                            k
                        } else {
                            k + 1
                        }],
                    ),
            decreases n_configs - c,
        {
            let a = decode_assignment(c, n);
            let mut inputs: Vec<(usize, usize)> = Vec::new();
            let mut j: usize = 0;
            while j < n
                invariant
                    j <= n,
                    n == self.var_ids@.len(),
                    a@.len() == n,
                    a@ == decode(c as nat, n as nat),
                    inputs@ == inputs_of(self.var_ids@, a@, var_pos as int, j as nat),
                    forall|k: int| 0 <= k < inputs@.len() ==> (#[trigger] inputs@[k]).1 < 3,
                decreases n - j,
            {
                if j != var_pos {
                    inputs.push((self.var_ids[j], a[j]));
                }
                j = j + 1;
            }
            proof {
                lemma_inputs_of_shape(self.var_ids@, a@, var_pos as int, n as nat);
            }
            let t = FactorTerm { config: c, target: a[var_pos], inputs };
            r.push(t);
            c = c + 1;
        }
        r
    }

    /// The table entry of an assignment (each element a value position 0, 1
    /// or 2), read at its row-major position.
    pub fn get_prob(&self, assignment: &[usize]) -> (p: P) where P: Copy
        requires
            flat_index(assignment@) < self.table@.len(),
        ensures
            p == self.table@[flat_index(assignment@)],
    {
        let table_len: usize = self.table.len();
        let mut idx: usize = 0;
        let mut k: usize = 0;
        while k < assignment.len()
            invariant
                table_len == self.table@.len(),
                k <= assignment@.len(),
                idx == flat_index(assignment@.take(k as int)),
                flat_index(assignment@) < self.table@.len(),
            decreases assignment@.len() - k,
        {
            proof {
                lemma_flat_index_prefix(assignment@, k as int);
            }
            idx = idx * 3 + assignment[k];
            k = k + 1;
        }
        assert(assignment@.take(k as int) =~= assignment@);
        self.table[idx]
    }
}

/// Every assignment of a well-formed factor's variables names an entry of its
/// table, so `get_prob` can read any of them.
pub proof fn lemma_assignment_in_table<P>(f: Factor<P>, a: Seq<usize>)
    requires
        f.wf(),
        is_assignment(a, f.var_ids@.len()),
    ensures
        0 <= flat_index(a) < f.table@.len(),
{
    lemma_index_then_decode(a, f.var_ids@.len());
}

} // verus!
