use std::collections::HashMap;
use vstd::arithmetic::power::*;
use vstd::prelude::*;
use vstd::seq_lib::lemma_seq_contains_after_push;

verus! {

/// Handle of an input cell: the index of its record.
#[derive(Clone, Copy, Debug, PartialEq, Eq, Hash, Structural)]
pub struct InputCellId(pub usize);

/// Handle of a compute cell: the index of its record.
#[derive(Clone, Copy, Debug, PartialEq, Eq, Hash, Structural)]
pub struct ComputeCellId(pub usize);

/// A handle of either kind.
#[derive(Clone, Copy, Debug, PartialEq, Eq, Hash, Structural)]
pub enum CellId {
    Input(InputCellId),
    Compute(ComputeCellId),
}

/// Handle of a change callback; no registration of callbacks exists.
#[derive(Clone, Copy, Debug, PartialEq, Eq)]
pub struct CallbackId();

/// Why a callback could not be removed.
#[derive(Debug, PartialEq, Eq)]
pub enum RemoveCallbackError {
    NonexistentCell,
    NonexistentCallback,
}

/// The record of an input cell.
pub struct InputCell<T> {
    value: T,
}

/// The record of a compute cell: its cached value, if it was ever computed,
/// its formula, and the cells it reads, in the order the formula takes them.
pub struct ComputeCell<T, F> {
    value: Option<T>,
    func: F,
    dependencies: Vec<CellId>,
}

/// The engine: the cell records, and an index from each cell to the compute
/// cells that read it.
///
/// The index is kept in two halves, by the kind of the cell, each keyed by
/// the handle's index; an entry lists each dependent once. Every formula has
/// the type `F`: with `F = Box<dyn Fn(&[T]) -> T>` or a `fn` pointer type,
/// each compute cell still has a formula of its own.
pub struct Reactor<T, F> {
    all_inputs: Vec<InputCell<T>>,
    all_computes: Vec<ComputeCell<T, F>>,
    input_dependents: HashMap<usize, Vec<usize>>,
    compute_dependents: HashMap<usize, Vec<usize>>,
}

impl<T: Copy + PartialEq + Default, F: Fn(&[T]) -> T> Default for Reactor<T, F> {
    fn default() -> (r: Self)
        ensures
            r.num_inputs() == 0,
            r.num_computes() == 0,
            r.wf(),
            r.settled(),
    {
        Self::new()
    }
}

/// The sequence of values `args` can be handed to `f`, as a slice, and
/// `f` may answer `r`.
pub open spec fn produces<T, F: Fn(&[T]) -> T>(f: F, args: Seq<T>, r: T) -> bool {
    exists|s: &[T]| s@ == args && #[trigger] f.ensures((s,), r)
}

/// `f` may be called on every slice of `n` values.
pub open spec fn accepts<T, F: Fn(&[T]) -> T>(f: F, n: nat) -> bool {
    forall|s: &[T]| s@.len() == n ==> #[trigger] f.requires((s,))
}

/// `f` gives one answer at most for each slice.
pub open spec fn deterministic<T, F: Fn(&[T]) -> T>(f: F) -> bool {
    forall|s: &[T], r1: T, r2: T|
        #[trigger] f.ensures((s,), r1) && #[trigger] f.ensures((s,), r2) ==> r1 == r2
}

/// The handle of compute cell `c`.
pub open spec fn compute_id(c: int) -> CellId {
    CellId::Compute(ComputeCellId(c as usize))
}

/// `h` ranks the graph whose compute cell `c` reads the cells `g[c]`: a
/// compute cell ranks strictly below every cell it reads.
pub open spec fn ranked(g: Seq<Seq<CellId>>, h: spec_fn(CellId) -> nat) -> bool {
    forall|c: int, j: int|
        0 <= c < g.len() && 0 <= j < g[c].len() ==> h(compute_id(c)) < h(#[trigger] g[c][j])
}

/// The dependency graph `g` has no cycle.
pub open spec fn acyclic(g: Seq<Seq<CellId>>) -> bool {
    exists|h: spec_fn(CellId) -> nat| ranked(g, h)
}

/// The dependents recorded under key `k` of one half of the index.
pub open spec fn entry_of(m: Map<usize, Vec<usize>>, k: usize) -> Seq<usize> {
    if m.contains_key(k) {
        m[k]@
    } else {
        Seq::empty()
    }
}

spec fn weight(h: spec_fn(CellId) -> nat, b: nat, v: usize) -> nat {
    pow(b as int, h(compute_id(v as int))) as nat
}

/// What a queue of pending compute cells still weighs: a cell weighs more
/// than all the cells that read it together.
spec fn total_weight(s: Seq<usize>, h: spec_fn(CellId) -> nat, b: nat) -> nat
    decreases s.len(),
{
    if s.len() == 0 {
        0
    } else {
        total_weight(s.drop_last(), h, b) + weight(h, b, s.last())
    }
}

proof fn lemma_total_weight_concat(s1: Seq<usize>, s2: Seq<usize>, h: spec_fn(CellId) -> nat, b: nat)
    ensures
        total_weight(s1 + s2, h, b) == total_weight(s1, h, b) + total_weight(s2, h, b),
    decreases s2.len(),
{
    if s2.len() == 0 {
        assert(s1 + s2 =~= s1);
    } else {
        assert((s1 + s2).drop_last() =~= s1 + s2.drop_last());
        lemma_total_weight_concat(s1, s2.drop_last(), h, b);
    }
}

proof fn lemma_total_weight_bound(s: Seq<usize>, h: spec_fn(CellId) -> nat, b: nat, e: nat)
    requires
        b > 0,
        forall|i: int| 0 <= i < s.len() ==> h(compute_id(s[i] as int)) <= e,
    ensures
        total_weight(s, h, b) <= s.len() * pow(b as int, e),
    decreases s.len(),
{
    if s.len() > 0 {
        let rest = s.drop_last();
        assert forall|i: int| 0 <= i < rest.len() implies h(compute_id(rest[i] as int)) <= e by {
            assert(rest[i] == s[i]);
        }
        lemma_total_weight_bound(rest, h, b, e);
        assert(h(compute_id(s[s.len() - 1] as int)) <= e);
        lemma_pow_increases(b, h(compute_id(s.last() as int)), e);
        lemma_pow_positive(b as int, h(compute_id(s.last() as int)));
        let p = pow(b as int, e);
        let w = weight(h, b, s.last()) as int;
        let n = s.len() as int;
        assert(total_weight(rest, h, b) <= (n - 1) * p);
        assert((n - 1) * p + w <= n * p) by (nonlinear_arith)
            requires
                w <= p,
        ;
    }
}

/// Taking the front cell off a queue and appending the cells that read it,
/// each ranked below it and fewer than `b`, makes the queue lighter.
proof fn lemma_queue_step(p: Seq<usize>, ds: Seq<usize>, h: spec_fn(CellId) -> nat, b: nat)
    requires
        p.len() > 0,
        b > ds.len(),
        forall|i: int| 0 <= i < ds.len() ==> h(compute_id(ds[i] as int)) < h(compute_id(p[0] as int)),
    ensures
        total_weight(p.subrange(1, p.len() as int) + ds, h, b) < total_weight(p, h, b),
{
    let v = p[0];
    let rest = p.subrange(1, p.len() as int);
    let e = h(compute_id(v as int));
    assert(p =~= seq![v] + rest);
    assert(seq![v].drop_last() =~= Seq::<usize>::empty());
    lemma_total_weight_concat(seq![v], rest, h, b);
    lemma_total_weight_concat(rest, ds, h, b);
    lemma_pow_positive(b as int, e);
    if ds.len() > 0 {
        let e1 = (e - 1) as nat;
        lemma_total_weight_bound(ds, h, b, e1);
        reveal(pow);
        assert(pow(b as int, e) == b * pow(b as int, e1));
        let q = pow(b as int, e1);
        lemma_pow_positive(b as int, e1);
        let n = ds.len() as int;
        assert(n * q < b * q) by (nonlinear_arith)
            requires
                n < b,
                q > 0,
        ;
    }
}

/// Adds `c` to the dependents under `k`, unless it is there already.
fn index_insert(m: &mut HashMap<usize, Vec<usize>>, k: usize, c: usize)
    requires
        entry_of(old(m)@, k).no_duplicates(),
    ensures
        forall|k2: usize| k2 != k ==> entry_of(final(m)@, k2) == entry_of(old(m)@, k2),
        forall|e: usize|
            #[trigger] entry_of(final(m)@, k).contains(e) <==> (entry_of(old(m)@, k).contains(e)
                || e == c),
        entry_of(final(m)@, k).no_duplicates(),
{
    let mut s = match m.remove(&k) {
        Some(v) => v,
        None => Vec::new(),
    };
    assert(s@ == entry_of(old(m)@, k));
    let mut i: usize = 0;
    let mut found = false;
    while i < s.len()
        invariant
            i <= s.len(),
            found <==> s@.subrange(0, i as int).contains(c),
        decreases s.len() - i,
    {
        if s[i] == c {
            found = true;
        }
        proof {
            assert(s@.subrange(0, i + 1) =~= s@.subrange(0, i as int).push(s@[i as int]));
            lemma_seq_contains_after_push(s@.subrange(0, i as int), s@[i as int], c);
        }
        i += 1;
    }
    assert(s@.subrange(0, s.len() as int) =~= s@);
    if !found {
        let ghost prev = s@;
        s.push(c);
        assert forall|e: usize| s@.contains(e) <==> (entry_of(old(m)@, k).contains(e) || e == c) by {
            lemma_seq_contains_after_push(prev, c, e);
        }
    }
    m.insert(k, s);
}

/// Takes `c` out of the dependents under `k`.
fn index_remove(m: &mut HashMap<usize, Vec<usize>>, k: usize, c: usize)
    requires
        entry_of(old(m)@, k).no_duplicates(),
    ensures
        forall|k2: usize| k2 != k ==> entry_of(final(m)@, k2) == entry_of(old(m)@, k2),
        forall|e: usize|
            #[trigger] entry_of(final(m)@, k).contains(e) <==> (entry_of(old(m)@, k).contains(e)
                && e != c),
        entry_of(final(m)@, k).no_duplicates(),
{
    let s = match m.remove(&k) {
        Some(v) => v,
        None => Vec::new(),
    };
    let ghost s0 = entry_of(old(m)@, k);
    assert(s@ == s0);
    let mut kept: Vec<usize> = Vec::new();
    let mut i: usize = 0;
    while i < s.len()
        invariant
            i <= s.len(),
            s@ == s0,
            s0.no_duplicates(),
            kept@.no_duplicates(),
            forall|e: usize|
                #[trigger] kept@.contains(e) <==> (s0.subrange(0, i as int).contains(e) && e != c),
        decreases s.len() - i,
    {
        let e = s[i];
        assert(s0.subrange(0, i + 1) =~= s0.subrange(0, i as int).push(e));
        proof {
            assert forall|x: usize| #[trigger] s0.subrange(0, i + 1).contains(x) <==> (
            s0.subrange(0, i as int).contains(x) || x == e) by {
                lemma_seq_contains_after_push(s0.subrange(0, i as int), e, x);
            }
        }
        if e != c {
            assert(!kept@.contains(e)) by {
                if s0.subrange(0, i as int).contains(e) {
                    let j = choose|j: int| 0 <= j < i && s0.subrange(0, i as int)[j] == e;
                    assert(s0[j] == s0[i as int]);
                }
            }
            let ghost prev = kept@;
            kept.push(e);
            assert forall|x: usize| #[trigger] kept@.contains(x) <==> (prev.contains(x) || x == e) by {
                lemma_seq_contains_after_push(prev, e, x);
            }
        }
        i += 1;
    }
    assert(s0.subrange(0, s.len() as int) =~= s0);
    m.insert(k, kept);
}

fn push_all(queue: &mut Vec<usize>, items: &Vec<usize>)
    ensures
        final(queue)@ == old(queue)@ + items@,
{
    let mut i: usize = 0;
    while i < items.len()
        invariant
            i <= items@.len(),
            queue@ == old(queue)@ + items@.subrange(0, i as int),
        decreases items@.len() - i,
    {
        queue.push(items[i]);
        assert(items@.subrange(0, i + 1) =~= items@.subrange(0, i as int).push(items@[i as int]));
        i += 1;
    }
    assert(items@.subrange(0, items@.len() as int) =~= items@);
}

impl<T: Copy + PartialEq + Default, F: Fn(&[T]) -> T> Reactor<T, F> {
    pub closed spec fn num_inputs(&self) -> nat {
        self.all_inputs@.len()
    }

    pub closed spec fn num_computes(&self) -> nat {
        self.all_computes@.len()
    }

    pub closed spec fn input_value(&self, i: int) -> T {
        self.all_inputs@[i].value
    }

    pub closed spec fn cached(&self, c: int) -> Option<T> {
        self.all_computes@[c].value
    }

    pub closed spec fn formula(&self, c: int) -> F {
        self.all_computes@[c].func
    }

    pub closed spec fn deps_of(&self, c: int) -> Seq<CellId> {
        self.all_computes@[c].dependencies@
    }

    /// The compute cells recorded as reading `x`.
    pub closed spec fn dependents(&self, x: CellId) -> Seq<usize> {
        match x {
            CellId::Input(i) => entry_of(self.input_dependents@, i.0),
            CellId::Compute(c) => entry_of(self.compute_dependents@, c.0),
        }
    }

    /// The dependency lists of all compute cells, by handle.
    pub open spec fn dep_graph(&self) -> Seq<Seq<CellId>> {
        Seq::new(self.num_computes(), |c: int| self.deps_of(c))
    }

    /// The index matches the dependency lists both ways and holds each
    /// dependent once, every formula takes as many values as its cell has
    /// dependencies, and the graph has no cycle.
    pub open spec fn wf(&self) -> bool {
        &&& forall|x: CellId, c: usize|
            #![trigger self.dependents(x).contains(c)]
            #![trigger self.deps_of(c as int).contains(x)]
            self.dependents(x).contains(c) <==> (c < self.num_computes() && self.deps_of(
                c as int,
            ).contains(x))
        &&& forall|x: CellId| #[trigger] self.dependents(x).no_duplicates()
        &&& forall|c: int|
            0 <= c < self.num_computes() ==> #[trigger] accepts(
                self.formula(c),
                self.deps_of(c).len(),
            )
        &&& acyclic(self.dep_graph())
    }

    /// Every cell of `ds` has a value.
    pub open spec fn all_resolve(&self, ds: Seq<CellId>) -> bool {
        forall|j: int| 0 <= j < ds.len() ==> (#[trigger] self.value_of(ds[j])) is Some
    }

    /// The values of the cells of `ds`, in order.
    pub open spec fn arg_values(&self, ds: Seq<CellId>) -> Seq<T> {
        ds.map_values(|d: CellId| self.value_of(d)->Some_0)
    }

    /// Compute cell `c` agrees with its formula: where all its dependencies
    /// have values, it holds what the formula gives on them.
    pub open spec fn is_fixed(&self, c: int) -> bool {
        self.all_resolve(self.deps_of(c)) ==> match self.cached(c) {
            Some(r) => produces(self.formula(c), self.arg_values(self.deps_of(c)), r),
            None => false,
        }
    }

    /// Every compute cell agrees with its formula.
    pub open spec fn settled(&self) -> bool {
        forall|c: int| 0 <= c < self.num_computes() ==> #[trigger] self.is_fixed(c)
    }

    /// Every formula gives one answer at most for each slice.
    pub open spec fn all_deterministic(&self) -> bool {
        forall|c: int| 0 <= c < self.num_computes() ==> #[trigger] deterministic(self.formula(c))
    }

    /// The two states differ at most in the cached values of compute cells.
    pub open spec fn same_graph(&self, o: Self) -> bool {
        &&& self.num_inputs() == o.num_inputs()
        &&& forall|i: int| 0 <= i < self.num_inputs() ==> #[trigger] self.input_value(i) == o.input_value(i)
        &&& self.same_wiring(o)
    }

    /// The two states have the same compute cells, formulas, dependency
    /// lists and index; values may differ.
    pub open spec fn same_wiring(&self, o: Self) -> bool {
        &&& self.num_computes() == o.num_computes()
        &&& forall|c: int| 0 <= c < self.num_computes() ==> #[trigger] self.formula(c) == o.formula(c)
        &&& forall|c: int| 0 <= c < self.num_computes() ==> #[trigger] self.deps_of(c) == o.deps_of(c)
        &&& forall|x: CellId| #[trigger] self.dependents(x) == o.dependents(x)
    }

    /// The two states hold the same cached values.
    pub open spec fn same_values(&self, o: Self) -> bool {
        forall|c: int| 0 <= c < self.num_computes() ==> #[trigger] self.cached(c) == o.cached(c)
    }

    /// The largest number of dependents of a compute cell below `k`.
    spec fn max_deg(&self, k: nat) -> nat
        decreases k,
    {
        if k == 0 {
            0
        } else {
            let d = self.dependents(compute_id(k - 1)).len();
            let m = self.max_deg((k - 1) as nat);
            if d > m {
                d
            } else {
                m
            }
        }
    }

    proof fn lemma_max_deg(&self, k: nat, v: int)
        requires
            0 <= v < k,
        ensures
            self.dependents(compute_id(v)).len() <= self.max_deg(k),
        decreases k,
    {
        if v < k - 1 {
            self.lemma_max_deg((k - 1) as nat, v);
        }
    }

    /// `x` names an existing cell.
    pub open spec fn valid(&self, x: CellId) -> bool {
        match x {
            CellId::Input(i) => i.0 < self.num_inputs(),
            CellId::Compute(c) => c.0 < self.num_computes(),
        }
    }

    /// No compute cell lists `x` among its dependencies.
    pub open spec fn unreferenced(&self, x: CellId) -> bool {
        forall|c: int| 0 <= c < self.num_computes() ==> !#[trigger] self.deps_of(c).contains(x)
    }

    /// `r` is this state after `create_input(v)`, which returned `h`.
    pub open spec fn input_created(&self, r: Self, v: T, h: InputCellId) -> bool {
        &&& h.0 == self.num_inputs()
        &&& r.num_inputs() == self.num_inputs() + 1
        &&& r.input_value(h.0 as int) == v
        &&& forall|i: int| 0 <= i < self.num_inputs() ==> #[trigger] r.input_value(i) == self.input_value(i)
        &&& r.same_wiring(*self)
        &&& r.same_values(*self)
        &&& r.wf()
        &&& self.settled() && self.unreferenced(CellId::Input(h)) ==> r.settled()
    }

    /// `r` is this state after `create_compute(deps, f)`, which returned `h`.
    pub open spec fn compute_created(&self, r: Self, deps: Seq<CellId>, f: F, h: ComputeCellId) -> bool {
        &&& h.0 == self.num_computes()
        &&& r.num_computes() == self.num_computes() + 1
        &&& r.num_inputs() == self.num_inputs()
        &&& forall|i: int| 0 <= i < self.num_inputs() ==> #[trigger] r.input_value(i) == self.input_value(i)
        &&& forall|c: int| 0 <= c < self.num_computes() ==> #[trigger] r.formula(c) == self.formula(c)
        &&& forall|c: int| 0 <= c < self.num_computes() ==> #[trigger] r.deps_of(c) == self.deps_of(c)
        &&& forall|c: int| 0 <= c < self.num_computes() ==> #[trigger] r.cached(c) == self.cached(c)
        &&& r.formula(h.0 as int) == f
        &&& r.deps_of(h.0 as int) == deps
        &&& forall|x: CellId, c: usize|
            #[trigger] r.dependents(x).contains(c) <==> (self.dependents(x).contains(c) || (c == h.0
                && deps.contains(x)))
        &&& self.all_resolve(deps) ==> match r.cached(h.0 as int) {
            Some(v) => produces(f, self.arg_values(deps), v),
            None => false,
        }
        &&& !self.all_resolve(deps) ==> r.cached(h.0 as int) is None
        &&& r.wf()
        &&& self.settled() && self.unreferenced(CellId::Compute(h)) ==> r.settled()
    }

    /// `r` is this state after `change_input(h, v)`.
    pub open spec fn input_changed(&self, r: Self, h: InputCellId, v: T) -> bool {
        &&& r.num_inputs() == self.num_inputs()
        &&& r.input_value(h.0 as int) == v
        &&& forall|i: int|
            0 <= i < self.num_inputs() && i != h.0 ==> #[trigger] r.input_value(i) == self.input_value(i)
        &&& r.same_wiring(*self)
        &&& r.wf()
        &&& forall|c: int|
            0 <= c < self.num_computes() && self.downstream(CellId::Input(h), c as usize)
                ==> #[trigger] r.is_fixed(c)
        &&& forall|c: int|
            0 <= c < self.num_computes() && !self.downstream(CellId::Input(h), c as usize)
                ==> #[trigger] r.cached(c) == self.cached(c)
        &&& forall|c: int|
            0 <= c < self.num_computes() && !r.all_resolve(r.deps_of(c)) ==> #[trigger] r.cached(c)
                == self.cached(c)
        &&& forall|c: int|
            0 <= c < self.num_computes() && (self.cached(c) is Some) ==> (#[trigger] r.cached(c) is Some)
        &&& self.settled() ==> r.settled()
        &&& self.all_deterministic() && self.input_value(h.0 as int) == v && (forall|c: int|
            0 <= c < self.num_computes() && self.downstream(CellId::Input(h), c as usize)
                ==> #[trigger] self.is_fixed(c)) ==> r.same_values(*self)
    }

    /// `r` is this state after `change_compute(deps, f, h)`.
    pub open spec fn compute_changed(&self, r: Self, deps: Seq<CellId>, f: F, h: ComputeCellId) -> bool {
        &&& r.num_inputs() == self.num_inputs()
        &&& forall|i: int| 0 <= i < self.num_inputs() ==> #[trigger] r.input_value(i) == self.input_value(i)
        &&& r.num_computes() == self.num_computes()
        &&& r.formula(h.0 as int) == f
        &&& r.deps_of(h.0 as int) == deps
        &&& forall|c: int|
            0 <= c < self.num_computes() && c != h.0 ==> #[trigger] r.formula(c) == self.formula(c)
        &&& forall|c: int|
            0 <= c < self.num_computes() && c != h.0 ==> #[trigger] r.deps_of(c) == self.deps_of(c)
        &&& forall|x: CellId| #[trigger] r.dependents(x).contains(h.0) <==> deps.contains(x)
        &&& forall|x: CellId, c: usize|
            c != h.0 ==> (#[trigger] r.dependents(x).contains(c) <==> self.dependents(x).contains(c))
        &&& r.wf()
        &&& self.all_resolve(deps) ==> match r.cached(h.0 as int) {
            Some(v) => produces(f, self.arg_values(deps), v),
            None => false,
        }
        &&& !self.all_resolve(deps) ==> r.cached(h.0 as int) == self.cached(h.0 as int)
        &&& r.is_fixed(h.0 as int)
        &&& forall|c: int|
            0 <= c < self.num_computes() && r.downstream(CellId::Compute(h), c as usize)
                ==> #[trigger] r.is_fixed(c)
        &&& forall|c: int|
            0 <= c < self.num_computes() && c != h.0 && !r.downstream(CellId::Compute(h), c as usize)
                ==> #[trigger] r.cached(c) == self.cached(c)
        &&& forall|c: int|
            0 <= c < self.num_computes() && c != h.0 && !r.all_resolve(r.deps_of(c))
                ==> #[trigger] r.cached(c) == self.cached(c)
        &&& forall|c: int|
            0 <= c < self.num_computes() && (self.cached(c) is Some) ==> (#[trigger] r.cached(c) is Some)
        &&& self.settled() ==> r.settled()
    }

    /// `s` holds the dependents of `start`, and the dependents of each
    /// compute cell it holds.
    pub open spec fn closed_under(&self, s: Set<usize>, start: CellId) -> bool {
        &&& forall|c: usize| #[trigger] self.dependents(start).contains(c) ==> s.contains(c)
        &&& forall|v: usize, c: usize|
            #![trigger s.contains(v), self.dependents(compute_id(v as int)).contains(c)]
            s.contains(v) && self.dependents(compute_id(v as int)).contains(c) ==> s.contains(c)
    }

    /// Compute cell `c` reads `start`, directly or through other compute
    /// cells: it lies in every set closed under the dependents of `start`.
    pub open spec fn downstream(&self, start: CellId, c: usize) -> bool {
        forall|s: Set<usize>| #[trigger] self.closed_under(s, start) ==> s.contains(c)
    }

    proof fn lemma_downstream_first(&self, start: CellId, d: usize)
        requires
            self.dependents(start).contains(d),
        ensures
            self.downstream(start, d),
    {
        assert forall|s: Set<usize>| #[trigger] self.closed_under(s, start) implies s.contains(d) by {}
    }

    proof fn lemma_downstream_step(&self, start: CellId, v: usize, d: usize)
        requires
            self.downstream(start, v),
            self.dependents(compute_id(v as int)).contains(d),
        ensures
            self.downstream(start, d),
    {
        assert forall|s: Set<usize>| #[trigger] self.closed_under(s, start) implies s.contains(d) by {
            assert(s.contains(v));
        }
    }

    proof fn lemma_downstream_same(a: Self, b: Self, start: CellId, c: usize)
        requires
            forall|x: CellId| #[trigger] a.dependents(x) == b.dependents(x),
        ensures
            a.downstream(start, c) == b.downstream(start, c),
    {
        assert forall|s: Set<usize>| #[trigger] a.closed_under(s, start) == b.closed_under(s, start) by {
            assert(a.dependents(start) == b.dependents(start));
            if a.closed_under(s, start) {
                assert forall|v: usize, d: usize|
                    #![trigger s.contains(v), b.dependents(compute_id(v as int)).contains(d)]
                    s.contains(v) && b.dependents(compute_id(v as int)).contains(d) implies s.contains(d) by {
                    assert(a.dependents(compute_id(v as int)) == b.dependents(compute_id(v as int)));
                }
            }
            if b.closed_under(s, start) {
                assert forall|v: usize, d: usize|
                    #![trigger s.contains(v), a.dependents(compute_id(v as int)).contains(d)]
                    s.contains(v) && a.dependents(compute_id(v as int)).contains(d) implies s.contains(d) by {
                    assert(a.dependents(compute_id(v as int)) == b.dependents(compute_id(v as int)));
                }
            }
        }
        if a.downstream(start, c) {
            assert forall|s: Set<usize>| #[trigger] b.closed_under(s, start) implies s.contains(c) by {
                assert(a.closed_under(s, start));
            }
        }
        if b.downstream(start, c) {
            assert forall|s: Set<usize>| #[trigger] a.closed_under(s, start) implies s.contains(c) by {
                assert(b.closed_under(s, start));
            }
        }
    }

    /// In a well-formed state a compute cell ranks below every cell it reads.
    proof fn lemma_dependent_rank(&self, h: spec_fn(CellId) -> nat, x: CellId, d: usize)
        requires
            self.wf(),
            ranked(self.dep_graph(), h),
            self.dependents(x).contains(d),
        ensures
            (d as int) < self.num_computes(),
            h(compute_id(d as int)) < h(x),
    {
        assert(self.deps_of(d as int).contains(x));
        let j = choose|j: int| 0 <= j < self.deps_of(d as int).len() && self.deps_of(d as int)[j] == x;
        assert(self.dep_graph()[d as int][j] == x);
    }

    /// A compute cell in a well-formed state is not downstream of itself.
    proof fn lemma_not_own_downstream(&self, v: usize)
        requires
            self.wf(),
            v < self.num_computes(),
        ensures
            !self.downstream(compute_id(v as int), v),
    {
        let h = choose|h: spec_fn(CellId) -> nat| ranked(self.dep_graph(), h);
        let s = Set::new(|c: usize| h(compute_id(c as int)) < h(compute_id(v as int)));
        assert forall|c: usize| #[trigger] self.dependents(compute_id(v as int)).contains(c) implies s.contains(c) by {
            self.lemma_dependent_rank(h, compute_id(v as int), c);
        }
        assert forall|u: usize, c: usize|
            #![trigger s.contains(u), self.dependents(compute_id(u as int)).contains(c)]
            s.contains(u) && self.dependents(compute_id(u as int)).contains(c) implies s.contains(c) by {
            self.lemma_dependent_rank(h, compute_id(u as int), c);
        }
        assert(self.closed_under(s, compute_id(v as int)));
        assert(!s.contains(v));
    }

    /// A compute cell that is not downstream of `start` reads neither `start`
    /// nor any compute cell downstream of it.
    proof fn lemma_upstream_reads(&self, start: CellId, c: int, j: int)
        requires
            self.wf(),
            0 <= c < self.num_computes(),
            c <= usize::MAX,
            0 <= j < self.deps_of(c).len(),
            !self.downstream(start, c as usize),
        ensures
            self.deps_of(c)[j] != start,
            forall|k: usize| self.deps_of(c)[j] == compute_id(k as int) ==> !self.downstream(start, k),
    {
        let x = self.deps_of(c)[j];
        assert(self.deps_of((c as usize) as int).contains(x));
        if x == start {
            self.lemma_downstream_first(start, c as usize);
        }
        assert forall|k: usize| self.deps_of(c)[j] == compute_id(k as int) implies !self.downstream(start, k) by {
            if self.downstream(start, k) {
                self.lemma_downstream_step(start, k, c as usize);
            }
        }
    }

    proof fn lemma_resolve_mono(a: Self, b: Self, ds: Seq<CellId>)
        requires
            a.all_resolve(ds),
            forall|j: int| 0 <= j < ds.len() && (a.value_of(ds[j]) is Some) ==> (b.value_of(ds[j]) is Some),
        ensures
            b.all_resolve(ds),
    {
        assert forall|j: int| 0 <= j < ds.len() implies (#[trigger] b.value_of(ds[j])) is Some by {
            assert(a.value_of(ds[j]) is Some);
        }
    }

    proof fn lemma_args_frame(a: Self, b: Self, ds: Seq<CellId>)
        requires
            forall|j: int| 0 <= j < ds.len() ==> a.value_of(ds[j]) == b.value_of(ds[j]),
        ensures
            a.all_resolve(ds) == b.all_resolve(ds),
            a.arg_values(ds) == b.arg_values(ds),
    {
        assert(a.arg_values(ds) =~= b.arg_values(ds));
        if a.all_resolve(ds) {
            assert forall|j: int| 0 <= j < ds.len() implies (#[trigger] b.value_of(ds[j])) is Some by {
                assert(a.value_of(ds[j]) is Some);
            }
        }
        if b.all_resolve(ds) {
            assert forall|j: int| 0 <= j < ds.len() implies (#[trigger] a.value_of(ds[j])) is Some by {
                assert(b.value_of(ds[j]) is Some);
            }
        }
    }

    proof fn lemma_fixed_frame(a: Self, b: Self, c: int)
        requires
            a.formula(c) == b.formula(c),
            a.deps_of(c) == b.deps_of(c),
            a.cached(c) == b.cached(c),
            forall|j: int|
                0 <= j < a.deps_of(c).len() ==> a.value_of(a.deps_of(c)[j]) == b.value_of(
                    a.deps_of(c)[j],
                ),
        ensures
            a.is_fixed(c) == b.is_fixed(c),
    {
        Self::lemma_args_frame(a, b, a.deps_of(c));
    }

    proof fn lemma_same_wiring_wf(a: Self, b: Self)
        requires
            a.wf(),
            b.same_wiring(a),
        ensures
            b.wf(),
    {
        assert(a.dep_graph() =~= b.dep_graph());
        assert forall|x: CellId, c: usize| #[trigger] b.dependents(x).contains(c) <==> (c < b.num_computes()
            && b.deps_of(c as int).contains(x)) by {
            assert(a.dependents(x) == b.dependents(x));
            if c < b.num_computes() {
                assert(a.deps_of(c as int) == b.deps_of(c as int));
            }
        }
        assert forall|c: int| 0 <= c < b.num_computes() implies #[trigger] accepts(
            b.formula(c),
            b.deps_of(c).len(),
        ) by {
            assert(accepts(a.formula(c), a.deps_of(c).len()));
        }
        assert forall|x: CellId| #[trigger] b.dependents(x).no_duplicates() by {
            assert(a.dependents(x) == b.dependents(x));
        }
    }

    /// A well-formed compute cell never reads itself.
    proof fn lemma_no_self_loop(&self, c: int, j: int)
        requires
            self.wf(),
            0 <= c < self.num_computes(),
            0 <= j < self.deps_of(c).len(),
        ensures
            self.deps_of(c)[j] != compute_id(c),
    {
        let h = choose|h: spec_fn(CellId) -> nat| ranked(self.dep_graph(), h);
        assert(self.dep_graph()[c][j] == self.deps_of(c)[j]);
    }

    pub open spec fn value_of(&self, x: CellId) -> Option<T> {
        match x {
            CellId::Input(i) => if i.0 < self.num_inputs() {
                Some(self.input_value(i.0 as int))
            } else {
                None
            },
            CellId::Compute(c) => if c.0 < self.num_computes() {
                self.cached(c.0 as int)
            } else {
                None
            },
        }
    }

    /// An input cell read right after its creation holds the value it was
    /// created with.
    pub proof fn law_input_read_back(r0: Self, r1: Self, v: T, h: InputCellId)
        requires
            r0.wf(),
            r0.input_created(r1, v, h),
        ensures
            r1.valid(CellId::Input(h)),
            r1.value_of(CellId::Input(h)) == Some(v),
    {
    }

    /// A compute cell whose dependencies all have values when it is created
    /// holds, right after, what its formula gives on those values.
    pub proof fn law_compute_initial_value(
        r0: Self,
        r1: Self,
        deps: Seq<CellId>,
        f: F,
        h: ComputeCellId,
    )
        requires
            r0.wf(),
            r0.compute_created(r1, deps, f, h),
            r0.all_resolve(deps),
        ensures
            r1.valid(CellId::Compute(h)),
            match r1.value_of(CellId::Compute(h)) {
                Some(v) => produces(f, r0.arg_values(deps), v),
                None => false,
            },
    {
    }

    /// Writing the same value to an input twice leaves every compute cell
    /// with the same value after the second write as after the first.
    pub proof fn law_same_write_twice(r0: Self, r1: Self, r2: Self, h: InputCellId, v: T)
        requires
            r0.wf(),
            r0.all_deterministic(),
            r0.input_changed(r1, h, v),
            r1.input_changed(r2, h, v),
        ensures
            r2.same_values(r1),
    {
        assert forall|c: int| 0 <= c < r1.num_computes() implies #[trigger] deterministic(r1.formula(c)) by {
            assert(deterministic(r0.formula(c)));
        }
        assert forall|c: int|
            0 <= c < r1.num_computes() && r1.downstream(CellId::Input(h), c as usize)
                implies #[trigger] r1.is_fixed(c) by {
            Self::lemma_downstream_same(r0, r1, CellId::Input(h), c as usize);
        }
    }

    /// A graph without cycles stays without one when a new compute cell,
    /// which no cell reads yet and which does not read itself, is added.
    pub proof fn law_acyclic_extend(g: Seq<Seq<CellId>>, deps: Seq<CellId>)
        requires
            acyclic(g),
            forall|c: int| 0 <= c < g.len() ==> !(#[trigger] g[c]).contains(compute_id(g.len() as int)),
            !deps.contains(compute_id(g.len() as int)),
        ensures
            acyclic(g.push(deps)),
    {
        let h = choose|h: spec_fn(CellId) -> nat| ranked(g, h);
        let n = g.len() as int;
        let h2 = |x: CellId| if x == compute_id(n) { 0nat } else { h(x) + 1 };
        let g2 = g.push(deps);
        assert forall|c: int, j: int| 0 <= c < g2.len() && 0 <= j < g2[c].len() implies h2(
            compute_id(c),
        ) < h2(#[trigger] g2[c][j]) by {
            if c < n {
                assert(g2[c] == g[c]);
                assert(g[c].contains(g[c][j]));
                assert(h(compute_id(c)) < h(g[c][j]));
            } else {
                assert(deps.contains(deps[j]));
            }
        }
        assert(ranked(g2, h2));
    }

    /// An engine with no cells.
    pub fn new() -> (r: Self)
        ensures
            r.num_inputs() == 0,
            r.num_computes() == 0,
            r.wf(),
            r.settled(),
    {
        let r = Reactor {
            all_inputs: Vec::new(),
            all_computes: Vec::new(),
            input_dependents: HashMap::new(),
            compute_dependents: HashMap::new(),
        };
        assert(ranked(r.dep_graph(), |x: CellId| 0nat));
        r
    }

    /// Adds an input cell holding `initial`; its handle is its index.
    pub fn create_input(&mut self, initial: T) -> (r: InputCellId)
        requires
            old(self).wf(),
        ensures
            old(self).input_created(*final(self), initial, r),
    {
        let ghost s0 = *self;
        self.all_inputs.push(InputCell { value: initial });
        proof {
            Self::lemma_same_wiring_wf(s0, *self);
            if s0.settled() && s0.unreferenced(CellId::Input(InputCellId(s0.num_inputs() as usize))) {
                assert forall|c: int| 0 <= c < self.num_computes() implies #[trigger] self.is_fixed(c) by {
                    assert(s0.is_fixed(c));
                    assert forall|j: int| 0 <= j < s0.deps_of(c).len() implies s0.value_of(
                        s0.deps_of(c)[j],
                    ) == self.value_of(s0.deps_of(c)[j]) by {
                        assert(s0.deps_of(c).contains(s0.deps_of(c)[j]));
                    }
                    Self::lemma_fixed_frame(s0, *self, c);
                }
            }
        }
        InputCellId(self.all_inputs.len() - 1)
    }

    /// The value of `cell`: an input's value, or a compute cell's cached
    /// value, absent until it has first been computed.
    pub fn get_val(&self, cell: CellId) -> (r: Option<T>)
        requires
            self.valid(cell),
        ensures
            r == self.value_of(cell),
    {
        match cell {
            CellId::Compute(c) => self.all_computes[c.0].value,
            CellId::Input(i) => Some(self.all_inputs[i.0].value),
        }
    }

    /// The value of `val`, or none where the handle names no cell or a
    /// compute cell not yet computed.
    fn calc_value(&self, val: CellId) -> (r: Option<T>)
        ensures
            r == self.value_of(val),
    {
        match val {
            CellId::Input(i) => if i.0 < self.all_inputs.len() {
                Some(self.all_inputs[i.0].value)
            } else {
                None
            },
            CellId::Compute(c) => if c.0 < self.all_computes.len() {
                self.all_computes[c.0].value
            } else {
                None
            },
        }
    }

    /// Adds a compute cell reading `deps` through `compute_func`, records it
    /// as a dependent of each of them, and computes its value at once; where
    /// a dependency has no value the new cell stays without one.
    pub fn create_compute(&mut self, deps: &[CellId], compute_func: F) -> (r: ComputeCellId)
        requires
            old(self).wf(),
            accepts(compute_func, deps@.len()),
            acyclic(old(self).dep_graph().push(deps@)),
        ensures
            old(self).compute_created(*final(self), deps@, compute_func, r),
    {
        let ghost s0 = *self;
        let curr = self.all_computes.len();
        let curr_id = ComputeCellId(curr);
        self.all_computes.push(
            ComputeCell { value: None, func: compute_func, dependencies: vstd::slice::slice_to_vec(deps) },
        );
        let ghost s1 = *self;
        proof {
            assert forall|y: CellId| #[trigger] self.dependents(y).no_duplicates() by {
                assert(s0.dependents(y).no_duplicates());
            }
        }
        let mut i: usize = 0;
        while i < deps.len()
            invariant
                i <= deps@.len(),
                self.all_inputs@ == s1.all_inputs@,
                self.all_computes@ == s1.all_computes@,
                forall|y: CellId| #[trigger] self.dependents(y).no_duplicates(),
                forall|x: CellId, e: usize|
                    #[trigger] self.dependents(x).contains(e) <==> (s0.dependents(x).contains(e) || (e
                        == curr && deps@.subrange(0, i as int).contains(x))),
            decreases deps@.len() - i,
        {
            let ghost prev = *self;
            self.add_dependent(deps[i], curr);
            proof {
                let sub = deps@.subrange(0, i as int);
                assert(deps@.subrange(0, i + 1) =~= sub.push(deps@[i as int]));
                assert forall|x: CellId, e: usize|
                    #[trigger] self.dependents(x).contains(e) <==> (s0.dependents(x).contains(e) || (e
                        == curr && deps@.subrange(0, i + 1).contains(x))) by {
                    lemma_seq_contains_after_push(sub, deps@[i as int], x);
                    if x != deps@[i as int] {
                        assert(self.dependents(x) == prev.dependents(x));
                    }
                }
            }
            i += 1;
        }
        proof {
            assert(deps@.subrange(0, deps@.len() as int) =~= deps@);
            assert(self.dep_graph() =~= s0.dep_graph().push(deps@));
            assert forall|x: CellId, c: usize|
                #![trigger self.dependents(x).contains(c)]
                #![trigger self.deps_of(c as int).contains(x)]
                self.dependents(x).contains(c) <==> (c < self.num_computes() && self.deps_of(
                    c as int,
                ).contains(x)) by {
                if c < curr {
                    assert(self.deps_of(c as int) == s0.deps_of(c as int));
                }
                assert(!s0.dependents(x).contains(curr));
            }
            assert forall|c: int| 0 <= c < self.num_computes() implies #[trigger] accepts(
                self.formula(c),
                self.deps_of(c).len(),
            ) by {
                if c < curr {
                    assert(accepts(s0.formula(c), s0.deps_of(c).len()));
                }
            }
        }
        let ghost s2 = *self;
        self.change_compute_value(curr);
        proof {
            Self::lemma_same_wiring_wf(s2, *self);
            assert forall|j: int| 0 <= j < deps@.len() implies s0.value_of(deps@[j]) == s2.value_of(
                deps@[j],
            ) by {
                s2.lemma_no_self_loop(curr as int, j);
            }
            Self::lemma_args_frame(s0, s2, deps@);
            if s0.settled() && s0.unreferenced(CellId::Compute(curr_id)) {
                assert forall|c: int| 0 <= c < self.num_computes() implies #[trigger] self.is_fixed(c) by {
                    if c < curr {
                        assert(s0.is_fixed(c));
                        assert forall|j: int| 0 <= j < s0.deps_of(c).len() implies s0.value_of(
                            s0.deps_of(c)[j],
                        ) == self.value_of(s0.deps_of(c)[j]) by {
                            assert(s0.deps_of(c).contains(s0.deps_of(c)[j]));
                        }
                        Self::lemma_fixed_frame(s0, *self, c);
                    }
                }
            }
        }
        curr_id
    }

    /// Replaces the dependency list and formula of compute cell `cell`,
    /// moving its entries in the index from the old dependencies to the new
    /// ones, then recomputes it and refreshes every cell downstream of it.
    pub fn change_compute(&mut self, deps: &[CellId], compute_func: F, cell: ComputeCellId)
        requires
            old(self).wf(),
            cell.0 < old(self).num_computes(),
            accepts(compute_func, deps@.len()),
            acyclic(old(self).dep_graph().update(cell.0 as int, deps@)),
        ensures
            old(self).compute_changed(*final(self), deps@, compute_func, cell),
    {
        let ghost s0 = *self;
        let count = self.all_computes.len();
        assert(count == s0.num_computes());
        let old_deps = vstd::slice::slice_to_vec(self.all_computes[cell.0].dependencies.as_slice());
        let mut i: usize = 0;
        while i < old_deps.len()
            invariant
                i <= old_deps@.len(),
                old_deps@ == s0.deps_of(cell.0 as int),
                self.all_inputs@ == s0.all_inputs@,
                self.all_computes@ == s0.all_computes@,
                forall|y: CellId| #[trigger] self.dependents(y).no_duplicates(),
                forall|x: CellId, e: usize|
                    #[trigger] self.dependents(x).contains(e) <==> (s0.dependents(x).contains(e) && !(e
                        == cell.0 && old_deps@.subrange(0, i as int).contains(x))),
            decreases old_deps@.len() - i,
        {
            let ghost prev = *self;
            self.remove_dependent(old_deps[i], cell.0);
            proof {
                let sub = old_deps@.subrange(0, i as int);
                assert(old_deps@.subrange(0, i + 1) =~= sub.push(old_deps@[i as int]));
                assert forall|x: CellId, e: usize|
                    #[trigger] self.dependents(x).contains(e) <==> (s0.dependents(x).contains(e) && !(e
                        == cell.0 && old_deps@.subrange(0, i + 1).contains(x))) by {
                    lemma_seq_contains_after_push(sub, old_deps@[i as int], x);
                    if x != old_deps@[i as int] {
                        assert(self.dependents(x) == prev.dependents(x));
                    }
                }
            }
            i += 1;
        }
        let ghost s1 = *self;
        proof {
            assert(old_deps@.subrange(0, old_deps@.len() as int) =~= old_deps@);
            assert forall|x: CellId, e: usize|
                #[trigger] s1.dependents(x).contains(e) <==> (e != cell.0 && s0.dependents(x).contains(e)) by {
                if e == cell.0 {
                    assert(s0.dependents(x).contains(e) <==> s0.deps_of(e as int).contains(x));
                }
            }
            assert(deps@.subrange(0, 0) =~= Seq::<CellId>::empty());
        }
        let mut i: usize = 0;
        while i < deps.len()
            invariant
                i <= deps@.len(),
                self.all_inputs@ == s0.all_inputs@,
                self.all_computes@ == s0.all_computes@,
                forall|y: CellId| #[trigger] self.dependents(y).no_duplicates(),
                forall|x: CellId, e: usize|
                    #[trigger] self.dependents(x).contains(e) <==> ((e != cell.0 && s0.dependents(
                        x,
                    ).contains(e)) || (e == cell.0 && deps@.subrange(0, i as int).contains(x))),
            decreases deps@.len() - i,
        {
            let ghost prev = *self;
            self.add_dependent(deps[i], cell.0);
            proof {
                let sub = deps@.subrange(0, i as int);
                assert(deps@.subrange(0, i + 1) =~= sub.push(deps@[i as int]));
                assert forall|x: CellId, e: usize|
                    #[trigger] self.dependents(x).contains(e) <==> ((e != cell.0 && s0.dependents(
                        x,
                    ).contains(e)) || (e == cell.0 && deps@.subrange(0, i + 1).contains(x))) by {
                    lemma_seq_contains_after_push(sub, deps@[i as int], x);
                    if x != deps@[i as int] {
                        assert(self.dependents(x) == prev.dependents(x));
                    }
                }
            }
            i += 1;
        }
        let ghost s_mid = *self;
        self.all_computes[cell.0].func = compute_func;
        self.all_computes[cell.0].dependencies = vstd::slice::slice_to_vec(deps);
        proof {
            assert forall|x: CellId| #[trigger] self.dependents(x) == s_mid.dependents(x) by {}
            assert forall|y: CellId| #[trigger] self.dependents(y).no_duplicates() by {
                assert(s_mid.dependents(y).no_duplicates());
            }
            assert(deps@.subrange(0, deps@.len() as int) =~= deps@);
            assert(self.dep_graph() =~= s0.dep_graph().update(cell.0 as int, deps@));
            assert forall|x: CellId, c: usize|
                #![trigger self.dependents(x).contains(c)]
                #![trigger self.deps_of(c as int).contains(x)]
                self.dependents(x).contains(c) <==> (c < self.num_computes() && self.deps_of(
                    c as int,
                ).contains(x)) by {
                if c < self.num_computes() && c != cell.0 {
                    assert(self.deps_of(c as int) == s0.deps_of(c as int));
                    assert(s0.dependents(x).contains(c) <==> s0.deps_of(c as int).contains(x));
                }
                if c == cell.0 {
                    assert(self.deps_of(c as int) == deps@);
                }
            }
            assert forall|c: int| 0 <= c < self.num_computes() implies #[trigger] accepts(
                self.formula(c),
                self.deps_of(c).len(),
            ) by {
                if c != cell.0 {
                    assert(accepts(s0.formula(c), s0.deps_of(c).len()));
                }
            }
        }
        let ghost s2 = *self;
        self.change_compute_value(cell.0);
        let ghost s3 = *self;
        proof {
            Self::lemma_same_wiring_wf(s2, s3);
            if s0.settled() {
                assert forall|c: int|
                    0 <= c < s3.num_computes() && !#[trigger] s3.is_fixed(c) implies s3.dependents(
                    CellId::Compute(cell),
                ).contains(c as usize) by {
                    if c != cell.0 {
                        assert(s0.is_fixed(c));
                        if !s3.deps_of((c as usize) as int).contains(CellId::Compute(cell)) {
                            assert(s3.deps_of(c) == s0.deps_of(c));
                            assert forall|j: int| 0 <= j < s0.deps_of(c).len() implies s0.value_of(
                                s0.deps_of(c)[j],
                            ) == s3.value_of(s0.deps_of(c)[j]) by {
                                if s0.deps_of(c)[j] == CellId::Compute(cell) {
                                    assert(s3.deps_of(c).contains(CellId::Compute(cell)));
                                }
                            }
                            Self::lemma_fixed_frame(s0, s3, c);
                        } else {
                            s3.lemma_downstream_first(CellId::Compute(cell), c as usize);
                        }
                    }
                }
            }
            assert forall|j: int| 0 <= j < deps@.len() implies s0.value_of(deps@[j]) == s2.value_of(deps@[j]) by {}
            Self::lemma_args_frame(s0, s2, deps@);
            s3.lemma_not_own_downstream(cell.0);
            assert(compute_id(cell.0 as int) == CellId::Compute(cell));
        }
        self.update_value_in_depth(CellId::Compute(cell));
        proof {
            assert forall|c: usize| #[trigger] self.downstream(CellId::Compute(cell), c) == s3.downstream(CellId::Compute(cell), c) by {
                Self::lemma_downstream_same(s3, *self, CellId::Compute(cell), c);
            }
            assert forall|c: int| 0 <= c < s0.num_computes() && c != cell.0 implies #[trigger] s3.cached(c) == s0.cached(c) by {}
            if s0.settled() {
                assert(self.settled());
            }
        }
    }

    /// Writes `new_val` into input `cell`, then refreshes every compute cell
    /// that depends on it, directly or not; the write is never skipped, not
    /// even when the value is the same.
    pub fn change_input(&mut self, cell: InputCellId, new_val: T)
        requires
            old(self).wf(),
            cell.0 < old(self).num_inputs(),
        ensures
            old(self).input_changed(*final(self), cell, new_val),
    {
        let ghost s0 = *self;
        let count = self.all_computes.len();
        assert(count == s0.num_computes());
        self.all_inputs[cell.0].value = new_val;
        let ghost s1 = *self;
        let ghost start = CellId::Input(cell);
        proof {
            Self::lemma_same_wiring_wf(s0, s1);
            assert forall|c: int| 0 <= c < s1.num_computes() implies #[trigger] s1.cached(c) == s0.cached(c) by {}
            assert forall|c: usize| #[trigger] s1.downstream(start, c) == s0.downstream(start, c) by {
                Self::lemma_downstream_same(s0, s1, start, c);
            }
            if s0.settled() {
                assert forall|c: int|
                    0 <= c < s1.num_computes() && !#[trigger] s1.is_fixed(c) implies s1.downstream(start, c as usize) by {
                    assert(s0.is_fixed(c));
                    if !s1.deps_of((c as usize) as int).contains(start) {
                        assert forall|j: int| 0 <= j < s0.deps_of(c).len() implies s0.value_of(
                            s0.deps_of(c)[j],
                        ) == s1.value_of(s0.deps_of(c)[j]) by {
                            if s0.deps_of(c)[j] == start {
                                assert(s1.deps_of(c).contains(start));
                            }
                        }
                        Self::lemma_fixed_frame(s0, s1, c);
                    } else {
                        s1.lemma_downstream_first(start, c as usize);
                    }
                }
            }
            if s0.input_value(cell.0 as int) == new_val {
                assert forall|c: int| 0 <= c < s1.num_computes() implies #[trigger] s1.is_fixed(c) == s0.is_fixed(c) by {
                    Self::lemma_fixed_frame(s0, s1, c);
                }
                if s0.all_deterministic() {
                    assert forall|c: int| 0 <= c < s1.num_computes() implies #[trigger] deterministic(s1.formula(c)) by {
                        assert(deterministic(s0.formula(c)));
                    }
                }
            }
        }
        self.update_value_in_depth(CellId::Input(cell));
        proof {
            if s0.settled() {
                assert(self.settled());
            }
        }
    }

    /// Records compute cell `c` as reading `x`.
    fn add_dependent(&mut self, x: CellId, c: usize)
        requires
            forall|y: CellId| #[trigger] old(self).dependents(y).no_duplicates(),
        ensures
            final(self).all_inputs@ == old(self).all_inputs@,
            final(self).all_computes@ == old(self).all_computes@,
            forall|y: CellId| y != x ==> #[trigger] final(self).dependents(y) == old(self).dependents(y),
            forall|e: usize|
                #[trigger] final(self).dependents(x).contains(e) <==> (old(self).dependents(x).contains(e)
                    || e == c),
            forall|y: CellId| #[trigger] final(self).dependents(y).no_duplicates(),
    {
        match x {
            CellId::Input(i) => {
                assert(self.dependents(x).no_duplicates());
                index_insert(&mut self.input_dependents, i.0, c);
            },
            CellId::Compute(k) => {
                assert(self.dependents(x).no_duplicates());
                index_insert(&mut self.compute_dependents, k.0, c);
            },
        }
        proof {
            assert forall|y: CellId| #[trigger] self.dependents(y).no_duplicates() by {
                assert(old(self).dependents(y).no_duplicates());
            }
        }
    }

    /// Records that compute cell `c` no longer reads `x`.
    fn remove_dependent(&mut self, x: CellId, c: usize)
        requires
            forall|y: CellId| #[trigger] old(self).dependents(y).no_duplicates(),
        ensures
            final(self).all_inputs@ == old(self).all_inputs@,
            final(self).all_computes@ == old(self).all_computes@,
            forall|y: CellId| y != x ==> #[trigger] final(self).dependents(y) == old(self).dependents(y),
            forall|e: usize|
                #[trigger] final(self).dependents(x).contains(e) <==> (old(self).dependents(x).contains(e)
                    && e != c),
            forall|y: CellId| #[trigger] final(self).dependents(y).no_duplicates(),
    {
        match x {
            CellId::Input(i) => {
                assert(self.dependents(x).no_duplicates());
                index_remove(&mut self.input_dependents, i.0, c);
            },
            CellId::Compute(k) => {
                assert(self.dependents(x).no_duplicates());
                index_remove(&mut self.compute_dependents, k.0, c);
            },
        }
        proof {
            assert forall|y: CellId| #[trigger] self.dependents(y).no_duplicates() by {
                assert(old(self).dependents(y).no_duplicates());
            }
        }
    }

    /// The entry of the index for `x`, where it has one.
    fn dependents_of(&self, x: CellId) -> (r: Option<&Vec<usize>>)
        ensures
            match r {
                Some(v) => v@ == self.dependents(x),
                None => self.dependents(x) == Seq::<usize>::empty(),
            },
    {
        match x {
            CellId::Input(i) => self.input_dependents.get(&i.0),
            CellId::Compute(c) => self.compute_dependents.get(&c.0),
        }
    }

    /// Recomputes, in first-in first-out order, the dependents of `start`,
    /// and after each recomputed cell the cells that read it, until no cell
    /// is pending.
    fn update_value_in_depth(&mut self, start: CellId)
        requires
            old(self).wf(),
        ensures
            final(self).same_graph(*old(self)),
            final(self).wf(),
            forall|c: int|
                0 <= c < old(self).num_computes() && old(self).downstream(start, c as usize)
                    ==> #[trigger] final(self).is_fixed(c),
            forall|c: int|
                0 <= c < old(self).num_computes() && !old(self).downstream(start, c as usize)
                    ==> #[trigger] final(self).cached(c) == old(self).cached(c) && final(self).is_fixed(c)
                    == old(self).is_fixed(c),
            forall|c: int|
                0 <= c < old(self).num_computes() && (old(self).cached(c) is Some)
                    ==> (#[trigger] final(self).cached(c) is Some),
            forall|c: int|
                0 <= c < old(self).num_computes() && !final(self).all_resolve(final(self).deps_of(c))
                    ==> #[trigger] final(self).cached(c) == old(self).cached(c),
            (forall|c: int|
                0 <= c < old(self).num_computes() && !#[trigger] old(self).is_fixed(c)
                    ==> old(self).downstream(start, c as usize)) ==> final(self).settled(),
            old(self).all_deterministic() && (forall|c: int|
                0 <= c < old(self).num_computes() && old(self).downstream(start, c as usize)
                    ==> #[trigger] old(self).is_fixed(c)) ==> final(self).same_values(*old(self)),
    {
        let ghost s0 = *self;
        let ghost n = self.num_computes();
        let ghost keep = s0.all_deterministic() && (forall|c: int|
            0 <= c < n && s0.downstream(start, c as usize) ==> #[trigger] s0.is_fixed(c));
        let ghost h = choose|h: spec_fn(CellId) -> nat| ranked(s0.dep_graph(), h);
        let ghost b = s0.max_deg(n) + 1;
        let mut queue: Vec<usize> = Vec::new();
        let mut beg_ind: usize = 0;
        let count = self.all_computes.len();
        assert(n == count);
        match self.dependents_of(start) {
            Some(vals) => push_all(&mut queue, vals),
            None => {},
        }
        let ghost mut seen = Set::new(|c: usize| s0.dependents(start).contains(c));
        assert(queue@ =~= s0.dependents(start));
        proof {
            assert forall|i: int| 0 <= i < queue@.len() implies queue@[i] < n && seen.contains(queue@[i]) by {
                assert(s0.dependents(start).contains(queue@[i]));
            }
            assert forall|c: usize| seen.contains(c) implies s0.downstream(start, c) by {
                s0.lemma_downstream_first(start, c);
            }
            assert forall|c: usize| seen.contains(c) implies queue@.subrange(0, queue@.len() as int).contains(c) by {
                assert(queue@.subrange(0, queue@.len() as int) =~= queue@);
            }
        }
        while beg_ind < queue.len()
            invariant
                beg_ind <= queue@.len(),
                self.wf(),
                self.same_graph(s0),
                s0.wf(),
                n == s0.num_computes(),
                n <= usize::MAX,
                ranked(s0.dep_graph(), h),
                b == s0.max_deg(n) + 1,
                forall|i: int| 0 <= i < queue@.len() ==> queue@[i] < n && seen.contains(queue@[i]),
                forall|c: usize| #[trigger] s0.dependents(start).contains(c) ==> seen.contains(c),
                forall|c: usize| seen.contains(c) ==> s0.downstream(start, c),
                forall|c: int|
                    0 <= c < n && !seen.contains(c as usize) ==> #[trigger] self.cached(c) == s0.cached(c),
                forall|c: int|
                    0 <= c < n && seen.contains(c as usize) && !#[trigger] self.is_fixed(c)
                        ==> queue@.subrange(beg_ind as int, queue@.len() as int).contains(c as usize),
                forall|v: usize, d: usize|
                    #![trigger seen.contains(v), s0.dependents(compute_id(v as int)).contains(d)]
                    seen.contains(v) && !queue@.subrange(beg_ind as int, queue@.len() as int).contains(v)
                        && s0.dependents(compute_id(v as int)).contains(d) ==> seen.contains(d),
                forall|c: int|
                    0 <= c < n && (s0.cached(c) is Some) ==> (#[trigger] self.cached(c) is Some),
                forall|c: int|
                    0 <= c < n && !self.all_resolve(self.deps_of(c)) ==> #[trigger] self.cached(c)
                        == s0.cached(c),
                keep ==> self.same_values(s0),
                keep ==> s0.all_deterministic() && (forall|c: int|
                    0 <= c < n && s0.downstream(start, c as usize) ==> #[trigger] s0.is_fixed(c)),
            decreases total_weight(queue@.subrange(beg_ind as int, queue@.len() as int), h, b),
        {
            let v = queue[beg_ind];
            let ghost before = *self;
            let ghost pending = queue@.subrange(beg_ind as int, queue@.len() as int);
            assert(pending[0] == v);
            self.change_compute_value(v);
            proof {
                Self::lemma_same_wiring_wf(before, *self);
            }
            beg_ind += 1;
            let ghost q1 = queue@;
            match self.dependents_of(CellId::Compute(ComputeCellId(v))) {
                Some(vals) => push_all(&mut queue, vals),
                None => {},
            }
            proof {
                let ds = self.dependents(compute_id(v as int));
                assert(CellId::Compute(ComputeCellId(v)) == compute_id(v as int));
                assert(s0.dependents(compute_id(v as int)) == ds);
                assert(queue@ =~= q1 + ds);
                let rest = pending.subrange(1, pending.len() as int);
                let newp = queue@.subrange(beg_ind as int, queue@.len() as int);
                assert(newp =~= rest + ds);
                let old_seen = seen;
                seen = seen.union(Set::new(|c: usize| ds.contains(c)));
                assert forall|c: usize| #[trigger] ds.contains(c) implies newp.contains(c) by {
                    let k = choose|k: int| 0 <= k < ds.len() && ds[k] == c;
                    assert(newp[rest.len() + k] == c);
                }
                assert forall|c: usize| #[trigger] rest.contains(c) implies newp.contains(c) by {
                    let k = choose|k: int| 0 <= k < rest.len() && rest[k] == c;
                    assert(newp[k] == c);
                }
                assert forall|c: usize| #[trigger] pending.contains(c) && c != v implies rest.contains(c) by {
                    let k = choose|k: int| 0 <= k < pending.len() && pending[k] == c;
                    assert(rest[k - 1] == c);
                }
                assert forall|c: usize| #[trigger] newp.contains(c) implies rest.contains(c) || ds.contains(c) by {
                    let k = choose|k: int| 0 <= k < newp.len() && newp[k] == c;
                    if k < rest.len() {
                        assert(rest[k] == c);
                    } else {
                        assert(ds[k - rest.len()] == c);
                    }
                }
                assert forall|c: usize| #[trigger] rest.contains(c) implies pending.contains(c) by {
                    let k = choose|k: int| 0 <= k < rest.len() && rest[k] == c;
                    assert(pending[k + 1] == c);
                }
                assert forall|i: int| 0 <= i < queue@.len() implies queue@[i] < n && seen.contains(queue@[i]) by {
                    if i >= q1.len() {
                        assert(ds.contains(queue@[i]));
                        s0.lemma_dependent_rank(h, compute_id(v as int), queue@[i]);
                    }
                }
                assert forall|c: usize| seen.contains(c) implies s0.downstream(start, c) by {
                    if !old_seen.contains(c) {
                        s0.lemma_downstream_step(start, v, c);
                    }
                }
                // the queue gets lighter
                assert forall|i: int| 0 <= i < ds.len() implies h(compute_id(ds[i] as int)) < h(
                    compute_id(pending[0] as int),
                ) by {
                    assert(ds.contains(ds[i]));
                    s0.lemma_dependent_rank(h, compute_id(v as int), ds[i]);
                }
                s0.lemma_max_deg(n, v as int);
                lemma_queue_step(pending, ds, h, b);
                // the cached values that may change, and the cells still to fix
                assert forall|k: int| 0 <= k < n && (before.cached(k) is Some) implies (#[trigger] self.cached(k) is Some) by {}
                assert forall|c: int|
                    0 <= c < n && seen.contains(c as usize) && !#[trigger] self.is_fixed(c) implies newp.contains(c as usize) by {
                    if !ds.contains(c as usize) {
                        assert(c != v);
                        if self.deps_of(c).contains(compute_id(v as int)) {
                            assert(self.deps_of((c as usize) as int).contains(compute_id(v as int)));
                        }
                        assert forall|j: int| 0 <= j < self.deps_of(c).len() implies before.value_of(
                            self.deps_of(c)[j],
                        ) == self.value_of(self.deps_of(c)[j]) by {
                            if self.deps_of(c)[j] == compute_id(v as int) {
                                assert(self.deps_of(c).contains(compute_id(v as int)));
                            }
                        }
                        Self::lemma_fixed_frame(before, *self, c);
                        assert(pending.contains(c as usize));
                        assert(rest.contains(c as usize));
                    }
                }
                assert forall|u: usize, d: usize|
                    #![trigger seen.contains(u), s0.dependents(compute_id(u as int)).contains(d)]
                    seen.contains(u) && !newp.contains(u) && s0.dependents(compute_id(u as int)).contains(d)
                        implies seen.contains(d) by {
                    if u != v {
                        if ds.contains(u) {
                            assert(newp.contains(u));
                        }
                        if pending.contains(u) {
                            assert(rest.contains(u));
                        }
                        assert(old_seen.contains(u));
                    } else {
                        assert(ds.contains(d));
                    }
                }
                assert forall|c: int|
                    0 <= c < n && !self.all_resolve(self.deps_of(c)) implies #[trigger] self.cached(c)
                        == s0.cached(c) by {
                    let dc = self.deps_of(c);
                    if c == v {
                        assert forall|j: int| 0 <= j < dc.len() implies before.value_of(dc[j]) == self.value_of(dc[j]) by {
                            before.lemma_no_self_loop(c, j);
                        }
                        Self::lemma_args_frame(before, *self, dc);
                    } else {
                        if before.all_resolve(dc) {
                            Self::lemma_resolve_mono(before, *self, dc);
                        }
                    }
                }
                if keep {
                    Self::lemma_fixed_frame(before, s0, v as int);
                    assert(s0.is_fixed(v as int));
                    assert(deterministic(s0.formula(v as int)));
                }
            }
        }
        proof {
            let fin = queue@.subrange(beg_ind as int, queue@.len() as int);
            assert(fin.len() == 0);
            assert(self.closed_under(seen, start)) by {
                assert forall|c: usize| #[trigger] self.dependents(start).contains(c) implies seen.contains(c) by {
                    assert(s0.dependents(start).contains(c));
                }
                assert forall|v: usize, c: usize|
                    #![trigger seen.contains(v), self.dependents(compute_id(v as int)).contains(c)]
                    seen.contains(v) && self.dependents(compute_id(v as int)).contains(c) implies seen.contains(c) by {
                    assert(s0.dependents(compute_id(v as int)).contains(c));
                    assert(!fin.contains(v));
                }
            }
            assert forall|c: int|
                0 <= c < n && s0.downstream(start, c as usize) implies #[trigger] self.is_fixed(c) by {
                Self::lemma_downstream_same(s0, *self, start, c as usize);
                assert(seen.contains(c as usize));
                if !self.is_fixed(c) {
                    assert(fin.contains(c as usize));
                }
            }
            assert forall|c: int|
                0 <= c < n && !s0.downstream(start, c as usize) implies #[trigger] self.cached(c) == s0.cached(c)
                    && self.is_fixed(c) == s0.is_fixed(c) by {
                assert(!seen.contains(c as usize));
                assert forall|j: int| 0 <= j < s0.deps_of(c).len() implies s0.value_of(s0.deps_of(c)[j])
                    == self.value_of(s0.deps_of(c)[j]) by {
                    s0.lemma_upstream_reads(start, c, j);
                    match s0.deps_of(c)[j] {
                        CellId::Compute(k) => {
                            assert(s0.deps_of(c)[j] == compute_id(k.0 as int));
                            if k.0 < n {
                                assert(!seen.contains(k.0));
                                assert(self.cached(k.0 as int) == s0.cached(k.0 as int));
                            }
                        },
                        CellId::Input(_) => {},
                    }
                }
                Self::lemma_fixed_frame(s0, *self, c);
            }
            if forall|c: int|
                0 <= c < n && !#[trigger] s0.is_fixed(c) ==> s0.downstream(start, c as usize) {
                assert forall|c: int| 0 <= c < n implies #[trigger] self.is_fixed(c) by {
                    if !s0.downstream(start, c as usize) {
                        assert(s0.is_fixed(c));
                    }
                }
            }
        }
    }

    /// The values of `ids` in order, or the first of them that has no value.
    fn calc_values(&self, ids: &[CellId]) -> (r: Result<Vec<T>, CellId>)
        ensures
            match r {
                Ok(v) => self.all_resolve(ids@) && v@ == self.arg_values(ids@),
                Err(id) => exists|j: int|
                    0 <= j < ids@.len() && ids@[j] == id && self.value_of(id) is None
                        && self.all_resolve(ids@.subrange(0, j)),
            },
    {
        let mut out: Vec<T> = Vec::new();
        let mut i: usize = 0;
        while i < ids.len()
            invariant
                i <= ids@.len(),
                out@ == self.arg_values(ids@.subrange(0, i as int)),
                self.all_resolve(ids@.subrange(0, i as int)),
            decreases ids@.len() - i,
        {
            let id = ids[i];
            match self.calc_value(id) {
                Some(v) => {
                    out.push(v);
                    assert(self.arg_values(ids@.subrange(0, i + 1)) =~= self.arg_values(
                        ids@.subrange(0, i as int),
                    ).push(v));
                    assert forall|j: int| 0 <= j < i + 1 implies (#[trigger] self.value_of(
                        ids@.subrange(0, i + 1)[j],
                    )) is Some by {
                        if j < i {
                            assert(ids@.subrange(0, i + 1)[j] == ids@.subrange(0, i as int)[j]);
                        }
                    }
                },
                None => {
                    assert(ids@[i as int] == id);
                    return Err(id);
                },
            }
            i += 1;
        }
        assert(ids@.subrange(0, ids@.len() as int) =~= ids@);
        Ok(out)
    }

    /// Recomputes compute cell `cell` from the current values of its
    /// dependencies; where one of them has no value, the cell keeps its own.
    fn change_compute_value(&mut self, cell: usize)
        requires
            old(self).wf(),
            cell < old(self).num_computes(),
        ensures
            final(self).same_graph(*old(self)),
            forall|c: int| 0 <= c < old(self).num_computes() && c != cell ==> #[trigger] final(self).cached(c) == old(self).cached(c),
            final(self).is_fixed(cell as int),
            !old(self).all_resolve(old(self).deps_of(cell as int)) ==> final(self).cached(cell as int) == old(self).cached(cell as int),
            old(self).all_resolve(old(self).deps_of(cell as int)) ==> match final(self).cached(cell as int) {
                Some(r) => produces(old(self).formula(cell as int), old(self).arg_values(old(self).deps_of(cell as int)), r),
                None => false,
            },
            old(self).is_fixed(cell as int) && deterministic(old(self).formula(cell as int)) ==> final(self).cached(cell as int) == old(self).cached(cell as int),
            old(self).cached(cell as int) is Some ==> final(self).cached(cell as int) is Some,
    {
        let ghost s0 = *self;
        let values = self.calc_values(self.all_computes[cell].dependencies.as_slice());
        match values {
            Ok(val) => {
                assert(accepts(self.formula(cell as int), self.deps_of(cell as int).len()));
                let args = val.as_slice();
                let r = (self.all_computes[cell].func)(args);
                self.all_computes[cell].value = Some(r);
                proof {
                    let ds = s0.deps_of(cell as int);
                    assert(produces(s0.formula(cell as int), s0.arg_values(ds), r));
                    assert forall|j: int| 0 <= j < ds.len() implies s0.value_of(ds[j]) == self.value_of(ds[j]) by {
                        s0.lemma_no_self_loop(cell as int, j);
                    }
                    Self::lemma_args_frame(s0, *self, ds);
                    if s0.is_fixed(cell as int) && deterministic(s0.formula(cell as int)) {
                        let r0 = s0.cached(cell as int)->Some_0;
                        let w = choose|w: &[T]| w@ == s0.arg_values(ds) && #[trigger] s0.formula(cell as int).ensures((w,), r0);
                        assert(w =~= args);
                    }
                }
            },
            Err(_) => {
                proof {
                    let ds = s0.deps_of(cell as int);
                    assert forall|j: int| 0 <= j < ds.len() implies s0.value_of(ds[j]) == self.value_of(ds[j]) by {
                        s0.lemma_no_self_loop(cell as int, j);
                    }
                    Self::lemma_fixed_frame(s0, *self, cell as int);
                }
            },
        }
    }
}

} // verus!
