//! Virtual execution of a loop nest and its reuse-distance histogram.
use vstd::prelude::*;
use fxhash::FxHashMap;
use crate::ast::{
    AryRef, CmpOp, Cond, IdxExpr, LoopBound, LoopStmt, LoopV, Node, NodeV, RefV, Stmt, lemma_nodes_view,
    node_view, nodes_view,
};
use crate::arybase::{bases_node, initial_alloc, set_arybase};
use crate::hist::{Hist, key_of, total};

verus! {

broadcast use vstd::std_specs::vec::group_vec_axioms;

/// Why a trace or an address computation was abandoned.
#[derive(Debug)]
pub enum TraceError {
    /// The subscript has another number of entries than the array has dimensions.
    StructuralMismatch { name: String },
    /// A subscript of the access cannot be evaluated at the iteration vector.
    InvalidSubscript { name: String },
    /// The access has no base offset.
    MissingBaseOffset { name: String },
    /// A loop with a dynamic bound was reached.
    UnsupportedBound { iv: String },
    /// A branch condition cannot be evaluated at the iteration vector.
    InvalidCondition,
    /// The address of the access does not fit in `usize`.
    AddressOverflow { name: String },
    /// The logical clock reached the largest `usize`.
    ClockOverflow,
    /// The arrays do not fit together in a `usize` address space.
    SpaceOverflow,
}

/// A subscript value: defined, not negative, and within `usize`.
pub open spec fn index_value(e: IdxExpr, iv: Seq<i32>) -> Option<nat> {
    match e.value(iv) {
        Some(x) => if 0 <= x <= usize::MAX {
            Some(x as nat)
        } else {
            None
        },
        None => None,
    }
}

/// The values of the subscripts, if all are valid indices.
pub open spec fn sub_values(sub: Seq<IdxExpr>, iv: Seq<i32>) -> Option<Seq<nat>>
    decreases sub.len(),
{
    if sub.len() == 0 {
        Some(Seq::empty())
    } else {
        match (sub_values(sub.drop_last(), iv), index_value(sub.last(), iv)) {
            (Some(s), Some(x)) => Some(s.push(x)),
            _ => None,
        }
    }
}

/// Row-major linearisation: `acc = acc * dim + index`, left to right from 0.
pub open spec fn linear(dim: Seq<usize>, idx: Seq<nat>) -> nat
    decreases idx.len(),
{
    if idx.len() == 0 || dim.len() == 0 {
        0
    } else {
        linear(dim.drop_last(), idx.drop_last()) * (dim.last() as nat) + idx.last()
    }
}

/// Every intermediate value of the linearisation fits in `usize`.
pub open spec fn linear_fits(dim: Seq<usize>, idx: Seq<nat>) -> bool
    decreases idx.len(),
{
    idx.len() == 0 || dim.len() == 0 || (linear_fits(dim.drop_last(), idx.drop_last()) && linear(
        dim.drop_last(),
        idx.drop_last(),
    ) * (dim.last() as nat) + idx.last() <= usize::MAX)
}

/// The cache line touched by `r` at the iteration vector `iv`:
/// `(base + linear offset) * ds / cls`.
pub open spec fn address(r: AryRef, iv: Seq<i32>, ds: nat, cls: nat) -> Result<nat, TraceError> {
    match sub_values(r.sub@, iv) {
        None => Err(TraceError::InvalidSubscript { name: r.name }),
        Some(x) => if x.len() != r.dim@.len() {
            Err(TraceError::StructuralMismatch { name: r.name })
        } else {
            match r.base {
                None => Err(TraceError::MissingBaseOffset { name: r.name }),
                Some(b) => if !linear_fits(r.dim@, x) || b + linear(r.dim@, x) > usize::MAX || (b
                    + linear(r.dim@, x)) * ds > usize::MAX {
                    Err(TraceError::AddressOverflow { name: r.name })
                } else {
                    Ok((((b + linear(r.dim@, x)) * ds) as int / cls as int) as nat)
                },
            }
        },
    }
}

/// The truth of `c` at `iv`, if both sides are defined.
pub open spec fn cond_value(c: Cond, iv: Seq<i32>) -> Option<bool>
    decreases c,
{
    match (c.lhs.value(iv), c.rhs.value(iv)) {
        (Some(a), Some(b)) => {
            let here = match c.op {
                CmpOp::Lt => a < b,
                CmpOp::Le => a <= b,
                CmpOp::Eq => a == b,
                CmpOp::Ne => a != b,
            };
            match c.and {
                None => Some(here),
                Some(rest) => match cond_value(*rest, iv) {
                    Some(t) => Some(here && t),
                    None => None,
                },
            }
        },
        _ => None,
    }
}

/// One access of a trace: the array name, the cache line, and the
/// identifier of the access node.
pub type Access = (Seq<char>, nat, Option<usize>);

/// What reuse is measured on: the array name and the cache line.
pub open spec fn line_key(a: Access) -> (Seq<char>, nat) {
    (a.0, a.1)
}

/// Executes `n` at the iteration vector `iv` after the accesses `acc`,
/// returning the accesses (array name, cache line, access identifier) made
/// so far.
pub open spec fn run_node(n: Node, iv: Seq<i32>, ds: nat, cls: nat, acc: Seq<Access>) -> Result<
    Seq<Access>,
    TraceError,
>
    decreases n, 0int,
{
    match n.stmt {
        Stmt::Ref(r) => match address(r, iv, ds, cls) {
            Err(e) => Err(e),
            Ok(a) => if acc.len() >= usize::MAX {
                Err(TraceError::ClockOverflow)
            } else {
                Ok(acc.push((r.name@, a, r.ref_id)))
            },
        },
        Stmt::Loop(l) => match (l.lb, l.ub) {
            (LoopBound::Fixed(lo), LoopBound::Fixed(hi)) => if l.descending {
                run_iters_down(l, iv, lo as int, hi as int, ds, cls, acc)
            } else {
                run_iters(l, iv, lo as int, hi as int, ds, cls, acc)
            },
            _ => Err(TraceError::UnsupportedBound { iv: l.iv }),
        },
        Stmt::Block(b) => run_list(b@, iv, ds, cls, acc),
        Stmt::Branch(br) => match cond_value(br.cond, iv) {
            None => Err(TraceError::InvalidCondition),
            Some(true) => run_node(*br.then_body, iv, ds, cls, acc),
            Some(false) => match br.else_body {
                Some(e) => run_node(*e, iv, ds, cls, acc),
                None => Ok(acc),
            },
        },
    }
}

/// Executes the iterations `i..hi` of the loop `l`.
pub open spec fn run_iters(l: LoopStmt, iv: Seq<i32>, i: int, hi: int, ds: nat, cls: nat, acc: Seq<Access>) -> Result<
    Seq<Access>,
    TraceError,
>
    decreases l, hi - i,
{
    if i >= hi {
        Ok(acc)
    } else {
        match run_list(l.body@, iv.push(i as i32), ds, cls, acc) {
            Err(e) => Err(e),
            Ok(a) => run_iters(l, iv, i + 1, hi, ds, cls, a),
        }
    }
}

/// Executes the iterations `i, i - 1, ..., lo + 1` of the descending loop
/// `l`.
pub open spec fn run_iters_down(l: LoopStmt, iv: Seq<i32>, i: int, lo: int, ds: nat, cls: nat, acc: Seq<Access>) -> Result<
    Seq<Access>,
    TraceError,
>
    decreases l, i - lo,
{
    if i <= lo {
        Ok(acc)
    } else {
        match run_list(l.body@, iv.push(i as i32), ds, cls, acc) {
            Err(e) => Err(e),
            Ok(a) => run_iters_down(l, iv, i - 1, lo, ds, cls, a),
        }
    }
}

/// Executes the nodes of `s` in order.
pub open spec fn run_list(s: Seq<Node>, iv: Seq<i32>, ds: nat, cls: nat, acc: Seq<Access>) -> Result<
    Seq<Access>,
    TraceError,
>
    decreases s, 0int,
{
    if s.len() == 0 {
        Ok(acc)
    } else {
        match run_node(s[0], iv, ds, cls, acc) {
            Err(e) => Err(e),
            Ok(a) => run_list(s.drop_first(), iv, ds, cls, a),
        }
    }
}

/// Position of the last occurrence of `k` in `s`.
pub open spec fn last_idx(s: Seq<Access>, k: (Seq<char>, nat)) -> Option<nat>
    decreases s.len(),
{
    if s.len() == 0 {
        None
    } else if line_key(s.last()) == k {
        Some((s.len() - 1) as nat)
    } else {
        last_idx(s.drop_last(), k)
    }
}

/// Reuse distance of the access at position `i` of the trace `s`: `None`
/// for the first access to its cache line, else the number of ticks since
/// the previous access to it.
pub open spec fn reuse(s: Seq<Access>, i: int) -> Option<nat> {
    match last_idx(s.subrange(0, i), line_key(s[i])) {
        Some(j) => Some((i - j) as nat),
        None => None,
    }
}

/// The number of accesses of the trace `s` whose reuse distance is `d`.
pub open spec fn hist_count(s: Seq<Access>, d: Option<nat>) -> nat
    decreases s.len(),
{
    if s.len() == 0 {
        0
    } else {
        hist_count(s.drop_last(), d) + if reuse(s, s.len() - 1) == d {
            1nat
        } else {
            0nat
        }
    }
}

proof fn lemma_last_idx_bound(s: Seq<Access>, k: (Seq<char>, nat))
    ensures
        last_idx(s, k) is Some ==> last_idx(s, k).unwrap() < s.len() && line_key(s[last_idx(s, k).unwrap() as int]) == k
            && forall|m: int| last_idx(s, k).unwrap() < m < s.len() ==> line_key(s[m]) != k,
        last_idx(s, k) is None ==> forall|j: int| 0 <= j < s.len() ==> line_key(s[j]) != k,
    decreases s.len(),
{
    if s.len() > 0 {
        lemma_last_idx_bound(s.drop_last(), k);
        if line_key(s.last()) != k && last_idx(s, k) is Some {
            assert forall|m: int| last_idx(s, k).unwrap() < m < s.len() implies line_key(s[m]) != k by {
                if m < s.len() - 1 {
                    assert(s[m] == s.drop_last()[m]);
                }
            }
        }
        if line_key(s.last()) != k {
            if last_idx(s, k) is None {
                assert forall|j: int| 0 <= j < s.len() implies line_key(s[j]) != k by {
                    if j < s.len() - 1 {
                        assert(s[j] == s.drop_last()[j]);
                    }
                }
            }
        }
    }
}

proof fn lemma_hist_count_bound(s: Seq<Access>, d: Option<nat>)
    ensures
        hist_count(s, d) <= s.len(),
    decreases s.len(),
{
    if s.len() > 0 {
        lemma_hist_count_bound(s.drop_last(), d);
    }
}

/// Evaluates one subscript at `iv`, as an index.
fn index_of(e: &IdxExpr, iv: &[i32]) -> (r: Option<usize>)
    ensures
        r is Some <==> index_value(*e, iv@) is Some,
        r is Some ==> r.unwrap() as nat == index_value(*e, iv@).unwrap(),
{
    match e.eval(iv) {
        Some(x) => if x < 0 {
            None
        } else if x as u64 > usize::MAX as u64 {
            None
        } else {
            Some(x as usize)
        },
        None => None,
    }
}

/// Evaluates the subscripts of `r` at `iv`.
fn eval_subscripts(r: &AryRef, iv: &[i32]) -> (res: Option<Vec<usize>>)
    ensures
        res is Some <==> sub_values(r.sub@, iv@) is Some,
        res is Some ==> res.unwrap()@.map_values(|x: usize| x as nat) == sub_values(r.sub@, iv@).unwrap(),
{
    let mut out: Vec<usize> = Vec::new();
    let mut j: usize = 0;
    assert(r.sub@.subrange(0, 0).len() == 0);
    while j < r.sub.len()
        invariant
            j <= r.sub@.len(),
            sub_values(r.sub@.subrange(0, j as int), iv@) == Some(out@.map_values(|x: usize| x as nat)),
        decreases r.sub@.len() - j,
    {
        assert(r.sub@.subrange(0, j + 1).drop_last() =~= r.sub@.subrange(0, j as int));
        match index_of(&r.sub[j], iv) {
            Some(x) => {
                out.push(x);
                assert(out@.map_values(|x: usize| x as nat) =~= sub_values(r.sub@.subrange(0, j as int), iv@).unwrap().push(x as nat));
            },
            None => {
                proof {
                    lemma_sub_values_prefix(r.sub@, iv@, j as int + 1);
                }
                return None;
            },
        }
        j = j + 1;
    }
    assert(r.sub@.subrange(0, r.sub@.len() as int) =~= r.sub@);
    Some(out)
}

/// A prefix of undefined subscripts leaves the whole undefined.
proof fn lemma_sub_values_prefix(sub: Seq<IdxExpr>, iv: Seq<i32>, j: int)
    requires
        0 <= j <= sub.len(),
        sub_values(sub.subrange(0, j), iv) is None,
    ensures
        sub_values(sub, iv) is None,
    decreases sub.len() - j,
{
    if j < sub.len() {
        assert(sub.subrange(0, j + 1).drop_last() =~= sub.subrange(0, j));
        lemma_sub_values_prefix(sub, iv, j + 1);
    } else {
        assert(sub.subrange(0, j) =~= sub);
    }
}

/// Linearises `idx` over the extents `dim` in row-major order.
fn linearize(dim: &Vec<usize>, idx: &Vec<usize>) -> (r: Option<usize>)
    requires
        dim@.len() == idx@.len(),
    ensures
        r is Some <==> linear_fits(dim@, idx@.map_values(|x: usize| x as nat)),
        r is Some ==> r.unwrap() as nat == linear(dim@, idx@.map_values(|x: usize| x as nat)),
{
    let ghost xs = idx@.map_values(|x: usize| x as nat);
    let mut acc: usize = 0;
    let mut j: usize = 0;
    while j < idx.len()
        invariant
            j <= idx@.len(),
            dim@.len() == idx@.len(),
            xs == idx@.map_values(|x: usize| x as nat),
            linear_fits(dim@.subrange(0, j as int), xs.subrange(0, j as int)),
            acc as nat == linear(dim@.subrange(0, j as int), xs.subrange(0, j as int)),
        decreases idx@.len() - j,
    {
        assert(dim@.subrange(0, j + 1).drop_last() =~= dim@.subrange(0, j as int));
        assert(xs.subrange(0, j + 1).drop_last() =~= xs.subrange(0, j as int));
        let ghost prev = linear(dim@.subrange(0, j as int), xs.subrange(0, j as int));
        match acc.checked_mul(dim[j]) {
            Some(m) => match m.checked_add(idx[j]) {
                Some(s) => {
                    acc = s;
                },
                None => {
                    proof {
                        lemma_linear_fits_prefix(dim@, xs, j as int + 1);
                    }
                    return None;
                },
            },
            None => {
                proof {
                    assert(prev * (dim@[j as int] as nat) + xs[j as int] > usize::MAX) by (nonlinear_arith)
                        requires
                            prev * (dim@[j as int] as nat) > usize::MAX,
                    ;
                    lemma_linear_fits_prefix(dim@, xs, j as int + 1);
                }
                return None;
            },
        }
        j = j + 1;
    }
    assert(dim@.subrange(0, j as int) =~= dim@);
    assert(xs.subrange(0, j as int) =~= xs);
    Some(acc)
}

proof fn lemma_linear_fits_prefix(dim: Seq<usize>, xs: Seq<nat>, j: int)
    requires
        dim.len() == xs.len(),
        0 < j <= xs.len(),
        !linear_fits(dim.subrange(0, j), xs.subrange(0, j)),
    ensures
        !linear_fits(dim, xs),
    decreases xs.len() - j,
{
    if j < xs.len() {
        assert(dim.subrange(0, j + 1).drop_last() =~= dim.subrange(0, j));
        assert(xs.subrange(0, j + 1).drop_last() =~= xs.subrange(0, j));
        lemma_linear_fits_prefix(dim, xs, j + 1);
    } else {
        assert(dim.subrange(0, j) =~= dim);
        assert(xs.subrange(0, j) =~= xs);
    }
}

/// The cache line that `ary_ref` touches at the iteration vector `ivec`:
/// the subscripts are linearised in row-major order, added to the array's
/// base offset, scaled by the element size and divided by the line size.
pub fn access3addr(ary_ref: &AryRef, ivec: &[i32], data_size: usize, cache_line_size: usize) -> (r: Result<usize, TraceError>)
    requires
        cache_line_size > 0,
    ensures
        match r {
            Ok(a) => address(*ary_ref, ivec@, data_size as nat, cache_line_size as nat) == Ok::<nat, TraceError>(a as nat),
            Err(e) => address(*ary_ref, ivec@, data_size as nat, cache_line_size as nat) == Err::<nat, TraceError>(e),
        },
{
    let idx = match eval_subscripts(ary_ref, ivec) {
        Some(v) => v,
        None => {
            return Err(TraceError::InvalidSubscript { name: ary_ref.name.clone() });
        },
    };
    if idx.len() != ary_ref.dim.len() {
        return Err(TraceError::StructuralMismatch { name: ary_ref.name.clone() });
    }
    let base = match ary_ref.base {
        Some(b) => b,
        None => {
            return Err(TraceError::MissingBaseOffset { name: ary_ref.name.clone() });
        },
    };
    let off = match linearize(&ary_ref.dim, &idx) {
        Some(o) => o,
        None => {
            return Err(TraceError::AddressOverflow { name: ary_ref.name.clone() });
        },
    };
    match base.checked_add(off) {
        Some(s) => match s.checked_mul(data_size) {
            Some(bytes) => Ok(bytes / cache_line_size),
            None => Err(TraceError::AddressOverflow { name: ary_ref.name.clone() }),
        },
        None => Err(TraceError::AddressOverflow { name: ary_ref.name.clone() }),
    }
}

/// fxhash's hasher, carried opaquely inside the index map's type.
#[verifier::external_type_specification]
#[verifier::external_body]
pub struct ExFxHasher(fxhash::FxHasher);

/// std's hasher builder, carried opaquely inside the index map's type.
#[verifier::external_type_specification]
#[verifier::external_body]
#[verifier::reject_recursive_types(H)]
pub struct ExBuildHasherDefault<H>(std::hash::BuildHasherDefault<H>);

/// An array slot and a cache line.
type LineKey = (usize, usize);

/// Last access time of each (array slot, cache line).
type LastSeen = FxHashMap<(usize, usize), usize>;

/// Relies on `fxhash::FxHashMap` being std's `HashMap` under fxhash's
/// deterministic hasher: a map made by `default` is empty.
#[verifier::external_body]
fn index_new() -> (r: LastSeen)
    ensures
        r@.dom() == Set::<LineKey>::empty(),
{
    FxHashMap::default()
}

/// Relies on `HashMap::insert` under fxhash's hasher: the key is mapped to
/// `v`, and the value it had before is returned.
#[verifier::external_body]
fn index_insert(m: &mut LastSeen, k: (usize, usize), v: usize) -> (r: Option<usize>)
    ensures
        final(m)@ == old(m)@.insert(k, v),
        old(m)@.contains_key(k) ==> r == Some(old(m)@[k]),
        !old(m)@.contains_key(k) ==> r is None,
{
    m.insert(k, v)
}

/// Each entry of the log gives the array name, the identifier of the
/// access node and the cache line of the access at the same position of
/// the trace.
pub open spec fn log_matches(log: Seq<(String, Option<usize>, usize)>, s: Seq<Access>) -> bool {
    &&& log.len() == s.len()
    &&& forall|i: int| 0 <= i < s.len() ==> (#[trigger] log[i]).0@ == s[i].0 && log[i].2 as nat == s[i].1 && log[i].1 == s[i].2
}

/// The state of a virtual execution.
struct Tracer {
    /// The array names met so far; an array's position here is its slot.
    names: Vec<String>,
    /// For each (slot, cache line) touched, the clock value of its last access.
    last: LastSeen,
    hist: Hist,
    /// One tick per access.
    clock: usize,
    ds: usize,
    cls: usize,
    /// Whether each access is also written to `log`.
    keep_log: bool,
    /// Array name, reference identifier and cache line of each access.
    log: Vec<(String, Option<usize>, usize)>,
    /// The accesses made so far.
    seen: Ghost<Seq<Access>>,
}

impl Tracer {
    spec fn inv(self) -> bool {
        &&& self.cls > 0
        &&& self.clock == self.seen@.len()
        &&& self.hist.wf()
        &&& forall|d: Option<nat>| #[trigger] self.hist.count(d) == hist_count(self.seen@, d)
        &&& total(self.hist.entries()) == self.seen@.len()
        &&& forall|i: int, j: int| 0 <= i < j < self.names@.len() ==> (#[trigger] self.names@[i])@ != (#[trigger] self.names@[j])@
        &&& forall|k: (usize, usize)| #[trigger] self.last@.contains_key(k) ==> k.0 < self.names@.len()
        &&& forall|s: usize, a: usize| s < self.names@.len() ==> {
            &&& (#[trigger] self.last@.contains_key((s, a))) == (last_idx(self.seen@, (self.names@[s as int]@, a as nat)) is Some)
            &&& self.last@.contains_key((s, a)) ==> self.last@[(s, a)] as nat == last_idx(self.seen@, (self.names@[s as int]@, a as nat)).unwrap()
        }
        &&& forall|i: int| 0 <= i < self.seen@.len() ==> exists|s: int| 0 <= s < self.names@.len() && (#[trigger] self.names@[s])@ == (#[trigger] self.seen@[i]).0
        &&& forall|i: int| 0 <= i < self.seen@.len() ==> (#[trigger] self.seen@[i]).1 <= usize::MAX
        &&& self.keep_log ==> log_matches(self.log@, self.seen@)
    }

    fn new(ds: usize, cls: usize, keep_log: bool) -> (r: Tracer)
        requires
            cls > 0,
        ensures
            r.inv(),
            r.seen@ == Seq::<Access>::empty(),
            r.ds == ds,
            r.cls == cls,
            r.keep_log == keep_log,
    {
        let r = Tracer {
            names: Vec::new(),
            last: index_new(),
            hist: Hist::new(),
            clock: 0,
            ds,
            cls,
            keep_log,
            log: Vec::new(),
            seen: Ghost(Seq::empty()),
        };
        assert(r.log@.len() == 0);
        r
    }

    /// The slot of the array `name`, added if it is new.
    fn slot_of(&mut self, name: &String) -> (r: usize)
        requires
            old(self).inv(),
        ensures
            final(self).inv(),
            final(self).seen@ == old(self).seen@,
            final(self).clock == old(self).clock,
            final(self).ds == old(self).ds,
            final(self).cls == old(self).cls,
            final(self).keep_log == old(self).keep_log,
            final(self).log@ == old(self).log@,
            r < final(self).names@.len(),
            final(self).names@[r as int]@ == name@,
    {
        let mut i: usize = 0;
        while i < self.names.len()
            invariant
                i <= self.names@.len(),
                self.inv(),
                self.seen@ == old(self).seen@,
                self.clock == old(self).clock,
                self.ds == old(self).ds,
                self.cls == old(self).cls,
                self.keep_log == old(self).keep_log,
                self.log@ == old(self).log@,
                forall|j: int| 0 <= j < i ==> (#[trigger] self.names@[j])@ != name@,
            decreases self.names@.len() - i,
        {
            if self.names[i].eq(name) {
                return i;
            }
            i = i + 1;
        }
        let ghost old_names = self.names@;
        self.names.push(name.clone());
        proof {
            assert forall|s: int| 0 <= s < old_names.len() implies self.names@[s] == old_names[s] by {}
            assert(self.names@[old_names.len() as int]@ == name@);
            assert forall|p: int, q: int| 0 <= p < q < self.names@.len() implies (#[trigger] self.names@[p])@ != (#[trigger] self.names@[q])@ by {
                if q < old_names.len() {
                    assert(old_names[p]@ != old_names[q]@);
                } else {
                    assert(old_names[p]@ != name@);
                }
            }
            assert forall|i: int| 0 <= i < self.seen@.len() implies exists|s: int| 0 <= s < self.names@.len() && (#[trigger] self.names@[s])@ == (#[trigger] self.seen@[i]).0 by {
                let s = choose|s: int| 0 <= s < old_names.len() && (#[trigger] old_names[s])@ == self.seen@[i].0;
                assert(self.names@[s] == old_names[s]);
            }
            assert forall|s: usize, a: usize| s < self.names@.len() implies {
                &&& (#[trigger] self.last@.contains_key((s, a))) == (last_idx(self.seen@, (self.names@[s as int]@, a as nat)) is Some)
                &&& self.last@.contains_key((s, a)) ==> self.last@[(s, a)] as nat == last_idx(self.seen@, (self.names@[s as int]@, a as nat)).unwrap()
            } by {
                if s as int == old_names.len() {
                    lemma_last_idx_bound(self.seen@, (self.names@[s as int]@, a as nat));
                    if last_idx(self.seen@, (self.names@[s as int]@, a as nat)) is Some {
                        let j = last_idx(self.seen@, (self.names@[s as int]@, a as nat)).unwrap() as int;
                        let t = choose|t: int| 0 <= t < old_names.len() && (#[trigger] old_names[t])@ == self.seen@[j].0;
                        assert(false);
                    }
                }
            }
        }
        i
    }

    /// Records an access to the cache line `addr` of the array `name`.
    fn record(&mut self, name: &String, ref_id: Option<usize>, addr: usize)
        requires
            old(self).inv(),
            old(self).clock < usize::MAX,
        ensures
            final(self).inv(),
            final(self).seen@ == old(self).seen@.push((name@, addr as nat, ref_id)),
            final(self).ds == old(self).ds,
            final(self).cls == old(self).cls,
            final(self).keep_log == old(self).keep_log,
    {
        let slot = self.slot_of(name);
        let ghost s0 = self.seen@;
        let ghost x = (name@, addr as nat, ref_id);
        let ghost key = (name@, addr as nat);
        let prev = index_insert(&mut self.last, (slot, addr), self.clock);
        proof {
            lemma_last_idx_bound(s0, key);
        }
        let d = match prev {
            Some(p) => Some(self.clock - p),
            None => None,
        };
        let ghost s1 = s0.push(x);
        proof {
            assert(s1.subrange(0, s0.len() as int) =~= s0);
            assert(s1.drop_last() =~= s0);
            assert(reuse(s1, s0.len() as int) == key_of(d));
            lemma_hist_count_bound(s0, key_of(d));
        }
        self.hist.add_dist(d);
        if self.keep_log {
            let ghost l0 = self.log@;
            self.log.push((name.clone(), ref_id, addr));
            proof {
                assert forall|i: int| 0 <= i < s1.len() implies (#[trigger] self.log@[i]).0@ == s1[i].0 && self.log@[i].2 as nat == s1[i].1
                    && self.log@[i].1 == s1[i].2 by {
                    if i < s0.len() {
                        assert(self.log@[i] == l0[i]);
                        assert(s1[i] == s0[i]);
                    }
                }
            }
        }
        self.seen = Ghost(s1);
        self.clock = self.clock + 1;
        proof {
            assert forall|d: Option<nat>| #[trigger] self.hist.count(d) == hist_count(s1, d) by {}
            assert forall|s: usize, a: usize| s < self.names@.len() implies {
                &&& (#[trigger] self.last@.contains_key((s, a))) == (last_idx(s1, (self.names@[s as int]@, a as nat)) is Some)
                &&& self.last@.contains_key((s, a)) ==> self.last@[(s, a)] as nat == last_idx(s1, (self.names@[s as int]@, a as nat)).unwrap()
            } by {
                if (s, a) != (slot, addr) {
                    assert((self.names@[s as int]@, a as nat) != key);
                }
            }
            assert forall|i: int| 0 <= i < s1.len() implies exists|s: int| 0 <= s < self.names@.len() && (#[trigger] self.names@[s])@ == (#[trigger] s1[i]).0 by {
                if i == s0.len() {
                    assert(self.names@[slot as int]@ == s1[i].0);
                } else {
                    assert(s1[i] == s0[i]);
                }
            }
            assert forall|i: int| 0 <= i < s1.len() implies (#[trigger] s1[i]).1 <= usize::MAX by {
                if i < s0.len() {
                    assert(s1[i] == s0[i]);
                }
            }
        }
    }

    /// Executes `n` at the iteration vector `iv`.
    fn trace_node(&mut self, n: &Node, iv: &mut Vec<i32>) -> (r: Result<(), TraceError>)
        requires
            old(self).inv(),
        ensures
            match r {
                Ok(_) => {
                    &&& run_node(*n, old(iv)@, old(self).ds as nat, old(self).cls as nat, old(self).seen@) == Ok::<
                        Seq<Access>,
                        TraceError,
                    >(final(self).seen@)
                    &&& final(self).inv()
                    &&& final(iv)@ == old(iv)@
                    &&& final(self).ds == old(self).ds
                    &&& final(self).cls == old(self).cls
                    &&& final(self).keep_log == old(self).keep_log
                },
                Err(e) => run_node(*n, old(iv)@, old(self).ds as nat, old(self).cls as nat, old(self).seen@) == Err::<
                    Seq<Access>,
                    TraceError,
                >(e),
            },
        decreases n, 0int,
    {
        match &n.stmt {
            Stmt::Ref(r) => {
                let a = match access3addr(r, iv.as_slice(), self.ds, self.cls) {
                    Ok(a) => a,
                    Err(e) => {
                        return Err(e);
                    },
                };
                if self.clock == usize::MAX {
                    return Err(TraceError::ClockOverflow);
                }
                self.record(&r.name, r.ref_id, a);
                Ok(())
            },
            Stmt::Loop(l) => self.trace_loop(l, iv),
            Stmt::Block(b) => self.trace_list(b, iv),
            Stmt::Branch(br) => match eval_cond(&br.cond, iv.as_slice()) {
                None => Err(TraceError::InvalidCondition),
                Some(true) => self.trace_node(&br.then_body, iv),
                Some(false) => match &br.else_body {
                    Some(e) => self.trace_node(e, iv),
                    None => Ok(()),
                },
            },
        }
    }

    /// Executes every iteration of the loop `l`.
    fn trace_loop(&mut self, l: &LoopStmt, iv: &mut Vec<i32>) -> (r: Result<(), TraceError>)
        requires
            old(self).inv(),
        ensures
            match r {
                Ok(_) => {
                    &&& run_node(Node { stmt: Stmt::Loop(*l) }, old(iv)@, old(self).ds as nat, old(self).cls as nat, old(self).seen@) == Ok::<
                        Seq<Access>,
                        TraceError,
                    >(final(self).seen@)
                    &&& final(self).inv()
                    &&& final(iv)@ == old(iv)@
                    &&& final(self).ds == old(self).ds
                    &&& final(self).cls == old(self).cls
                    &&& final(self).keep_log == old(self).keep_log
                },
                Err(e) => run_node(Node { stmt: Stmt::Loop(*l) }, old(iv)@, old(self).ds as nat, old(self).cls as nat, old(self).seen@) == Err::<
                    Seq<Access>,
                    TraceError,
                >(e),
            },
        decreases l, 1int,
    {
        let (lo, hi) = match (&l.lb, &l.ub) {
            (LoopBound::Fixed(lo), LoopBound::Fixed(hi)) => (*lo, *hi),
            _ => {
                return Err(TraceError::UnsupportedBound { iv: l.iv.clone() });
            },
        };
        if l.descending {
            return self.trace_loop_down(l, iv, lo, hi);
        }
        let ghost ds = self.ds as nat;
        let ghost cls = self.cls as nat;
        let ghost iv0 = iv@;
        let ghost whole = run_iters(*l, iv0, lo as int, hi as int, ds, cls, self.seen@);
        let mut i: i32 = lo;
        while i < hi
            invariant
                self.inv(),
                self.ds as nat == ds,
                self.cls as nat == cls,
                self.keep_log == old(self).keep_log,
                iv@ == iv0,
                lo <= i,
                whole == run_node(Node { stmt: Stmt::Loop(*l) }, old(iv)@, old(self).ds as nat, old(self).cls as nat, old(self).seen@),
                i < hi ==> whole == run_iters(*l, iv0, i as int, hi as int, ds, cls, self.seen@),
                i >= hi ==> whole == Ok::<Seq<Access>, TraceError>(self.seen@),
            decreases hi - i,
        {
            iv.push(i);
            let res = self.trace_list(&l.body, iv);
            match res {
                Ok(_) => {
                    iv.pop();
                    assert(iv@ =~= iv0);
                },
                Err(e) => {
                    return Err(e);
                },
            }
            i = i + 1;
        }
        Ok(())
    }

    /// Executes every iteration of the descending loop `l`, from `lo` down
    /// to just above `hi`.
    fn trace_loop_down(&mut self, l: &LoopStmt, iv: &mut Vec<i32>, lo: i32, hi: i32) -> (r: Result<(), TraceError>)
        requires
            old(self).inv(),
        ensures
            match r {
                Ok(_) => {
                    &&& run_iters_down(*l, old(iv)@, lo as int, hi as int, old(self).ds as nat, old(self).cls as nat, old(self).seen@) == Ok::<
                        Seq<Access>,
                        TraceError,
                    >(final(self).seen@)
                    &&& final(self).inv()
                    &&& final(iv)@ == old(iv)@
                    &&& final(self).ds == old(self).ds
                    &&& final(self).cls == old(self).cls
                    &&& final(self).keep_log == old(self).keep_log
                },
                Err(e) => run_iters_down(*l, old(iv)@, lo as int, hi as int, old(self).ds as nat, old(self).cls as nat, old(self).seen@) == Err::<
                    Seq<Access>,
                    TraceError,
                >(e),
            },
        decreases l, 0int,
    {
        let ghost ds = self.ds as nat;
        let ghost cls = self.cls as nat;
        let ghost iv0 = iv@;
        let ghost whole = run_iters_down(*l, iv0, lo as int, hi as int, ds, cls, self.seen@);
        let mut i: i32 = lo;
        while i > hi
            invariant
                self.inv(),
                self.ds as nat == ds,
                self.cls as nat == cls,
                self.keep_log == old(self).keep_log,
                iv@ == iv0,
                i <= lo,
                whole == run_iters_down(*l, old(iv)@, lo as int, hi as int, old(self).ds as nat, old(self).cls as nat, old(self).seen@),
                i > hi ==> whole == run_iters_down(*l, iv0, i as int, hi as int, ds, cls, self.seen@),
                i <= hi ==> whole == Ok::<Seq<Access>, TraceError>(self.seen@),
            decreases i - hi,
        {
            iv.push(i);
            let res = self.trace_list(&l.body, iv);
            match res {
                Ok(_) => {
                    iv.pop();
                    assert(iv@ =~= iv0);
                },
                Err(e) => {
                    return Err(e);
                },
            }
            i = i - 1;
        }
        Ok(())
    }

    /// Executes the nodes of `v` in order.
    fn trace_list(&mut self, v: &Vec<Node>, iv: &mut Vec<i32>) -> (r: Result<(), TraceError>)
        requires
            old(self).inv(),
        ensures
            match r {
                Ok(_) => {
                    &&& run_list(v@, old(iv)@, old(self).ds as nat, old(self).cls as nat, old(self).seen@) == Ok::<
                        Seq<Access>,
                        TraceError,
                    >(final(self).seen@)
                    &&& final(self).inv()
                    &&& final(iv)@ == old(iv)@
                    &&& final(self).ds == old(self).ds
                    &&& final(self).cls == old(self).cls
                    &&& final(self).keep_log == old(self).keep_log
                },
                Err(e) => run_list(v@, old(iv)@, old(self).ds as nat, old(self).cls as nat, old(self).seen@) == Err::<
                    Seq<Access>,
                    TraceError,
                >(e),
            },
        decreases v, 0int,
    {
        let ghost ds = self.ds as nat;
        let ghost cls = self.cls as nat;
        let ghost iv0 = iv@;
        let ghost whole = run_list(v@, iv0, ds, cls, self.seen@);
        let mut j: usize = 0;
        assert(v@.subrange(0, v@.len() as int) =~= v@);
        while j < v.len()
            invariant
                self.inv(),
                self.ds as nat == ds,
                self.cls as nat == cls,
                self.keep_log == old(self).keep_log,
                iv@ == iv0,
                j <= v@.len(),
                whole == run_list(v@, old(iv)@, old(self).ds as nat, old(self).cls as nat, old(self).seen@),
                whole == run_list(v@.subrange(j as int, v@.len() as int), iv0, ds, cls, self.seen@),
            decreases v@.len() - j,
        {
            assert(v@.subrange(j as int, v@.len() as int).drop_first() =~= v@.subrange(j + 1, v@.len() as int));
            match self.trace_node(&v[j], iv) {
                Ok(_) => {},
                Err(e) => {
                    return Err(e);
                },
            }
            j = j + 1;
        }
        Ok(())
    }

}
/// Evaluates the condition `c` at `iv`.
fn eval_cond(c: &Cond, iv: &[i32]) -> (r: Option<bool>)
    ensures
        r == cond_value(*c, iv@),
    decreases c,
{
    match (c.lhs.eval(iv), c.rhs.eval(iv)) {
        (Some(a), Some(b)) => {
            let here = match c.op {
                CmpOp::Lt => a < b,
                CmpOp::Le => a <= b,
                CmpOp::Eq => a == b,
                CmpOp::Ne => a != b,
            };
            match &c.and {
                None => Some(here),
                Some(rest) => match eval_cond(rest, iv) {
                    Some(t) => Some(here && t),
                    None => None,
                },
            }
        },
        _ => None,
    }
}

/// The tree after numbering, in preorder from `c`, the accesses that have
/// no identifier yet, with the next free number.
pub open spec fn ids_node(n: NodeV, c: nat) -> (NodeV, nat)
    decreases n,
{
    match n {
        NodeV::Ref(r) => if r.ref_id is None {
            (NodeV::Ref(RefV { ref_id: Some(c as usize), ..r }), next_id(c))
        } else {
            (n, c)
        },
        NodeV::Loop(l) => {
            let (b, c2) = ids_list(l.body, c);
            (NodeV::Loop(LoopV { body: b, ..l }), c2)
        },
        NodeV::Block(b) => {
            let (b2, c2) = ids_list(b, c);
            (NodeV::Block(b2), c2)
        },
        NodeV::Branch(cond, t, e) => {
            let (t2, c1) = ids_node(*t, c);
            match e {
                Some(e) => {
                    let (e2, c2) = ids_node(*e, c1);
                    (NodeV::Branch(cond, Box::new(t2), Some(Box::new(e2))), c2)
                },
                None => (NodeV::Branch(cond, Box::new(t2), None), c1),
            }
        },
    }
}

pub open spec fn ids_list(s: Seq<NodeV>, c: nat) -> (Seq<NodeV>, nat)
    decreases s,
{
    if s.len() == 0 {
        (s, c)
    } else {
        let (h, c1) = ids_node(s[0], c);
        let (t, c2) = ids_list(s.drop_first(), c1);
        (seq![h] + t, c2)
    }
}

/// The number after `c`; the counter stops at the largest `usize`.
pub open spec fn next_id(c: nat) -> nat {
    if c < usize::MAX {
        c + 1
    } else {
        c
    }
}

fn assign_ids_node(n: &mut Node, counter: &mut usize)
    ensures
        (final(n)@, *final(counter) as nat) == ids_node(old(n)@, *old(counter) as nat),
    decreases *old(n),
{
    match &mut n.stmt {
        Stmt::Ref(r) => {
            if r.ref_id.is_none() {
                r.ref_id = Some(*counter);
                if *counter < usize::MAX {
                    *counter = *counter + 1;
                }
            }
        },
        Stmt::Loop(l) => {
            assign_ids_list(&mut l.body, counter);
        },
        Stmt::Block(b) => {
            assign_ids_list(b, counter);
        },
        Stmt::Branch(br) => {
            assign_ids_node(&mut br.then_body, counter);
            match &mut br.else_body {
                Some(e) => assign_ids_node(e, counter),
                None => {},
            }
        },
    }
}

fn assign_ids_list(v: &mut Vec<Node>, counter: &mut usize)
    ensures
        (nodes_view(final(v)@), *final(counter) as nat) == ids_list(nodes_view(old(v)@), *old(counter) as nat),
    decreases *old(v),
{
    let ghost orig = nodes_view(v@);
    let ghost c0 = *counter as nat;
    proof {
        lemma_nodes_view(v@);
    }
    assert(orig.subrange(0, orig.len() as int) =~= orig);
    let mut j: usize = 0;
    while j < v.len()
        invariant
            j <= v@.len(),
            v@.len() == orig.len(),
            old(v)@.len() == v@.len(),
            forall|k: int| j <= k < v@.len() ==> #[trigger] v@[k] == old(v)@[k],
            orig == nodes_view(old(v)@),
            nodes_view(v@).len() == v@.len(),
            forall|k: int| 0 <= k < orig.len() ==> #[trigger] orig[k] == node_view(old(v)@[k]),
            ({
                let (t, cf) = ids_list(orig.subrange(j as int, orig.len() as int), *counter as nat);
                ids_list(orig, c0) == (nodes_view(v@).subrange(0, j as int) + t, cf)
            }),
        decreases v@.len() - j,
    {
        let ghost before = v@;
        let ghost cb = *counter as nat;
        proof {
            lemma_nodes_view(v@);
            assert(orig.subrange(j as int, orig.len() as int).drop_first() =~= orig.subrange(j + 1, orig.len() as int));
        }
        proof {
            vstd::std_specs::vec::axiom_vec_index_decreases(*old(v), j as int);
        }
        assign_ids_node(&mut v[j], counter);
        proof {
            lemma_nodes_view(v@);
            lemma_nodes_view(before);
            let (h, c1) = ids_node(orig[j as int], cb);
            let (t, cf) = ids_list(orig.subrange(j + 1, orig.len() as int), c1);
            assert(nodes_view(v@).subrange(0, j + 1) =~= nodes_view(before).subrange(0, j as int).push(h));
            assert(nodes_view(before).subrange(0, j as int) + (seq![h] + t) =~= nodes_view(v@).subrange(0, j + 1) + t);
        }
        j = j + 1;
    }
    proof {
        lemma_nodes_view(v@);
        assert(nodes_view(v@).subrange(0, j as int) =~= nodes_view(v@));
        assert(orig.subrange(j as int, orig.len() as int) =~= Seq::<NodeV>::empty());
        assert(nodes_view(v@) + Seq::<NodeV>::empty() =~= nodes_view(v@));
    }
}

/// Gives every access that has no identifier yet the next number, in
/// execution order from 0; accesses that have one keep it.
pub fn assign_ref_id(node: &mut Node)
    ensures
        final(node)@ == ids_node(old(node)@, 0).0,
{
    let mut counter: usize = 0;
    assign_ids_node(node, &mut counter);
}

/// Executes `code` from an empty iteration vector and clock, and returns
/// its histogram.
fn run_trace(code: &Node, data_size: usize, cache_line_size: usize) -> (r: Result<Hist, TraceError>)
    requires
        cache_line_size > 0,
    ensures
        match run_node(*code, Seq::empty(), data_size as nat, cache_line_size as nat, Seq::empty()) {
            Ok(s) => r is Ok && r.unwrap().wf() && (forall|d: Option<nat>| #[trigger] r.unwrap().count(d) == hist_count(s, d))
                && total(r.unwrap().entries()) == s.len(),
            Err(e) => r == Err::<Hist, TraceError>(e),
        },
{
    let mut t = Tracer::new(data_size, cache_line_size, false);
    let mut iv: Vec<i32> = Vec::new();
    assert(iv@ =~= Seq::<i32>::empty());
    match t.trace_node(code, &mut iv) {
        Ok(_) => Ok(t.hist),
        Err(e) => Err(e),
    }
}

/// Like [`run_trace`], also returning the log of all accesses.
fn run_trace_logged(code: &Node, data_size: usize, cache_line_size: usize) -> (r: Result<
    (Hist, Vec<(String, Option<usize>, usize)>),
    TraceError,
>)
    requires
        cache_line_size > 0,
    ensures
        match run_node(*code, Seq::empty(), data_size as nat, cache_line_size as nat, Seq::empty()) {
            Ok(s) => r is Ok && r.unwrap().0.wf() && (forall|d: Option<nat>| #[trigger] r.unwrap().0.count(d) == hist_count(s, d))
                && total(r.unwrap().0.entries()) == s.len()
                && log_matches(r.unwrap().1@, s),
            Err(e) => r == Err::<(Hist, Vec<(String, Option<usize>, usize)>), TraceError>(e),
        },
{
    let mut t = Tracer::new(data_size, cache_line_size, true);
    let mut iv: Vec<i32> = Vec::new();
    assert(iv@ =~= Seq::<i32>::empty());
    match t.trace_node(code, &mut iv) {
        Ok(_) => Ok((t.hist, t.log)),
        Err(e) => Err(e),
    }
}

/// Assigns base offsets and reference identifiers in `code`, then executes
/// it and returns the reuse-distance histogram of all its accesses.
///
/// The accesses are those of [`run_node`] on the prepared tree, each
/// quantised to a cache line of `cache_line_size` bytes for elements of
/// `data_size` bytes; the histogram counts, for each distance (`None` for a
/// first access), the accesses with that [`reuse`] distance.
pub fn tracing_ri(code: &mut Node, data_size: usize, cache_line_size: usize) -> (r: Result<Hist, TraceError>)
    requires
        cache_line_size > 0,
    ensures
        bases_node(old(code)@, initial_alloc()).1.cur is None ==> r == Err::<Hist, TraceError>(TraceError::SpaceOverflow),
        bases_node(old(code)@, initial_alloc()).1.cur is Some ==> {
            &&& final(code)@ == ids_node(bases_node(old(code)@, initial_alloc()).0, 0).0
            &&& match run_node(*final(code), Seq::empty(), data_size as nat, cache_line_size as nat, Seq::empty()) {
                Ok(s) => r is Ok && r.unwrap().wf() && (forall|d: Option<nat>| #[trigger] r.unwrap().count(d) == hist_count(s, d))
                && total(r.unwrap().entries()) == s.len(),
                Err(e) => r == Err::<Hist, TraceError>(e),
            }
        },
{
    if set_arybase(code).is_none() {
        return Err(TraceError::SpaceOverflow);
    }
    assign_ref_id(code);
    run_trace(code, data_size, cache_line_size)
}

/// Row-major linearisation: an access `(r, c)` to an array of extents
/// `[rows, cols]` lies `r * cols + c` elements from the array's start.
pub proof fn lemma_row_major(rows: usize, cols: usize, r: nat, c: nat)
    ensures
        linear(seq![rows, cols], seq![r, c]) == r * cols + c,
{
    let d = seq![rows, cols];
    let x = seq![r, c];
    assert(d.drop_last() =~= seq![rows]);
    assert(x.drop_last() =~= seq![r]);
    assert(d.drop_last().drop_last() =~= Seq::<usize>::empty());
    assert(x.drop_last().drop_last() =~= Seq::<nat>::empty());
    assert(linear(Seq::<usize>::empty(), Seq::<nat>::empty()) == 0);
    assert(seq![rows].drop_last() =~= Seq::<usize>::empty());
    assert(seq![r].drop_last() =~= Seq::<nat>::empty());
    assert(linear(seq![rows], seq![r]) == 0 * (rows as nat) + r);
    assert(linear(seq![rows], seq![r]) == r);
}

/// Cold-access law: the access at position `i` of a trace is cold (`None`)
/// exactly when no earlier access touched the same line of the same array;
/// otherwise its distance is `i - j`, where `j` is the position (clock
/// value) of the latest earlier access to that line.
pub proof fn lemma_cold_access(s: Seq<Access>, i: int)
    requires
        0 <= i < s.len(),
    ensures
        reuse(s, i) is None <==> forall|j: int| 0 <= j < i ==> line_key(s[j]) != line_key(s[i]),
        reuse(s, i) is Some ==> exists|j: int|
            0 <= j < i && line_key(s[j]) == line_key(s[i]) && reuse(s, i) == Some((i - j) as nat) && forall|m: int|
                j < m < i ==> line_key(s[m]) != line_key(s[i]),
{
    let p = s.subrange(0, i);
    let k = line_key(s[i]);
    lemma_last_idx_bound(p, k);
    if reuse(s, i) is None {
        assert forall|j: int| 0 <= j < i implies line_key(s[j]) != k by {
            assert(p[j] == s[j]);
        }
    } else {
        let j = last_idx(p, k).unwrap() as int;
        assert(p[j] == s[j]);
        assert forall|m: int| j < m < i implies line_key(s[m]) != k by {
            assert(p[m] == s[m]);
        }
        assert(line_key(s[j]) == k);
    }
}

/// The distinct (array, cache line) pairs touched by a trace.
pub open spec fn line_keys(s: Seq<Access>) -> Set<(Seq<char>, nat)>
    decreases s.len(),
{
    if s.len() == 0 {
        Set::empty()
    } else {
        line_keys(s.drop_last()).insert(line_key(s.last()))
    }
}

proof fn lemma_line_keys(s: Seq<Access>)
    ensures
        line_keys(s).finite(),
        forall|k: (Seq<char>, nat)| #[trigger] line_keys(s).contains(k) <==> last_idx(s, k) is Some,
    decreases s.len(),
{
    if s.len() > 0 {
        lemma_line_keys(s.drop_last());
    }
}

/// The cold accesses of a trace are exactly as many as the distinct
/// (array, cache line) pairs it touches.
pub proof fn lemma_cold_count(s: Seq<Access>)
    ensures
        hist_count(s, None) == line_keys(s).len(),
    decreases s.len(),
{
    if s.len() > 0 {
        let t = s.drop_last();
        lemma_cold_count(t);
        lemma_line_keys(t);
        let k = line_key(s.last());
        assert(s.subrange(0, s.len() - 1) =~= t);
        if line_keys(t).contains(k) {
            assert(line_keys(s) =~= line_keys(t));
        } else {
            assert(reuse(s, s.len() - 1) is None);
        }
    }
}

/// A reuse distance is at least one tick.
pub proof fn lemma_distance_positive(s: Seq<Access>, i: int)
    requires
        0 <= i < s.len(),
        reuse(s, i) is Some,
    ensures
        reuse(s, i).unwrap() >= 1,
{
    lemma_last_idx_bound(s.subrange(0, i), line_key(s[i]));
}

/// Clock monotonicity: executing a node only appends accesses, one per
/// access node met, to the trace so far; the clock (the trace length) never
/// goes back.
pub proof fn lemma_clock_monotone(n: Node, iv: Seq<i32>, ds: nat, cls: nat, acc: Seq<Access>)
    ensures
        run_node(n, iv, ds, cls, acc) is Ok ==> {
            let s = run_node(n, iv, ds, cls, acc).unwrap();
            acc.len() <= s.len() && s.subrange(0, acc.len() as int) == acc
        },
        n.stmt is Ref && run_node(n, iv, ds, cls, acc) is Ok ==> run_node(n, iv, ds, cls, acc).unwrap().len()
            == acc.len() + 1,
    decreases n, 0int,
{
    match n.stmt {
        Stmt::Ref(r) => {
            if run_node(n, iv, ds, cls, acc) is Ok {
                assert(run_node(n, iv, ds, cls, acc).unwrap().subrange(0, acc.len() as int) =~= acc);
            }
        },
        Stmt::Loop(l) => match (l.lb, l.ub) {
            (LoopBound::Fixed(lo), LoopBound::Fixed(hi)) => if l.descending {
                lemma_iters_down_monotone(l, iv, lo as int, hi as int, ds, cls, acc)
            } else {
                lemma_iters_monotone(l, iv, lo as int, hi as int, ds, cls, acc)
            },
            _ => {},
        },
        Stmt::Block(b) => lemma_list_monotone(b@, iv, ds, cls, acc),
        Stmt::Branch(br) => {
            lemma_clock_monotone(*br.then_body, iv, ds, cls, acc);
            match br.else_body {
                Some(e) => lemma_clock_monotone(*e, iv, ds, cls, acc),
                None => {
                    assert(acc.subrange(0, acc.len() as int) =~= acc);
                },
            }
        },
    }
}

proof fn lemma_iters_monotone(l: LoopStmt, iv: Seq<i32>, i: int, hi: int, ds: nat, cls: nat, acc: Seq<Access>)
    ensures
        run_iters(l, iv, i, hi, ds, cls, acc) is Ok ==> {
            let s = run_iters(l, iv, i, hi, ds, cls, acc).unwrap();
            acc.len() <= s.len() && s.subrange(0, acc.len() as int) == acc
        },
    decreases l, hi - i,
{
    if i >= hi {
        assert(acc.subrange(0, acc.len() as int) =~= acc);
    } else {
        lemma_list_monotone(l.body@, iv.push(i as i32), ds, cls, acc);
        match run_list(l.body@, iv.push(i as i32), ds, cls, acc) {
            Ok(a) => {
                lemma_iters_monotone(l, iv, i + 1, hi, ds, cls, a);
                if run_iters(l, iv, i, hi, ds, cls, acc) is Ok {
                    let s = run_iters(l, iv, i, hi, ds, cls, acc).unwrap();
                    assert(s.subrange(0, acc.len() as int) =~= s.subrange(0, a.len() as int).subrange(0, acc.len() as int));
                }
            },
            Err(_) => {},
        }
    }
}

proof fn lemma_iters_down_monotone(l: LoopStmt, iv: Seq<i32>, i: int, lo: int, ds: nat, cls: nat, acc: Seq<Access>)
    ensures
        run_iters_down(l, iv, i, lo, ds, cls, acc) is Ok ==> {
            let s = run_iters_down(l, iv, i, lo, ds, cls, acc).unwrap();
            acc.len() <= s.len() && s.subrange(0, acc.len() as int) == acc
        },
    decreases l, i - lo,
{
    if i <= lo {
        assert(acc.subrange(0, acc.len() as int) =~= acc);
    } else {
        lemma_list_monotone(l.body@, iv.push(i as i32), ds, cls, acc);
        match run_list(l.body@, iv.push(i as i32), ds, cls, acc) {
            Ok(a) => {
                lemma_iters_down_monotone(l, iv, i - 1, lo, ds, cls, a);
                if run_iters_down(l, iv, i, lo, ds, cls, acc) is Ok {
                    let s = run_iters_down(l, iv, i, lo, ds, cls, acc).unwrap();
                    assert(s.subrange(0, acc.len() as int) =~= s.subrange(0, a.len() as int).subrange(0, acc.len() as int));
                }
            },
            Err(_) => {},
        }
    }
}

proof fn lemma_list_monotone(v: Seq<Node>, iv: Seq<i32>, ds: nat, cls: nat, acc: Seq<Access>)
    ensures
        run_list(v, iv, ds, cls, acc) is Ok ==> {
            let s = run_list(v, iv, ds, cls, acc).unwrap();
            acc.len() <= s.len() && s.subrange(0, acc.len() as int) == acc
        },
    decreases v, 0int,
{
    if v.len() == 0 {
        assert(acc.subrange(0, acc.len() as int) =~= acc);
    } else {
        lemma_clock_monotone(v[0], iv, ds, cls, acc);
        match run_node(v[0], iv, ds, cls, acc) {
            Ok(a) => {
                lemma_list_monotone(v.drop_first(), iv, ds, cls, a);
                if run_list(v, iv, ds, cls, acc) is Ok {
                    let s = run_list(v, iv, ds, cls, acc).unwrap();
                    assert(s.subrange(0, acc.len() as int) =~= s.subrange(0, a.len() as int).subrange(0, acc.len() as int));
                }
            },
            Err(_) => {},
        }
    }
}

/// Every access of `n` has an identifier.
pub open spec fn all_ids(n: NodeV) -> bool
    decreases n,
{
    match n {
        NodeV::Ref(r) => r.ref_id is Some,
        NodeV::Loop(l) => all_ids_list(l.body),
        NodeV::Block(b) => all_ids_list(b),
        NodeV::Branch(_, t, e) => all_ids(*t) && match e {
            Some(e) => all_ids(*e),
            None => true,
        },
    }
}

pub open spec fn all_ids_list(s: Seq<NodeV>) -> bool
    decreases s,
{
    s.len() == 0 || (all_ids(s[0]) && all_ids_list(s.drop_first()))
}

/// After numbering, every access has an identifier.
pub proof fn lemma_ids_complete(n: NodeV, c: nat)
    ensures
        all_ids(ids_node(n, c).0),
    decreases n,
{
    match n {
        NodeV::Ref(r) => {},
        NodeV::Loop(l) => lemma_ids_complete_list(l.body, c),
        NodeV::Block(b) => lemma_ids_complete_list(b, c),
        NodeV::Branch(_, t, e) => {
            lemma_ids_complete(*t, c);
            match e {
                Some(e) => lemma_ids_complete(*e, ids_node(*t, c).1),
                None => {},
            }
        },
    }
}

proof fn lemma_ids_complete_list(s: Seq<NodeV>, c: nat)
    ensures
        all_ids_list(ids_list(s, c).0),
    decreases s,
{
    if s.len() > 0 {
        lemma_ids_complete(s[0], c);
        let (h, c1) = ids_node(s[0], c);
        lemma_ids_complete_list(s.drop_first(), c1);
        let t = ids_list(s.drop_first(), c1).0;
        assert((seq![h] + t)[0] == h);
        assert((seq![h] + t).drop_first() =~= t);
    }
}

/// Numbering a tree whose accesses all have identifiers changes nothing,
/// and the counter does not move.
pub proof fn lemma_ids_fixed(n: NodeV, c: nat)
    requires
        all_ids(n),
    ensures
        ids_node(n, c) == (n, c),
    decreases n,
{
    match n {
        NodeV::Ref(r) => {},
        NodeV::Loop(l) => {
            lemma_ids_fixed_list(l.body, c);
            assert(LoopV { body: l.body, ..l } == l);
        },
        NodeV::Block(b) => lemma_ids_fixed_list(b, c),
        NodeV::Branch(_, t, e) => {
            lemma_ids_fixed(*t, c);
            match e {
                Some(e) => lemma_ids_fixed(*e, c),
                None => {},
            }
        },
    }
}

proof fn lemma_ids_fixed_list(s: Seq<NodeV>, c: nat)
    requires
        all_ids_list(s),
    ensures
        ids_list(s, c) == (s, c),
    decreases s,
{
    if s.len() > 0 {
        lemma_ids_fixed(s[0], c);
        lemma_ids_fixed_list(s.drop_first(), c);
        assert(seq![s[0]] + s.drop_first() =~= s);
    }
}

/// Reference numbering is idempotent: a second run keeps every identifier
/// of the first and assigns no new number.
pub proof fn lemma_ids_idempotent(n: NodeV)
    ensures
        ids_node(ids_node(n, 0).0, 0) == (ids_node(n, 0).0, 0nat),
{
    lemma_ids_complete(n, 0);
    lemma_ids_fixed(ids_node(n, 0).0, 0);
}

/// Like [`tracing_ri`], also returning, for an audit trail, the array name,
/// reference identifier and cache line of every access in execution order.
pub fn tracing_ri_logged(code: &mut Node, data_size: usize, cache_line_size: usize) -> (r: Result<
    (Hist, Vec<(String, Option<usize>, usize)>),
    TraceError,
>)
    requires
        cache_line_size > 0,
    ensures
        bases_node(old(code)@, initial_alloc()).1.cur is None ==> r == Err::<
            (Hist, Vec<(String, Option<usize>, usize)>),
            TraceError,
        >(TraceError::SpaceOverflow),
        bases_node(old(code)@, initial_alloc()).1.cur is Some ==> {
            &&& final(code)@ == ids_node(bases_node(old(code)@, initial_alloc()).0, 0).0
            &&& match run_node(*final(code), Seq::empty(), data_size as nat, cache_line_size as nat, Seq::empty()) {
                Ok(s) => r is Ok && r.unwrap().0.wf() && (forall|d: Option<nat>| #[trigger] r.unwrap().0.count(d) == hist_count(s, d))
                && total(r.unwrap().0.entries()) == s.len()
                    && log_matches(r.unwrap().1@, s),
                Err(e) => r == Err::<(Hist, Vec<(String, Option<usize>, usize)>), TraceError>(e),
            }
        },
{
    if set_arybase(code).is_none() {
        return Err(TraceError::SpaceOverflow);
    }
    assign_ref_id(code);
    run_trace_logged(code, data_size, cache_line_size)
}

} // verus!
