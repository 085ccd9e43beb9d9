//! Reuse-distance histogram.
use vstd::prelude::*;

verus! {

/// `a` comes before `b` in a histogram: distances ascending, the cold
/// bucket (`None`) last.
pub open spec fn before(a: Option<usize>, b: Option<usize>) -> bool {
    match (a, b) {
        (Some(x), Some(y)) => x < y,
        (Some(_), None) => true,
        _ => false,
    }
}

pub open spec fn key_of(d: Option<usize>) -> Option<nat> {
    match d {
        Some(x) => Some(x as nat),
        None => None,
    }
}

/// Sum of the counts of the buckets of `b` whose key is `k`.
pub open spec fn bcount(b: Seq<(Option<usize>, usize)>, k: Option<nat>) -> nat
    decreases b.len(),
{
    if b.len() == 0 {
        0
    } else {
        bcount(b.drop_last(), k) + if key_of(b.last().0) == k {
            b.last().1 as nat
        } else {
            0
        }
    }
}

/// Buckets strictly ordered by key, none of them empty.
pub open spec fn buckets_ok(b: Seq<(Option<usize>, usize)>) -> bool {
    &&& forall|i: int, j: int| 0 <= i < j < b.len() ==> before(#[trigger] b[i].0, #[trigger] b[j].0)
    &&& forall|i: int| 0 <= i < b.len() ==> #[trigger] b[i].1 > 0
}

proof fn lemma_bcount_concat(a: Seq<(Option<usize>, usize)>, c: Seq<(Option<usize>, usize)>, k: Option<nat>)
    ensures
        bcount(a + c, k) == bcount(a, k) + bcount(c, k),
    decreases c.len(),
{
    if c.len() == 0 {
        assert(a + c =~= a);
    } else {
        assert((a + c).drop_last() =~= a + c.drop_last());
        lemma_bcount_concat(a, c.drop_last(), k);
    }
}

proof fn lemma_bcount_single(x: (Option<usize>, usize), k: Option<nat>)
    ensures
        bcount(seq![x], k) == if key_of(x.0) == k { x.1 as nat } else { 0 },
{
    assert(seq![x].drop_last() =~= Seq::<(Option<usize>, usize)>::empty());
    assert(bcount(Seq::<(Option<usize>, usize)>::empty(), k) == 0);
}

/// With ordered keys, the count of a key is that of the bucket holding it.
proof fn lemma_bcount_at(b: Seq<(Option<usize>, usize)>, i: int)
    requires
        buckets_ok(b),
        0 <= i < b.len(),
    ensures
        bcount(b, key_of(b[i].0)) == b[i].1,
{
    lemma_bcount_absent(b.subrange(0, i), key_of(b[i].0));
    lemma_bcount_absent(b.subrange(i + 1, b.len() as int), key_of(b[i].0));
    lemma_split(b, i);
    lemma_bcount_single(b[i], key_of(b[i].0));
}

proof fn lemma_split(b: Seq<(Option<usize>, usize)>, i: int)
    requires
        0 <= i < b.len(),
    ensures
        forall|k: Option<nat>| bcount(b, k) == bcount(b.subrange(0, i), k) + bcount(seq![b[i]], k)
            + bcount(b.subrange(i + 1, b.len() as int), k),
{
    assert forall|k: Option<nat>| bcount(b, k) == bcount(b.subrange(0, i), k) + bcount(seq![b[i]], k)
        + bcount(b.subrange(i + 1, b.len() as int), k) by {
        assert(b =~= b.subrange(0, i) + seq![b[i]] + b.subrange(i + 1, b.len() as int));
        lemma_bcount_concat(b.subrange(0, i) + seq![b[i]], b.subrange(i + 1, b.len() as int), k);
        lemma_bcount_concat(b.subrange(0, i), seq![b[i]], k);
    }
}

proof fn lemma_total_concat(a: Seq<(Option<usize>, usize)>, c: Seq<(Option<usize>, usize)>)
    ensures
        total(a + c) == total(a) + total(c),
    decreases c.len(),
{
    if c.len() == 0 {
        assert(a + c =~= a);
    } else {
        assert((a + c).drop_last() =~= a + c.drop_last());
        lemma_total_concat(a, c.drop_last());
    }
}

proof fn lemma_total_split(b: Seq<(Option<usize>, usize)>, i: int)
    requires
        0 <= i < b.len(),
    ensures
        total(b) == total(b.subrange(0, i)) + b[i].1 + total(b.subrange(i + 1, b.len() as int)),
{
    assert(b =~= b.subrange(0, i) + seq![b[i]] + b.subrange(i + 1, b.len() as int));
    lemma_total_concat(b.subrange(0, i) + seq![b[i]], b.subrange(i + 1, b.len() as int));
    lemma_total_concat(b.subrange(0, i), seq![b[i]]);
    assert(seq![b[i]].drop_last() =~= Seq::<(Option<usize>, usize)>::empty());
    assert(total(Seq::<(Option<usize>, usize)>::empty()) == 0);
    assert(total(seq![b[i]]) == b[i].1);
}

proof fn lemma_bcount_absent(b: Seq<(Option<usize>, usize)>, k: Option<nat>)
    requires
        forall|j: int| 0 <= j < b.len() ==> key_of(#[trigger] b[j].0) != k,
    ensures
        bcount(b, k) == 0,
    decreases b.len(),
{
    if b.len() > 0 {
        lemma_bcount_absent(b.drop_last(), k);
    }
}

/// A histogram of reuse distances: for each distance (`None` for a cold
/// access) the number of accesses that had it.
#[derive(Debug)]
pub struct Hist {
    buckets: Vec<(Option<usize>, usize)>,
}

impl Hist {
    pub closed spec fn wf(self) -> bool {
        buckets_ok(self.buckets@)
    }

    /// The number of recorded accesses with distance `d`.
    pub closed spec fn count(self, d: Option<nat>) -> nat {
        bcount(self.buckets@, d)
    }

    /// The buckets, in order.
    pub closed spec fn entries(self) -> Seq<(Option<usize>, usize)> {
        self.buckets@
    }

    pub fn new() -> (r: Hist)
        ensures
            r.wf(),
            forall|d: Option<nat>| r.count(d) == 0,
            total(r.entries()) == 0,
    {
        Hist { buckets: Vec::new() }
    }

    /// Records one access with distance `d`.
    pub fn add_dist(&mut self, d: Option<usize>)
        requires
            old(self).wf(),
            old(self).count(key_of(d)) < usize::MAX,
        ensures
            final(self).wf(),
            forall|k: Option<nat>| #[trigger] final(self).count(k) == old(self).count(k) + if k == key_of(d) {
                1nat
            } else {
                0nat
            },
            total(final(self).entries()) == total(old(self).entries()) + 1,
    {
        let ghost b0 = self.buckets@;
        let mut i: usize = 0;
        while i < self.buckets.len() && precedes(self.buckets[i].0, d)
            invariant
                self.buckets@ == b0,
                buckets_ok(b0),
                i <= b0.len(),
                forall|j: int| 0 <= j < i ==> before(#[trigger] b0[j].0, d),
            decreases b0.len() - i,
        {
            i = i + 1;
        }
        proof {
            lemma_split_all(b0, i as int);
        }
        if i < self.buckets.len() && same_key(self.buckets[i].0, d) {
            let c = self.buckets[i].1;
            proof {
                lemma_bcount_at(b0, i as int);
            }
            self.buckets.set(i, (d, c + 1));
            proof {
                let b1 = self.buckets@;
                assert(b1.subrange(0, i as int) =~= b0.subrange(0, i as int));
                assert(b1.subrange(i + 1, b1.len() as int) =~= b0.subrange(i + 1, b0.len() as int));
                lemma_split(b1, i as int);
                lemma_split(b0, i as int);
                lemma_total_split(b1, i as int);
                lemma_total_split(b0, i as int);
                assert forall|k: Option<nat>| #[trigger] bcount(b1, k) == bcount(b0, k) + if k == key_of(d) {
                    1nat
                } else {
                    0nat
                } by {
                    lemma_bcount_single(b1[i as int], k);
                    lemma_bcount_single(b0[i as int], k);
                }
                assert forall|p: int, q: int| 0 <= p < q < b1.len() implies before(#[trigger] b1[p].0, #[trigger] b1[q].0) by {
                    assert(before(b0[p].0, b0[q].0));
                }
            }
        } else {
            self.buckets.insert(i, (d, 1));
            proof {
                let b1 = self.buckets@;
                assert(b1.subrange(0, i as int) =~= b0.subrange(0, i as int));
                assert(b1.subrange(i + 1, b1.len() as int) =~= b0.subrange(i as int, b0.len() as int));
                assert(b0 =~= b0.subrange(0, i as int) + b0.subrange(i as int, b0.len() as int));
                lemma_split(b1, i as int);
                lemma_total_split(b1, i as int);
                lemma_total_concat(b0.subrange(0, i as int), b0.subrange(i as int, b0.len() as int));
                assert forall|k: Option<nat>| #[trigger] bcount(b1, k) == bcount(b0, k) + if k == key_of(d) {
                    1nat
                } else {
                    0nat
                } by {
                    lemma_bcount_single(b1[i as int], k);
                    lemma_bcount_concat(b0.subrange(0, i as int), b0.subrange(i as int, b0.len() as int), k);
                }
                assert forall|p: int, q: int| 0 <= p < q < b1.len() implies before(#[trigger] b1[p].0, #[trigger] b1[q].0) by {
                    if q == i {
                        assert(before(b0[p].0, d));
                    } else if p == i {
                        assert(before(d, b0[q - 1].0) || d == b0[q - 1].0) by {
                            if i < b0.len() {
                                assert(!before(b0[i as int].0, d));
                                assert(b0[i as int].0 != d);
                                if q - 1 > i {
                                    assert(before(b0[i as int].0, b0[q - 1].0));
                                }
                            }
                        }
                        assert(b0[q - 1].0 != d);
                    } else if p < i && q > i {
                        assert(before(b0[p].0, b0[q - 1].0));
                    } else if p > i {
                        assert(before(b0[p - 1].0, b0[q - 1].0));
                    } else {
                        assert(before(b0[p].0, b0[q].0));
                    }
                }
            }
        }
    }

    /// The number of recorded accesses with distance `d`.
    pub fn get(&self, d: Option<usize>) -> (r: Option<usize>)
        requires
            self.wf(),
        ensures
            r is None <==> self.count(key_of(d)) == 0,
            r is Some ==> r.unwrap() as nat == self.count(key_of(d)),
    {
        let mut i: usize = 0;
        while i < self.buckets.len()
            invariant
                buckets_ok(self.buckets@),
                i <= self.buckets.len(),
                forall|j: int| 0 <= j < i ==> key_of(#[trigger] self.buckets@[j].0) != key_of(d),
            decreases self.buckets.len() - i,
        {
            if same_key(self.buckets[i].0, d) {
                proof {
                    lemma_bcount_at(self.buckets@, i as int);
                }
                return Some(self.buckets[i].1);
            }
            i = i + 1;
        }
        proof {
            lemma_bcount_absent(self.buckets@, key_of(d));
        }
        None
    }

    /// The buckets as `(distance, count)` pairs, ascending by distance with
    /// the cold bucket last.
    pub fn to_vec(&self) -> (r: Vec<(Option<usize>, usize)>)
        requires
            self.wf(),
        ensures
            r@ == self.entries(),
            buckets_ok(r@),
            forall|i: int| 0 <= i < r@.len() ==> #[trigger] r@[i].1 as nat == self.count(key_of(r@[i].0)),
            forall|d: Option<nat>| #[trigger] self.count(d) > 0 ==> exists|i: int|
                0 <= i < r@.len() && key_of(#[trigger] r@[i].0) == d,
    {
        let mut r: Vec<(Option<usize>, usize)> = Vec::new();
        let mut i: usize = 0;
        while i < self.buckets.len()
            invariant
                i <= self.buckets.len(),
                r@ == self.buckets@.subrange(0, i as int),
            decreases self.buckets.len() - i,
        {
            r.push(self.buckets[i]);
            i = i + 1;
        }
        proof {
            assert(r@ =~= self.buckets@);
            assert forall|i: int| 0 <= i < r@.len() implies #[trigger] r@[i].1 as nat == self.count(key_of(r@[i].0)) by {
                lemma_bcount_at(self.buckets@, i);
            }
            assert forall|d: Option<nat>| #[trigger] self.count(d) > 0 implies exists|i: int|
                0 <= i < r@.len() && key_of(#[trigger] r@[i].0) == d by {
                if !(exists|i: int| 0 <= i < r@.len() && key_of(#[trigger] r@[i].0) == d) {
                    lemma_bcount_absent(self.buckets@, d);
                }
            }
        }
        r
    }

    /// The number of distinct distance values (the cold bucket included).
    pub fn len(&self) -> (r: usize)
        ensures
            r == self.entries().len(),
    {
        self.buckets.len()
    }
}

fn precedes(a: Option<usize>, b: Option<usize>) -> (r: bool)
    ensures
        r == before(a, b),
{
    match (a, b) {
        (Some(x), Some(y)) => x < y,
        (Some(_), None) => true,
        _ => false,
    }
}

fn same_key(a: Option<usize>, b: Option<usize>) -> (r: bool)
    ensures
        r == (key_of(a) == key_of(b)),
{
    match (a, b) {
        (Some(x), Some(y)) => x == y,
        (None, None) => true,
        _ => false,
    }
}

proof fn lemma_split_all(b: Seq<(Option<usize>, usize)>, i: int)
    requires
        0 <= i <= b.len(),
    ensures
        b =~= b.subrange(0, i) + b.subrange(i, b.len() as int),
{
}

pub open spec fn digit_char(d: nat) -> char {
    if d == 0 {
        '0'
    } else if d == 1 {
        '1'
    } else if d == 2 {
        '2'
    } else if d == 3 {
        '3'
    } else if d == 4 {
        '4'
    } else if d == 5 {
        '5'
    } else if d == 6 {
        '6'
    } else if d == 7 {
        '7'
    } else if d == 8 {
        '8'
    } else {
        '9'
    }
}

/// The decimal digits of `n`, most significant first.
pub open spec fn dec_digits(n: nat) -> Seq<char>
    decreases n,
{
    if n < 10 {
        seq![digit_char(n)]
    } else {
        dec_digits(n / 10).push(digit_char(n % 10))
    }
}

/// Relies on `u128`'s `to_string` (its `Display`): the decimal digits, with
/// no sign or padding.
#[verifier::external_body]
fn decimal(n: u128) -> (r: String)
    ensures
        r@ == dec_digits(n as nat),
{
    n.to_string()
}

/// `Some(d)` or `None`, as `{:?}` writes an optional distance.
pub open spec fn opt_text(d: Option<usize>) -> Seq<char> {
    match d {
        Some(x) => "Some("@ + dec_digits(x as nat) + ")"@,
        None => "None"@,
    }
}

/// The smallest key when `None` counts as below every distance.
pub open spec fn min_key(b: Seq<(Option<usize>, usize)>) -> Option<usize> {
    if b.last().0 is None {
        None
    } else {
        b[0].0
    }
}

/// The greatest key when `None` counts as below every distance.
pub open spec fn max_key(b: Seq<(Option<usize>, usize)>) -> Option<usize> {
    if b.last().0 is Some {
        b.last().0
    } else if b.len() >= 2 {
        b[b.len() - 2].0
    } else {
        None
    }
}

pub open spec fn total(b: Seq<(Option<usize>, usize)>) -> nat
    decreases b.len(),
{
    if b.len() == 0 {
        0
    } else {
        total(b.drop_last()) + b.last().1 as nat
    }
}

/// One line per bucket, `value, count`, the cold bucket as `Cold`.
pub open spec fn lines(b: Seq<(Option<usize>, usize)>) -> Seq<char>
    decreases b.len(),
{
    if b.len() == 0 {
        Seq::empty()
    } else {
        lines(b.drop_last()) + match b.last().0 {
            Some(d) => dec_digits(d as nat),
            None => "Cold"@,
        } + ", "@ + dec_digits(b.last().1 as nat) + "\n"@
    }
}

/// The text of a histogram with buckets `b`.
pub open spec fn render(b: Seq<(Option<usize>, usize)>) -> Seq<char> {
    if b.len() == 0 {
        "Reuse distance histogram is empty\n"@
    } else {
        "Reuse distance histogram:\n\t"@ + dec_digits(b.len() as nat) + " distance value(s), min "@ + opt_text(
            min_key(b),
        ) + ", max "@ + opt_text(max_key(b)) + "\n\t"@ + dec_digits(total(b)) + " accesses\nvalue, count\n"@
            + lines(b)
    }
}

proof fn lemma_total_bound(b: Seq<(Option<usize>, usize)>)
    ensures
        total(b) <= b.len() * usize::MAX,
    decreases b.len(),
{
    if b.len() > 0 {
        lemma_total_bound(b.drop_last());
        assert(total(b) <= (b.len() - 1) * usize::MAX + usize::MAX);
        assert((b.len() - 1) * usize::MAX + usize::MAX == b.len() * usize::MAX) by (nonlinear_arith);
    }
}

fn opt_string(d: Option<usize>) -> (r: String)
    ensures
        r@ == opt_text(d),
{
    match d {
        Some(x) => {
            let mut t = String::from_str("Some(");
            t.append(decimal(x as u128).as_str());
            t.append(")");
            t
        },
        None => String::from_str("None"),
    }
}

impl Hist {
    /// A readable rendering: the number of distinct distances, the smallest
    /// and greatest (a cold bucket counting as the smallest), the number of
    /// accesses, then one `value, count` line per bucket in order, the cold
    /// bucket last as `Cold`.
    pub fn to_string(&self) -> (r: String)
        requires
            self.wf(),
        ensures
            r@ == render(self.entries()),
    {
        let n = self.buckets.len();
        if n == 0 {
            return String::from_str("Reuse distance histogram is empty\n");
        }
        let ghost b = self.buckets@;
        let min = if self.buckets[n - 1].0.is_none() {
            None
        } else {
            self.buckets[0].0
        };
        let max = if self.buckets[n - 1].0.is_some() {
            self.buckets[n - 1].0
        } else if n >= 2 {
            self.buckets[n - 2].0
        } else {
            None
        };
        let mut tot: u128 = 0;
        let mut body = String::new();
        let mut i: usize = 0;
        while i < n
            invariant
                n == b.len(),
                b == self.buckets@,
                i <= n,
                tot as nat == total(b.subrange(0, i as int)),
                body@ == lines(b.subrange(0, i as int)),
            decreases n - i,
        {
            let ghost p = b.subrange(0, i + 1);
            proof {
                assert(p.drop_last() =~= b.subrange(0, i as int));
                lemma_total_bound(p);
                assert(i + 1 <= usize::MAX);
                assert((i + 1) * usize::MAX <= usize::MAX * usize::MAX) by (nonlinear_arith)
                    requires
                        i + 1 <= usize::MAX,
                ;
            }
            let (d, c) = self.buckets[i];
            match d {
                Some(x) => body.append(decimal(x as u128).as_str()),
                None => body.append("Cold"),
            }
            body.append(", ");
            body.append(decimal(c as u128).as_str());
            body.append("\n");
            tot = tot + c as u128;
            i = i + 1;
        }
        proof {
            assert(b.subrange(0, n as int) =~= b);
        }
        let mut t = String::from_str("Reuse distance histogram:\n\t");
        t.append(decimal(n as u128).as_str());
        t.append(" distance value(s), min ");
        t.append(opt_string(min).as_str());
        t.append(", max ");
        t.append(opt_string(max).as_str());
        t.append("\n\t");
        t.append(decimal(tot).as_str());
        t.append(" accesses\nvalue, count\n");
        t.append(body.as_str());
        t
    }
}

} // verus!
