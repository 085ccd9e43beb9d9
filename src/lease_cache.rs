//! A lease cache: each object stays until its lease runs out, or until it
//! is evicted at random to make room.
use vstd::prelude::*;
use rand::Rng;

verus! {

/// The number of lease slots; leases wrap around modulo this.
pub const MAX_EXPIRING_VEC_SIZE: usize = 10000000;

/// What a cache needs of an object identifier: equality by view, and copies.
pub trait ObjIdTraits: View + Sized {
    fn same(&self, other: &Self) -> (r: bool)
        ensures
            r == (self@ == other@);

    fn duplicate(&self) -> (r: Self)
        ensures
            r@ == self@;
}

impl ObjIdTraits for usize {
    fn same(&self, other: &usize) -> (r: bool) {
        *self == *other
    }

    fn duplicate(&self) -> (r: usize) {
        *self
    }
}

impl ObjIdTraits for String {
    fn same(&self, other: &String) -> (r: bool) {
        self.eq(other)
    }

    fn duplicate(&self) -> (r: String) {
        self.clone()
    }
}

/// Relies on `rand::Rng::gen_range` over `thread_rng()`: a number in
/// `0..n`, which is not empty.
#[verifier::external_body]
fn random_below(n: usize) -> (r: usize)
    requires
        n > 0,
    ensures
        r < n,
{
    rand::thread_rng().gen_range(0..n)
}

/// The map from object to slot held by a list of distinct objects.
pub open spec fn content_view<V, O: View<V = V>>(s: Seq<(O, usize)>) -> Map<V, usize>
    decreases s.len(),
{
    if s.len() == 0 {
        Map::empty()
    } else {
        content_view(s.drop_last()).insert(s.last().0@, s.last().1)
    }
}

/// The (slot, object) pairs of a list.
pub open spec fn slots_view<V, O: View<V = V>>(s: Seq<(usize, O)>) -> Set<(usize, V)> {
    Set::new(|p: (usize, V)| exists|i: int| 0 <= i < s.len() && (#[trigger] s[i]).0 == p.0 && s[i].1@ == p.1)
}

proof fn lemma_content_absent<V, O: View<V = V>>(s: Seq<(O, usize)>, k: V)
    requires
        forall|i: int| 0 <= i < s.len() ==> (#[trigger] s[i]).0@ != k,
    ensures
        !content_view(s).contains_key(k),
    decreases s.len(),
{
    if s.len() > 0 {
        lemma_content_absent(s.drop_last(), k);
    }
}

proof fn lemma_content_at<V, O: View<V = V>>(s: Seq<(O, usize)>, i: int)
    requires
        0 <= i < s.len(),
        forall|a: int, b: int| 0 <= a < b < s.len() ==> (#[trigger] s[a]).0@ != (#[trigger] s[b]).0@,
    ensures
        content_view(s).contains_key(s[i].0@),
        content_view(s)[s[i].0@] == s[i].1,
    decreases s.len(),
{
    if i < s.len() - 1 {
        assert(s.drop_last()[i] == s[i]);
        lemma_content_at(s.drop_last(), i);
        assert(s[i].0@ != s.last().0@);
    }
}

proof fn lemma_content_dom<V, O: View<V = V>>(s: Seq<(O, usize)>, k: V)
    ensures
        content_view(s).contains_key(k) ==> exists|i: int| 0 <= i < s.len() && (#[trigger] s[i]).0@ == k,
    decreases s.len(),
{
    if s.len() > 0 {
        lemma_content_dom(s.drop_last(), k);
        if content_view(s.drop_last()).contains_key(k) {
            let i = choose|i: int| 0 <= i < s.len() - 1 && (#[trigger] s.drop_last()[i]).0@ == k;
            assert(s[i] == s.drop_last()[i]);
        }
    }
}

proof fn lemma_content_remove<V, O: View<V = V>>(s: Seq<(O, usize)>, i: int)
    requires
        0 <= i < s.len(),
        forall|a: int, b: int| 0 <= a < b < s.len() ==> (#[trigger] s[a]).0@ != (#[trigger] s[b]).0@,
    ensures
        content_view(s.remove(i)) == content_view(s).remove(s[i].0@),
{
    let t = s.remove(i);
    assert forall|k: V| #[trigger] content_view(t).contains_key(k) == content_view(s).remove(s[i].0@).contains_key(k) by {
        lemma_content_dom(t, k);
        lemma_content_dom(s, k);
        if content_view(t).contains_key(k) {
            let j = choose|j: int| 0 <= j < t.len() && (#[trigger] t[j]).0@ == k;
            if j < i {
                assert(t[j] == s[j]);
                lemma_content_at(s, j);
            } else {
                assert(t[j] == s[j + 1]);
                lemma_content_at(s, j + 1);
            }
        }
        if content_view(s).contains_key(k) && k != s[i].0@ {
            let j = choose|j: int| 0 <= j < s.len() && (#[trigger] s[j]).0@ == k;
            if j < i {
                assert(t[j] == s[j]);
                lemma_content_at_unique(t, j);
            } else if j > i {
                assert(t[j - 1] == s[j]);
                lemma_content_at_unique(t, j - 1);
            }
        }
    }
    assert forall|k: V| #[trigger] content_view(t).contains_key(k) implies content_view(t)[k] == content_view(s)[k] by {
        lemma_content_dom(t, k);
        let j = choose|j: int| 0 <= j < t.len() && (#[trigger] t[j]).0@ == k;
        lemma_content_at_unique(t, j);
        if j < i {
            assert(t[j] == s[j]);
            lemma_content_at(s, j);
        } else {
            assert(t[j] == s[j + 1]);
            lemma_content_at(s, j + 1);
        }
    }
    assert(content_view(t) =~= content_view(s).remove(s[i].0@));
}

/// `lemma_content_at` for a list whose distinct keys follow from another's.
proof fn lemma_content_at_unique<V, O: View<V = V>>(t: Seq<(O, usize)>, j: int)
    requires
        0 <= j < t.len(),
        forall|a: int, b: int| 0 <= a < b < t.len() ==> (#[trigger] t[a]).0@ != (#[trigger] t[b]).0@,
    ensures
        content_view(t).contains_key(t[j].0@),
        content_view(t)[t[j].0@] == t[j].1,
{
    lemma_content_at(t, j);
}

/// A cache of objects with leases counted in slots of a circular schedule.
pub struct LeaseCache<ObjId> {
    /// The objects whose lease ends at each slot, as (slot, object) pairs.
    expiring: Vec<(usize, ObjId)>,
    curr_expiring_index: usize,
    /// The slot at which each cached object's lease ends.
    content: Vec<(ObjId, usize)>,
}

impl<ObjId: ObjIdTraits> LeaseCache<ObjId> {
    /// The cached objects, each with the slot where its lease ends.
    pub closed spec fn content_map(self) -> Map<ObjId::V, usize> {
        content_view(self.content@)
    }

    /// The (slot, object) pairs of the schedule.
    pub closed spec fn slots(self) -> Set<(usize, ObjId::V)> {
        slots_view(self.expiring@)
    }

    /// The current slot.
    pub closed spec fn current(self) -> usize {
        self.curr_expiring_index
    }

    pub closed spec fn wf(self) -> bool {
        &&& self.curr_expiring_index < MAX_EXPIRING_VEC_SIZE
        &&& forall|a: int, b: int|
            0 <= a < b < self.content@.len() ==> (#[trigger] self.content@[a]).0@ != (#[trigger] self.content@[b]).0@
        &&& pairs_unique(self.expiring@)
        &&& forall|i: int| 0 <= i < self.content@.len() ==> #[trigger] self.content@[i].1 < MAX_EXPIRING_VEC_SIZE
        &&& forall|i: int|
            0 <= i < self.content@.len() ==> self.slots().contains(
                ((#[trigger] self.content@[i]).1, self.content@[i].0@),
            )
    }

    /// `wf`, except that the object `o` may be missing from the schedule.
    closed spec fn wf_except(self, o: ObjId::V) -> bool {
        &&& self.curr_expiring_index < MAX_EXPIRING_VEC_SIZE
        &&& forall|a: int, b: int|
            0 <= a < b < self.content@.len() ==> (#[trigger] self.content@[a]).0@ != (#[trigger] self.content@[b]).0@
        &&& pairs_unique(self.expiring@)
        &&& forall|i: int| 0 <= i < self.content@.len() ==> #[trigger] self.content@[i].1 < MAX_EXPIRING_VEC_SIZE
        &&& forall|i: int|
            0 <= i < self.content@.len() && (#[trigger] self.content@[i]).0@ != o ==> self.slots().contains(
                (self.content@[i].1, self.content@[i].0@),
            )
    }

    /// An empty cache at slot 0.
    pub fn new() -> (r: Self)
        ensures
            r.wf(),
            r.content_map() == Map::<ObjId::V, usize>::empty(),
            r.slots() == Set::<(usize, ObjId::V)>::empty(),
            r.current() == 0,
    {
        let r = LeaseCache { expiring: Vec::new(), curr_expiring_index: 0, content: Vec::new() };
        assert(r.slots() =~= Set::<(usize, ObjId::V)>::empty());
        r
    }

    /// The number of slots of the schedule.
    pub fn expiring_len(&self) -> (r: usize)
        ensures
            r == MAX_EXPIRING_VEC_SIZE,
    {
        MAX_EXPIRING_VEC_SIZE
    }

    /// The current slot.
    pub fn curr_expiring_index(&self) -> (r: usize)
        requires
            self.wf(),
        ensures
            r == self.current(),
            r < MAX_EXPIRING_VEC_SIZE,
    {
        self.curr_expiring_index
    }

    /// In a valid cache the current slot is on the schedule.
    pub proof fn lemma_current_below(&self)
        requires
            self.wf(),
        ensures
            self.current() < MAX_EXPIRING_VEC_SIZE,
    {
    }

    /// The number of cached objects.
    pub fn len(&self) -> (r: usize)
        requires
            self.wf(),
        ensures
            r == self.content_map().len(),
    {
        proof {
            self.lemma_len();
        }
        self.content.len()
    }

    proof fn lemma_len(&self)
        requires
            self.wf(),
        ensures
            self.content_map().len() == self.content@.len(),
            self.content_map().dom().finite(),
    {
        lemma_content_len(self.content@);
    }

    /// Position of `obj` in the content list.
    fn find(&self, obj: &ObjId) -> (r: Option<usize>)
        requires
            self.wf(),
        ensures
            r is Some <==> self.content_map().contains_key(obj@),
            r is Some ==> r.unwrap() < self.content@.len() && self.content@[r.unwrap() as int].0@ == obj@
                && self.content_map()[obj@] == self.content@[r.unwrap() as int].1,
    {
        let mut i: usize = 0;
        while i < self.content.len()
            invariant
                self.wf(),
                i <= self.content@.len(),
                forall|j: int| 0 <= j < i ==> (#[trigger] self.content@[j]).0@ != obj@,
            decreases self.content@.len() - i,
        {
            if self.content[i].0.same(obj) {
                proof {
                    lemma_content_at(self.content@, i as int);
                }
                return Some(i);
            }
            i = i + 1;
        }
        proof {
            lemma_content_absent(self.content@, obj@);
        }
        None
    }

    /// Position of the pair (`slot`, `obj`) in the schedule.
    fn find_slot(&self, slot: usize, obj: &ObjId) -> (r: Option<usize>)
        ensures
            r is Some <==> self.slots().contains((slot, obj@)),
            r is Some ==> r.unwrap() < self.expiring@.len() && self.expiring@[r.unwrap() as int].0 == slot
                && self.expiring@[r.unwrap() as int].1@ == obj@,
    {
        let mut i: usize = 0;
        while i < self.expiring.len()
            invariant
                i <= self.expiring@.len(),
                forall|j: int| 0 <= j < i ==> !((#[trigger] self.expiring@[j]).0 == slot && self.expiring@[j].1@ == obj@),
            decreases self.expiring@.len() - i,
        {
            if self.expiring[i].0 == slot && self.expiring[i].1.same(obj) {
                return Some(i);
            }
            i = i + 1;
        }
        None
    }

    /// Whether `obj` is cached.
    pub fn contains(&self, obj_id: &ObjId) -> (r: bool)
        requires
            self.wf(),
        ensures
            r == self.content_map().contains_key(obj_id@),
    {
        self.find(obj_id).is_some()
    }

    /// The slot at which the lease of `obj_id` ends, if it is cached.
    pub fn slot_of(&self, obj_id: &ObjId) -> (r: Option<usize>)
        requires
            self.wf(),
        ensures
            r is Some <==> self.content_map().contains_key(obj_id@),
            r is Some ==> r.unwrap() == self.content_map()[obj_id@],
    {
        match self.find(obj_id) {
            Some(i) => Some(self.content[i].1),
            None => None,
        }
    }

    /// Whether `obj_id` is scheduled to expire at `slot`.
    pub fn slot_contains(&self, slot: usize, obj_id: &ObjId) -> (r: bool)
        ensures
            r == self.slots().contains((slot, obj_id@)),
    {
        self.find_slot(slot, obj_id).is_some()
    }
}

/// No (slot, object) pair occurs twice.
pub open spec fn pairs_unique<V, O: View<V = V>>(e: Seq<(usize, O)>) -> bool {
    forall|a: int, b: int| 0 <= a < b < e.len() ==> ((#[trigger] e[a]).0 != (#[trigger] e[b]).0 || e[a].1@ != e[b].1@)
}

/// Some object of `out` has the view `o`.
pub open spec fn listed<V, O: View<V = V>>(out: Seq<O>, o: V) -> bool {
    exists|k: int| 0 <= k < out.len() && (#[trigger] out[k])@ == o
}

/// One of the first `i` pairs of `e` schedules `o` at slot `curr`.
pub open spec fn due_before<V, O: View<V = V>>(e: Seq<(usize, O)>, i: int, curr: usize, o: V) -> bool {
    exists|j: int| 0 <= j < i && (#[trigger] e[j]).0 == curr && e[j].1@ == o
}

/// The slot `lease` slots after `curr`, on the circular schedule.
pub open spec fn slot_after(curr: usize, lease: usize) -> usize {
    ((curr + lease) % (MAX_EXPIRING_VEC_SIZE as int)) as usize
}

proof fn lemma_content_len<V, O: View<V = V>>(s: Seq<(O, usize)>)
    requires
        forall|a: int, b: int| 0 <= a < b < s.len() ==> (#[trigger] s[a]).0@ != (#[trigger] s[b]).0@,
    ensures
        content_view(s).len() == s.len(),
        content_view(s).dom().finite(),
    decreases s.len(),
{
    if s.len() > 0 {
        let t = s.drop_last();
        assert forall|a: int, b: int| 0 <= a < b < t.len() implies (#[trigger] t[a]).0@ != (#[trigger] t[b]).0@ by {
            assert(t[a] == s[a] && t[b] == s[b]);
        }
        lemma_content_len(t);
        assert forall|i: int| 0 <= i < t.len() implies (#[trigger] t[i]).0@ != s.last().0@ by {
            assert(t[i] == s[i]);
        }
        lemma_content_absent(t, s.last().0@);
    }
}

impl<ObjId: ObjIdTraits> LeaseCache<ObjId> {
    /// Adds the pair (`slot`, `obj`) to the schedule.
    fn add_slot(&mut self, slot: usize, obj: &ObjId)
        requires
            pairs_unique(old(self).expiring@),
        ensures
            pairs_unique(final(self).expiring@),
            final(self).slots() == old(self).slots().insert((slot, obj@)),
            final(self).content@ == old(self).content@,
            final(self).curr_expiring_index == old(self).curr_expiring_index,
    {
        if self.find_slot(slot, obj).is_some() {
            proof {
                assert(self.slots() =~= old(self).slots().insert((slot, obj@)));
            }
            return;
        }
        let ghost e0 = self.expiring@;
        self.expiring.push((slot, obj.duplicate()));
        proof {
            let e1 = self.expiring@;
            assert forall|p: (usize, ObjId::V)| #[trigger] slots_view(e1).contains(p) == old(self).slots().insert((slot, obj@)).contains(p) by {
                if slots_view(e1).contains(p) {
                    let i = choose|i: int| 0 <= i < e1.len() && (#[trigger] e1[i]).0 == p.0 && e1[i].1@ == p.1;
                    if i < e0.len() {
                        assert(e1[i] == e0[i]);
                    }
                }
                if old(self).slots().contains(p) {
                    let i = choose|i: int| 0 <= i < e0.len() && (#[trigger] e0[i]).0 == p.0 && e0[i].1@ == p.1;
                    assert(e1[i] == e0[i]);
                }
                if p == (slot, obj@) {
                    assert(e1[e0.len() as int].0 == p.0);
                }
            }
            assert(self.slots() =~= old(self).slots().insert((slot, obj@)));
            assert forall|a: int, b: int|
                0 <= a < b < e1.len() implies ((#[trigger] e1[a]).0 != (#[trigger] e1[b]).0 || e1[a].1@ != e1[b].1@) by {
                assert(!slots_view(e0).contains((slot, obj@)));
                if b == e0.len() {
                    assert(e1[a] == e0[a]);
                } else {
                    assert(e1[a] == e0[a] && e1[b] == e0[b]);
                }
            }
        }
    }

    /// Removes the pair (`slot`, `obj`) from the schedule, where it is.
    fn drop_slot(&mut self, slot: usize, obj: &ObjId)
        requires
            pairs_unique(old(self).expiring@),
        ensures
            pairs_unique(final(self).expiring@),
            final(self).slots() == old(self).slots().remove((slot, obj@)),
            final(self).content@ == old(self).content@,
            final(self).curr_expiring_index == old(self).curr_expiring_index,
    {
        match self.find_slot(slot, obj) {
            None => {
                proof {
                    assert(self.slots() =~= old(self).slots().remove((slot, obj@)));
                }
            },
            Some(i) => {
                let ghost e0 = self.expiring@;
                self.expiring.remove(i);
                proof {
                    let e1 = self.expiring@;
                    assert forall|p: (usize, ObjId::V)| #[trigger] slots_view(e1).contains(p) == old(self).slots().remove((slot, obj@)).contains(p) by {
                        if slots_view(e1).contains(p) {
                            let j = choose|j: int| 0 <= j < e1.len() && (#[trigger] e1[j]).0 == p.0 && e1[j].1@ == p.1;
                            let k = if j < i { j } else { j + 1 };
                            assert(e1[j] == e0[k]);
                            if p == (slot, obj@) {
                                if k < i {
                                    assert(e0[k].0 != e0[i as int].0 || e0[k].1@ != e0[i as int].1@);
                                } else {
                                    assert(e0[i as int].0 != e0[k].0 || e0[i as int].1@ != e0[k].1@);
                                }
                            }
                        }
                        if old(self).slots().remove((slot, obj@)).contains(p) {
                            let k = choose|k: int| 0 <= k < e0.len() && (#[trigger] e0[k]).0 == p.0 && e0[k].1@ == p.1;
                            assert(k != i);
                            if k < i {
                                assert(e1[k] == e0[k]);
                            } else {
                                assert(e1[k - 1] == e0[k]);
                            }
                        }
                    }
                    assert(self.slots() =~= old(self).slots().remove((slot, obj@)));
                    assert forall|a: int, b: int| 0 <= a < b < e1.len() implies ((#[trigger] e1[a]).0 != (#[trigger] e1[b]).0
                        || e1[a].1@ != e1[b].1@) by {
                        let a0 = if a < i { a } else { a + 1 };
                        let b0 = if b < i { b } else { b + 1 };
                        assert(e1[a] == e0[a0] && e1[b] == e0[b0]);
                    }
                }
            },
        }
    }
}

impl<ObjId: ObjIdTraits> LeaseCache<ObjId> {
    /// Maps `obj` to `slot` in the content list.
    fn set_content(&mut self, obj: &ObjId, slot: usize)
        requires
            forall|a: int, b: int|
                0 <= a < b < old(self).content@.len() ==> (#[trigger] old(self).content@[a]).0@ != (
                #[trigger] old(self).content@[b]).0@,
        ensures
            forall|a: int, b: int|
                0 <= a < b < final(self).content@.len() ==> (#[trigger] final(self).content@[a]).0@ != (
                #[trigger] final(self).content@[b]).0@,
            final(self).content_map() == old(self).content_map().insert(obj@, slot),
            final(self).expiring@ == old(self).expiring@,
            final(self).curr_expiring_index == old(self).curr_expiring_index,
            forall|i: int| 0 <= i < final(self).content@.len() ==> {
                ||| (#[trigger] final(self).content@[i]).0@ == obj@ && final(self).content@[i].1 == slot
                ||| exists|j: int| 0 <= j < old(self).content@.len() && old(self).content@[j] == final(self).content@[i]
                    && old(self).content@[j].0@ != obj@
            },
    {
        let mut i: usize = 0;
        let mut at: Option<usize> = None;
        while i < self.content.len()
            invariant
                i <= self.content@.len(),
                self.content@ == old(self).content@,
                self.expiring@ == old(self).expiring@,
                self.curr_expiring_index == old(self).curr_expiring_index,
                at is None ==> forall|j: int| 0 <= j < i ==> (#[trigger] self.content@[j]).0@ != obj@,
                at is Some ==> at.unwrap() < self.content@.len() && self.content@[at.unwrap() as int].0@ == obj@,
            decreases self.content@.len() - i,
        {
            if at.is_none() && self.content[i].0.same(obj) {
                at = Some(i);
            }
            i = i + 1;
        }
        let ghost c0 = self.content@;
        match at {
            Some(k) => {
                self.content.remove(k);
                proof {
                    lemma_content_remove(c0, k as int);
                    let c1 = self.content@;
                    assert forall|a: int| 0 <= a < c1.len() implies (#[trigger] c1[a]).0@ != obj@ && exists|j: int|
                        0 <= j < c0.len() && c0[j] == c1[a] && c0[j].0@ != obj@ by {
                        let a0 = if a < k { a } else { a + 1 };
                        assert(c1[a] == c0[a0]);
                        if a0 < k {
                            assert(c0[a0].0@ != c0[k as int].0@);
                        } else {
                            assert(c0[k as int].0@ != c0[a0].0@);
                        }
                    }
                }
            },
            None => {
                proof {
                    lemma_content_absent(c0, obj@);
                    assert(content_view(c0).remove(obj@) =~= content_view(c0));
                    assert forall|a: int| 0 <= a < c0.len() implies (#[trigger] c0[a]).0@ != obj@ && exists|j: int|
                        0 <= j < c0.len() && c0[j] == c0[a] && c0[j].0@ != obj@ by {}
                }
            },
        }
        let ghost c1 = self.content@;
        self.content.push((obj.duplicate(), slot));
        proof {
            let c2 = self.content@;
            assert(c2.drop_last() =~= c1);
            assert(content_view(c1) == content_view(c0).remove(obj@));
            assert(content_view(c2) =~= content_view(c0).insert(obj@, slot));
            assert forall|a: int, b: int| 0 <= a < b < c2.len() implies (#[trigger] c2[a]).0@ != (#[trigger] c2[b]).0@ by {
                if b == c1.len() {
                    assert(c2[a] == c1[a]);
                } else {
                    assert(c2[a] == c1[a] && c2[b] == c1[b]);
                    let ja = choose|j: int| 0 <= j < c0.len() && c0[j] == c1[a] && c0[j].0@ != obj@;
                    let jb = choose|j: int| 0 <= j < c0.len() && c0[j] == c1[b] && c0[j].0@ != obj@;
                    if c1[a].0@ == c1[b].0@ {
                        if ja == jb {
                            assert(c1[a] == c1[b]);
                            assert(at is Some);
                            let k = at.unwrap() as int;
                            let a0 = if a < k { a } else { a + 1 };
                            let b0 = if b < k { b } else { b + 1 };
                            assert(c1[a] == c0[a0] && c1[b] == c0[b0]);
                            assert(c0[a0].0@ != c0[b0].0@);
                        } else if ja < jb {
                            assert(c0[ja].0@ != c0[jb].0@);
                        } else {
                            assert(c0[jb].0@ != c0[ja].0@);
                        }
                    }
                }
            }
            assert forall|i: int| 0 <= i < c2.len() implies {
                ||| (#[trigger] c2[i]).0@ == obj@ && c2[i].1 == slot
                ||| exists|j: int| 0 <= j < c0.len() && c0[j] == c2[i] && c0[j].0@ != obj@
            } by {
                if i < c1.len() {
                    assert(c2[i] == c1[i]);
                }
            }
        }
    }
}

impl<ObjId: ObjIdTraits> LeaseCache<ObjId> {
    /// Schedules `obj` at `slot` and maps it there.
    fn place(&mut self, obj: &ObjId, slot: usize)
        requires
            old(self).wf_except(obj@),
            slot < MAX_EXPIRING_VEC_SIZE,
        ensures
            final(self).wf(),
            final(self).content_map() == old(self).content_map().insert(obj@, slot),
            final(self).slots() == old(self).slots().insert((slot, obj@)),
            final(self).current() == old(self).current(),
    {
        let ghost c0 = self.content@;
        self.add_slot(slot, obj);
        self.set_content(obj, slot);
        proof {
            assert forall|i: int| 0 <= i < self.content@.len() implies self.slots().contains(
                ((#[trigger] self.content@[i]).1, self.content@[i].0@),
            ) && self.content@[i].1 < MAX_EXPIRING_VEC_SIZE by {
                if !(self.content@[i].0@ == obj@ && self.content@[i].1 == slot) {
                    let j = choose|j: int| 0 <= j < c0.len() && c0[j] == self.content@[i] && c0[j].0@ != obj@;
                    assert(old(self).slots().contains((c0[j].1, c0[j].0@)));
                }
            }
        }
    }

    /// Caches `obj_id` with a lease of `lease` slots from the current one.
    pub fn insert(&mut self, obj_id: ObjId, lease: usize)
        requires
            old(self).wf(),
        ensures
            final(self).wf(),
            final(self).content_map() == old(self).content_map().insert(
                obj_id@,
                slot_after(old(self).current(), lease),
            ),
            final(self).slots() == old(self).slots().insert((slot_after(old(self).current(), lease), obj_id@)),
            final(self).current() == old(self).current(),
    {
        let slot = (self.curr_expiring_index + lease % MAX_EXPIRING_VEC_SIZE) % MAX_EXPIRING_VEC_SIZE;
        proof {
            vstd::arithmetic::div_mod::lemma_add_mod_noop(
                self.curr_expiring_index as int,
                lease as int,
                MAX_EXPIRING_VEC_SIZE as int,
            );
            vstd::arithmetic::div_mod::lemma_small_mod(self.curr_expiring_index as nat, MAX_EXPIRING_VEC_SIZE as nat);
        }
        self.place(&obj_id, slot);
    }

    /// Gives `obj_id` a new lease of `lease` slots from the current one,
    /// dropping its previous one.
    pub fn update(&mut self, obj_id: &ObjId, lease: usize)
        requires
            old(self).wf(),
        ensures
            final(self).wf(),
            final(self).content_map() == old(self).content_map().insert(
                obj_id@,
                slot_after(old(self).current(), lease),
            ),
            final(self).slots() == (if old(self).content_map().contains_key(obj_id@) {
                old(self).slots().remove((old(self).content_map()[obj_id@], obj_id@))
            } else {
                old(self).slots()
            }).insert((slot_after(old(self).current(), lease), obj_id@)),
            final(self).current() == old(self).current(),
    {
        let slot = (self.curr_expiring_index + lease % MAX_EXPIRING_VEC_SIZE) % MAX_EXPIRING_VEC_SIZE;
        proof {
            vstd::arithmetic::div_mod::lemma_add_mod_noop(
                self.curr_expiring_index as int,
                lease as int,
                MAX_EXPIRING_VEC_SIZE as int,
            );
            vstd::arithmetic::div_mod::lemma_small_mod(self.curr_expiring_index as nat, MAX_EXPIRING_VEC_SIZE as nat);
        }
        match self.find(obj_id) {
            None => {
                self.place(obj_id, slot);
            },
            Some(i) => {
                let old_slot = self.content[i].1;
                self.drop_slot(old_slot, obj_id);
                proof {
                    assert forall|k: int|
                        0 <= k < self.content@.len() && (#[trigger] self.content@[k]).0@ != obj_id@ implies self.slots().contains(
                        (self.content@[k].1, self.content@[k].0@),
                    ) by {
                        assert(old(self).slots().contains((self.content@[k].1, self.content@[k].0@)));
                    }
                }
                self.place(obj_id, slot);
            },
        }
    }

    /// Slots left until the lease of `obj_id` ends, counting round the
    /// schedule when its slot is not ahead of the current one.
    pub fn get_time_till_eviction(&self, obj_id: &ObjId) -> (r: usize)
        requires
            self.wf(),
            self.content_map().contains_key(obj_id@),
        ensures
            r == if self.content_map()[obj_id@] > self.current() {
                self.content_map()[obj_id@] - self.current()
            } else {
                MAX_EXPIRING_VEC_SIZE - self.current() + self.content_map()[obj_id@]
            },
    {
        let i = match self.find(obj_id) {
            Some(i) => i,
            None => {
                return 0;
            },
        };
        let index = self.content[i].1;
        let curr_index = self.curr_expiring_index;
        if index > curr_index {
            return index - curr_index;
        }
        MAX_EXPIRING_VEC_SIZE - curr_index + index
    }

    /// Drops `obj_id` from the cache and from the schedule.
    pub fn remove_from_cache(&mut self, obj_id: &ObjId)
        requires
            old(self).wf(),
            old(self).content_map().contains_key(obj_id@),
        ensures
            final(self).wf(),
            final(self).content_map() == old(self).content_map().remove(obj_id@),
            final(self).slots() == old(self).slots().remove((old(self).content_map()[obj_id@], obj_id@)),
            final(self).current() == old(self).current(),
    {
        let i = match self.find(obj_id) {
            Some(i) => i,
            None => {
                return;
            },
        };
        let index = self.content[i].1;
        self.drop_slot(index, obj_id);
        self.drop_content(i);
    }

    /// Removes the content entry at `i`, whose pair is no longer scheduled.
    fn drop_content(&mut self, i: usize)
        requires
            old(self).wf_except(old(self).content@[i as int].0@),
            i < old(self).content@.len(),
        ensures
            final(self).wf(),
            final(self).content_map() == old(self).content_map().remove(old(self).content@[i as int].0@),
            final(self).slots() == old(self).slots(),
            final(self).current() == old(self).current(),
    {
        let ghost c0 = self.content@;
        self.content.remove(i);
        proof {
            lemma_content_remove(c0, i as int);
            let c1 = self.content@;
            assert forall|a: int| 0 <= a < c1.len() implies c1[a] == c0[if a < i { a } else { a + 1 }] && c0[if a < i { a } else { a + 1 }].0@ != c0[i as int].0@ by {
                let a0 = if a < i { a } else { a + 1 };
                if a0 < i {
                    assert(c0[a0].0@ != c0[i as int].0@);
                } else {
                    assert(c0[i as int].0@ != c0[a0].0@);
                }
            }
            assert forall|a: int, b: int| 0 <= a < b < c1.len() implies (#[trigger] c1[a]).0@ != (#[trigger] c1[b]).0@ by {
                let a0 = if a < i { a } else { a + 1 };
                let b0 = if b < i { b } else { b + 1 };
                assert(c0[a0].0@ != c0[b0].0@);
            }
            assert forall|a: int| 0 <= a < c1.len() implies self.slots().contains(((#[trigger] c1[a]).1, c1[a].0@))
                && c1[a].1 < MAX_EXPIRING_VEC_SIZE by {
                let a0 = if a < i { a } else { a + 1 };
                assert(c1[a] == c0[a0]);
            }
        }
    }

    /// The objects whose lease ends at the current slot; then moves on to
    /// the next slot.
    pub fn dump_expiring(&mut self) -> (r: Vec<ObjId>)
        requires
            old(self).wf(),
        ensures
            final(self).wf(),
            forall|o: ObjId::V| #[trigger] listed(r@, o) <==> old(self).slots().contains((old(self).current(), o)),
            final(self).content_map() == old(self).content_map(),
            final(self).slots() == old(self).slots(),
            final(self).current() == (old(self).current() + 1) % (MAX_EXPIRING_VEC_SIZE as int),
    {
        let curr = self.curr_expiring_index;
        let mut out: Vec<ObjId> = Vec::new();
        let mut i: usize = 0;
        while i < self.expiring.len()
            invariant
                i <= self.expiring@.len(),
                forall|o: ObjId::V| #[trigger] listed(out@, o) <==> due_before(self.expiring@, i as int, curr, o),
            decreases self.expiring@.len() - i,
        {
            let ghost o0 = out@;
            assert(forall|o: ObjId::V| #[trigger] listed(o0, o) <==> due_before(self.expiring@, i as int, curr, o));
            if self.expiring[i].0 == curr {
                out.push(self.expiring[i].1.duplicate());
            }
            proof {
                assert forall|o: ObjId::V| #[trigger] listed(out@, o) <==> due_before(self.expiring@, i + 1, curr, o) by {
                    if listed(out@, o) {
                        let k = choose|k: int| 0 <= k < out@.len() && (#[trigger] out@[k])@ == o;
                        if k < o0.len() {
                            assert(out@[k] == o0[k]);
                            assert(listed(o0, o));
                            let j = choose|j: int| 0 <= j < i && (#[trigger] self.expiring@[j]).0 == curr && self.expiring@[j].1@ == o;
                        } else {
                            assert(self.expiring@[i as int].1@ == o);
                        }
                    }
                    if due_before(self.expiring@, i + 1, curr, o) {
                        let j = choose|j: int| 0 <= j < i + 1 && (#[trigger] self.expiring@[j]).0 == curr && self.expiring@[j].1@ == o;
                        if j < i {
                            assert(due_before(self.expiring@, i as int, curr, o));
                            assert(listed(o0, o));
                            let k = choose|k: int| 0 <= k < o0.len() && (#[trigger] o0[k])@ == o;
                            assert(out@[k] == o0[k]);
                        } else {
                            assert(out@[o0.len() as int]@ == o);
                        }
                    }
                }
            }
            i = i + 1;
        }
        proof {
            assert forall|o: ObjId::V| #[trigger] listed(out@, o) <==> old(self).slots().contains((curr, o)) by {
                if old(self).slots().contains((curr, o)) {
                    let j = choose|j: int| 0 <= j < self.expiring@.len() && (#[trigger] self.expiring@[j]).0 == curr && self.expiring@[j].1@ == o;
                    assert(due_before(self.expiring@, i as int, curr, o));
                }
            }
        }
        self.curr_expiring_index = (curr + 1) % MAX_EXPIRING_VEC_SIZE;
        out
    }

    /// Evicts a cached object chosen at random, and returns it.
    pub fn force_evict(&mut self) -> (r: ObjId)
        requires
            old(self).wf(),
            old(self).content_map().len() > 0,
        ensures
            final(self).wf(),
            old(self).content_map().contains_key(r@),
            final(self).content_map() == old(self).content_map().remove(r@),
            final(self).slots() == old(self).slots().remove((old(self).content_map()[r@], r@)),
            final(self).current() == old(self).current(),
    {
        proof {
            self.lemma_len();
        }
        let i = random_below(self.content.len());
        let obj = self.content[i].0.duplicate();
        let index = self.content[i].1;
        proof {
            lemma_content_at(self.content@, i as int);
        }
        self.drop_slot(index, &obj);
        self.drop_content(i);
        obj
    }
}

/// A lease of `lease` slots, with `0 < lease < MAX_EXPIRING_VEC_SIZE`,
/// taken at the current slot, has exactly `lease` slots left until eviction
/// by the rule of `get_time_till_eviction`.
pub proof fn lemma_time_till_eviction(curr: usize, lease: usize)
    requires
        curr < MAX_EXPIRING_VEC_SIZE,
        0 < lease < MAX_EXPIRING_VEC_SIZE,
    ensures
        (if slot_after(curr, lease) > curr {
            slot_after(curr, lease) - curr
        } else {
            MAX_EXPIRING_VEC_SIZE - curr + slot_after(curr, lease)
        }) == lease,
{
    let m = MAX_EXPIRING_VEC_SIZE as int;
    let t = curr as int + lease as int;
    if t < m {
        vstd::arithmetic::div_mod::lemma_small_mod(t as nat, m as nat);
    } else {
        vstd::arithmetic::div_mod::lemma_small_mod((t - m) as nat, m as nat);
        vstd::arithmetic::div_mod::lemma_mod_sub_multiples_vanish(t, m);
    }
}

} // verus!
