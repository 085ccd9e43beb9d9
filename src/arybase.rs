//! Address assignment: a packed base offset for every array.
use vstd::prelude::*;
use crate::ast::{LoopV, Node, NodeV, RefV, Stmt, lemma_nodes_view, node_view, nodes_view, preorder, preorder_list};

verus! {

broadcast use vstd::std_specs::vec::group_vec_axioms;

/// The allocation state: the arrays met so far in first-seen order, each
/// with its offset and size, and the cursor (`None` once it has
/// overflowed `usize`).
pub struct Alloc {
    pub tbl: Seq<(Seq<char>, nat, nat)>,
    pub cur: Option<nat>,
}

/// The number of elements of an array with extents `dim`, if every partial
/// product fits in `usize`.
pub open spec fn dims_size(dim: Seq<usize>) -> Option<nat>
    decreases dim.len(),
{
    if dim.len() == 0 {
        Some(1)
    } else {
        match dims_size(dim.drop_last()) {
            Some(p) => if p * (dim.last() as nat) <= usize::MAX {
                Some(p * (dim.last() as nat))
            } else {
                None
            },
            None => None,
        }
    }
}

/// Position of `name` in the table.
pub open spec fn find(tbl: Seq<(Seq<char>, nat, nat)>, name: Seq<char>) -> Option<int>
    decreases tbl.len(),
{
    if tbl.len() == 0 {
        None
    } else if tbl.last().0 == name {
        Some(tbl.len() - 1)
    } else {
        find(tbl.drop_last(), name)
    }
}

/// One access met in preorder: a new name is allocated at the cursor.
pub open spec fn alloc_ref(r: RefV, a: Alloc) -> (RefV, Alloc) {
    match find(a.tbl, r.name) {
        Some(i) => (RefV { base: Some(a.tbl[i].1 as usize), ..r }, a),
        None => match (a.cur, dims_size(r.dim)) {
            (Some(c), Some(sz)) => if c + sz <= usize::MAX {
                (
                    RefV { base: Some(c as usize), ..r },
                    Alloc { tbl: a.tbl.push((r.name, c, sz)), cur: Some(c + sz) },
                )
            } else {
                (r, Alloc { tbl: a.tbl, cur: None })
            },
            _ => (r, Alloc { tbl: a.tbl, cur: None }),
        },
    }
}

pub open spec fn bases_node(n: NodeV, a: Alloc) -> (NodeV, Alloc)
    decreases n,
{
    match n {
        NodeV::Ref(r) => {
            let (r2, a2) = alloc_ref(r, a);
            (NodeV::Ref(r2), a2)
        },
        NodeV::Loop(l) => {
            let (b, a2) = bases_list(l.body, a);
            (NodeV::Loop(LoopV { body: b, ..l }), a2)
        },
        NodeV::Block(b) => {
            let (b2, a2) = bases_list(b, a);
            (NodeV::Block(b2), a2)
        },
        NodeV::Branch(cond, t, e) => {
            let (t2, a1) = bases_node(*t, a);
            match e {
                Some(e) => {
                    let (e2, a2) = bases_node(*e, a1);
                    (NodeV::Branch(cond, Box::new(t2), Some(Box::new(e2))), a2)
                },
                None => (NodeV::Branch(cond, Box::new(t2), None), a1),
            }
        },
    }
}

pub open spec fn bases_list(s: Seq<NodeV>, a: Alloc) -> (Seq<NodeV>, Alloc)
    decreases s,
{
    if s.len() == 0 {
        (s, a)
    } else {
        let (h, a1) = bases_node(s[0], a);
        let (t, a2) = bases_list(s.drop_first(), a1);
        (seq![h] + t, a2)
    }
}

pub open spec fn initial_alloc() -> Alloc {
    Alloc { tbl: Seq::empty(), cur: Some(0) }
}

/// The executable allocation state.
struct Allocator {
    names: Vec<String>,
    offsets: Vec<usize>,
    cur: usize,
    sizes: Ghost<Seq<nat>>,
}

impl Allocator {
    spec fn view(self) -> Alloc {
        Alloc {
            tbl: Seq::new(self.names@.len(), |i: int| (self.names@[i]@, self.offsets@[i] as nat, self.sizes@[i])),
            cur: Some(self.cur as nat),
        }
    }

    spec fn wf(self) -> bool {
        &&& self.names@.len() == self.offsets@.len()
        &&& self.names@.len() == self.sizes@.len()
        &&& forall|j: int, k: int| 0 <= j < k < self.names@.len() ==> (#[trigger] self.names@[j])@ != (#[trigger] self.names@[k])@
    }
}

proof fn lemma_find_push(tbl: Seq<(Seq<char>, nat, nat)>, x: (Seq<char>, nat, nat), name: Seq<char>)
    ensures
        find(tbl.push(x), name) == if x.0 == name { Some(tbl.len() as int) } else { find(tbl, name) },
{
    assert(tbl.push(x).drop_last() =~= tbl);
}

proof fn lemma_find_none(tbl: Seq<(Seq<char>, nat, nat)>, name: Seq<char>)
    ensures
        find(tbl, name) is None <==> forall|i: int| 0 <= i < tbl.len() ==> #[trigger] tbl[i].0 != name,
        find(tbl, name) is Some ==> 0 <= find(tbl, name).unwrap() < tbl.len() && tbl[find(tbl, name).unwrap()].0 == name,
    decreases tbl.len(),
{
    if tbl.len() > 0 {
        lemma_find_none(tbl.drop_last(), name);
        assert forall|i: int| 0 <= i < tbl.len() - 1 implies #[trigger] tbl[i] == tbl.drop_last()[i] by {}
    }
}

/// The number of elements of an array with extents `dim`.
fn array_size(dim: &Vec<usize>) -> (r: Option<usize>)
    ensures
        r is Some <==> dims_size(dim@) is Some,
        r is Some ==> r.unwrap() as nat == dims_size(dim@).unwrap(),
{
    let mut p: usize = 1;
    let mut j: usize = 0;
    assert(dim@.subrange(0, 0).len() == 0);
    while j < dim.len()
        invariant
            j <= dim@.len(),
            dims_size(dim@.subrange(0, j as int)) == Some(p as nat),
        decreases dim@.len() - j,
    {
        assert(dim@.subrange(0, j + 1).drop_last() =~= dim@.subrange(0, j as int));
        match p.checked_mul(dim[j]) {
            Some(q) => {
                p = q;
            },
            None => {
                proof {
                    lemma_dims_size_prefix(dim@, j as int + 1);
                }
                return None;
            },
        }
        j = j + 1;
    }
    assert(dim@.subrange(0, j as int) =~= dim@);
    Some(p)
}

proof fn lemma_dims_size_prefix(dim: Seq<usize>, j: int)
    requires
        0 <= j <= dim.len(),
        dims_size(dim.subrange(0, j)) is None,
    ensures
        dims_size(dim) is None,
    decreases dim.len() - j,
{
    if j < dim.len() {
        assert(dim.subrange(0, j + 1).drop_last() =~= dim.subrange(0, j));
        lemma_dims_size_prefix(dim, j + 1);
    } else {
        assert(dim.subrange(0, j) =~= dim);
    }
}

impl Allocator {
    /// Looks `name` up, or allocates it; `None` on overflow.
    fn lookup_or_alloc(&mut self, name: &String, dim: &Vec<usize>) -> (r: Option<usize>)
        requires
            old(self).wf(),
        ensures
            ({
                let (r2, a2) = alloc_ref(
                    RefV { name: name@, dim: dim@, indices: None, sub: Seq::empty(), base: None, ref_id: None },
                    old(self).view(),
                );
                &&& r is Some <==> a2.cur is Some
                &&& r is Some ==> final(self).view() == a2 && final(self).wf() && r2.base == r
            }),
    {
        let ghost a = self.view();
        let mut i: usize = 0;
        while i < self.names.len()
            invariant
                self.wf(),
                self.view() == a,
                i <= self.names@.len(),
                forall|j: int| 0 <= j < i ==> (#[trigger] self.names@[j])@ != name@,
            decreases self.names@.len() - i,
        {
            if self.names[i].eq(name) {
                proof {
                    lemma_find_none(a.tbl, name@);
                    lemma_find_unique_last(a.tbl, name@, i as int);
                }
                return Some(self.offsets[i]);
            }
            i = i + 1;
        }
        proof {
            lemma_find_none(a.tbl, name@);
        }
        let sz = match array_size(dim) {
            Some(s) => s,
            None => {
                return None;
            },
        };
        let end = match self.cur.checked_add(sz) {
            Some(e) => e,
            None => {
                return None;
            },
        };
        let base = self.cur;
        self.names.push(name.clone());
        self.offsets.push(base);
        self.sizes = Ghost(self.sizes@.push(sz as nat));
        self.cur = end;
        proof {
            assert(self.view().tbl =~= a.tbl.push((name@, base as nat, sz as nat)));
            assert forall|j: int, k: int| 0 <= j < k < self.names@.len() implies (#[trigger] self.names@[j])@ != (#[trigger] self.names@[k])@ by {
                if k == self.names@.len() - 1 {
                    assert(self.names@[j]@ == a.tbl[j].0);
                } else {
                    assert(a.tbl[j].0 != a.tbl[k].0);
                }
            }
        }
        Some(base)
    }
}

/// With no earlier occurrence, the match at `i` is the one `find` gives.
proof fn lemma_find_unique_last(tbl: Seq<(Seq<char>, nat, nat)>, name: Seq<char>, i: int)
    requires
        0 <= i < tbl.len(),
        tbl[i].0 == name,
        forall|j: int| 0 <= j < i ==> #[trigger] tbl[j].0 != name,
        forall|j: int, k: int| 0 <= j < k < tbl.len() ==> #[trigger] tbl[j].0 != #[trigger] tbl[k].0,
    ensures
        find(tbl, name) == Some(i),
    decreases tbl.len(),
{
    if tbl.len() - 1 > i {
        assert(tbl.last().0 != name) by {
            assert(tbl[i].0 != tbl[tbl.len() - 1].0);
        }
        assert forall|j: int, k: int| 0 <= j < k < tbl.len() - 1 implies #[trigger] tbl.drop_last()[j].0 != #[trigger] tbl.drop_last()[k].0 by {
            assert(tbl[j].0 != tbl[k].0);
        }
        lemma_find_unique_last(tbl.drop_last(), name, i);
    }
}

/// Once the cursor has overflowed, it stays so.
proof fn lemma_overflow_sticks(n: NodeV, a: Alloc)
    requires
        a.cur is None,
    ensures
        bases_node(n, a).1.cur is None,
    decreases n,
{
    match n {
        NodeV::Ref(r) => {},
        NodeV::Loop(l) => lemma_overflow_sticks_list(l.body, a),
        NodeV::Block(b) => lemma_overflow_sticks_list(b, a),
        NodeV::Branch(_, t, e) => {
            lemma_overflow_sticks(*t, a);
            match e {
                Some(e) => lemma_overflow_sticks(*e, bases_node(*t, a).1),
                None => {},
            }
        },
    }
}

proof fn lemma_overflow_sticks_list(s: Seq<NodeV>, a: Alloc)
    requires
        a.cur is None,
    ensures
        bases_list(s, a).1.cur is None,
    decreases s,
{
    if s.len() > 0 {
        lemma_overflow_sticks(s[0], a);
        lemma_overflow_sticks_list(s.drop_first(), bases_node(s[0], a).1);
    }
}

fn bases_in_node(n: &mut Node, al: &mut Allocator) -> (ok: bool)
    requires
        old(al).wf(),
    ensures
        ok <==> bases_node(old(n)@, old(al).view()).1.cur is Some,
        ok ==> (final(n)@, final(al).view()) == bases_node(old(n)@, old(al).view()) && final(al).wf(),
    decreases *old(n),
{
    match &mut n.stmt {
        Stmt::Ref(r) => {
            match al.lookup_or_alloc(&r.name, &r.dim) {
                Some(b) => {
                    r.base = Some(b);
                    true
                },
                None => false,
            }
        },
        Stmt::Loop(l) => bases_in_list(&mut l.body, al),
        Stmt::Block(b) => bases_in_list(b, al),
        Stmt::Branch(br) => {
            let ghost a0 = al.view();
            if !bases_in_node(&mut br.then_body, al) {
                proof {
                    match old(n)@ {
                        NodeV::Branch(_, t, Some(e)) => lemma_overflow_sticks(*e, bases_node(*t, a0).1),
                        _ => {},
                    }
                }
                return false;
            }
            match &mut br.else_body {
                Some(e) => bases_in_node(e, al),
                None => true,
            }
        },
    }
}

fn bases_in_list(v: &mut Vec<Node>, al: &mut Allocator) -> (ok: bool)
    requires
        old(al).wf(),
    ensures
        ok <==> bases_list(nodes_view(old(v)@), old(al).view()).1.cur is Some,
        ok ==> (nodes_view(final(v)@), final(al).view()) == bases_list(nodes_view(old(v)@), old(al).view()) && final(al).wf(),
    decreases *old(v),
{
    let ghost orig = nodes_view(v@);
    let ghost a0 = al.view();
    proof {
        lemma_nodes_view(v@);
    }
    assert(orig.subrange(0, orig.len() as int) =~= orig);
    let mut j: usize = 0;
    while j < v.len()
        invariant
            al.wf(),
            a0 == old(al).view(),
            j <= v@.len(),
            v@.len() == orig.len(),
            old(v)@.len() == v@.len(),
            forall|k: int| j <= k < v@.len() ==> #[trigger] v@[k] == old(v)@[k],
            orig == nodes_view(old(v)@),
            nodes_view(v@).len() == v@.len(),
            forall|k: int| 0 <= k < orig.len() ==> #[trigger] orig[k] == node_view(old(v)@[k]),
            ({
                let (t, af) = bases_list(orig.subrange(j as int, orig.len() as int), al.view());
                bases_list(orig, a0) == (nodes_view(v@).subrange(0, j as int) + t, af)
            }),
        decreases v@.len() - j,
    {
        let ghost before = v@;
        let ghost ab = al.view();
        proof {
            lemma_nodes_view(v@);
            assert(orig.subrange(j as int, orig.len() as int).drop_first() =~= orig.subrange(j + 1, orig.len() as int));
            vstd::std_specs::vec::axiom_vec_index_decreases(*old(v), j as int);
        }
        if !bases_in_node(&mut v[j], al) {
            proof {
                let a1 = bases_node(orig[j as int], ab).1;
                assert(a1.cur is None);
                lemma_overflow_sticks_list(orig.subrange(j + 1, orig.len() as int), a1);
                let sub = orig.subrange(j as int, orig.len() as int);
                assert(sub[0] == orig[j as int]);
                assert(bases_list(sub, ab).1 == bases_list(sub.drop_first(), a1).1);
            }
            return false;
        }
        proof {
            lemma_nodes_view(v@);
            lemma_nodes_view(before);
            let (h, a1) = bases_node(orig[j as int], ab);
            let (t, af) = bases_list(orig.subrange(j + 1, orig.len() as int), a1);
            assert(nodes_view(v@).subrange(0, j + 1) =~= nodes_view(before).subrange(0, j as int).push(h));
            assert(nodes_view(before).subrange(0, j as int) + (seq![h] + t) =~= nodes_view(v@).subrange(0, j + 1) + t);
        }
        j = j + 1;
    }
    proof {
        lemma_nodes_view(v@);
        assert(nodes_view(v@).subrange(0, j as int) =~= nodes_view(v@));
        assert(orig.subrange(j as int, orig.len() as int) =~= Seq::<NodeV>::empty());
        assert(nodes_view(v@) + Seq::<NodeV>::empty() =~= nodes_view(v@));
    }
    true
}

/// Gives every array met in preorder a packed base offset: a name met for
/// the first time is placed at the cursor, which then advances by the
/// array's size (the product of its extents); every access gets the offset
/// of its array. Returns the arrays with their offsets in first-seen order
/// and the total size, or `None` (the tree partly updated) where the sizes
/// do not fit in `usize`.
pub fn set_arybase(aloop: &mut Node) -> (r: Option<(Vec<(String, usize)>, usize)>)
    ensures
        r is Some <==> bases_node(old(aloop)@, initial_alloc()).1.cur is Some,
        r is Some ==> {
            let (n2, a2) = bases_node(old(aloop)@, initial_alloc());
            let (tbl, total) = r.unwrap();
            &&& final(aloop)@ == n2
            &&& tbl@.len() == a2.tbl.len()
            &&& forall|i: int| 0 <= i < tbl@.len() ==> (#[trigger] tbl@[i]).0@ == a2.tbl[i].0 && tbl@[i].1 as nat == a2.tbl[i].1
            &&& a2.cur == Some(total as nat)
        },
{
    let mut al = Allocator { names: Vec::new(), offsets: Vec::new(), cur: 0, sizes: Ghost(Seq::empty()) };
    assert(al.view().tbl =~= Seq::<(Seq<char>, nat, nat)>::empty());
    if !bases_in_node(aloop, &mut al) {
        return None;
    }
    let mut tbl: Vec<(String, usize)> = Vec::new();
    let mut i: usize = 0;
    while i < al.names.len()
        invariant
            al.wf(),
            i <= al.names@.len(),
            tbl@.len() == i,
            forall|k: int| 0 <= k < i ==> (#[trigger] tbl@[k]).0@ == al.names@[k]@ && tbl@[k].1 == al.offsets@[k],
        decreases al.names@.len() - i,
    {
        tbl.push((al.names[i].clone(), al.offsets[i]));
        i = i + 1;
    }
    Some((tbl, al.cur))
}

/// Total size of the arrays of the table.
pub open spec fn sum_sizes(tbl: Seq<(Seq<char>, nat, nat)>) -> nat
    decreases tbl.len(),
{
    if tbl.len() == 0 {
        0
    } else {
        sum_sizes(tbl.drop_last()) + tbl.last().2
    }
}

/// The table packs its arrays: distinct names, each offset the total size
/// of the arrays before it, and the cursor just after the last one.
pub open spec fn packed(a: Alloc) -> bool {
    &&& forall|j: int| 0 <= j < a.tbl.len() ==> #[trigger] a.tbl[j].1 == sum_sizes(a.tbl.subrange(0, j))
    &&& a.cur is Some ==> a.cur.unwrap() == sum_sizes(a.tbl)
    &&& forall|j: int, k: int| 0 <= j < k < a.tbl.len() ==> (#[trigger] a.tbl[j]).0 != (#[trigger] a.tbl[k]).0
}

/// `a.tbl` is a prefix of `b.tbl`.
pub open spec fn grows(a: Alloc, b: Alloc) -> bool {
    a.tbl.len() <= b.tbl.len() && b.tbl.subrange(0, a.tbl.len() as int) == a.tbl
}

proof fn lemma_packed_ref(r: RefV, a: Alloc)
    requires
        packed(a),
    ensures
        packed(alloc_ref(r, a).1),
        grows(a, alloc_ref(r, a).1),
{
    let a2 = alloc_ref(r, a).1;
    assert(a.tbl.subrange(0, a.tbl.len() as int) =~= a.tbl);
    if a2.tbl.len() > a.tbl.len() {
        lemma_find_none(a.tbl, r.name);
        let t2 = a2.tbl;
        assert(t2.drop_last() =~= a.tbl);
        assert(t2.subrange(0, a.tbl.len() as int) =~= a.tbl);
        assert forall|j: int| 0 <= j < t2.len() implies #[trigger] t2[j].1 == sum_sizes(t2.subrange(0, j)) by {
            if j < a.tbl.len() {
                assert(t2.subrange(0, j) =~= a.tbl.subrange(0, j));
            }
        }
        assert forall|j: int, k: int| 0 <= j < k < t2.len() implies (#[trigger] t2[j]).0 != (#[trigger] t2[k]).0 by {
            if k == a.tbl.len() {
                assert(t2[j] == a.tbl[j]);
            } else {
                assert(t2[j] == a.tbl[j]);
                assert(t2[k] == a.tbl[k]);
            }
        }
    }
}

proof fn lemma_grows_trans(a: Alloc, b: Alloc, c: Alloc)
    requires
        grows(a, b),
        grows(b, c),
    ensures
        grows(a, c),
{
    assert(c.tbl.subrange(0, a.tbl.len() as int) =~= c.tbl.subrange(0, b.tbl.len() as int).subrange(0, a.tbl.len() as int));
}

/// Address assignment keeps the table packed and only adds to it.
pub proof fn lemma_packed_node(n: NodeV, a: Alloc)
    requires
        packed(a),
    ensures
        packed(bases_node(n, a).1),
        grows(a, bases_node(n, a).1),
    decreases n,
{
    match n {
        NodeV::Ref(r) => lemma_packed_ref(r, a),
        NodeV::Loop(l) => lemma_packed_list(l.body, a),
        NodeV::Block(b) => lemma_packed_list(b, a),
        NodeV::Branch(_, t, e) => {
            lemma_packed_node(*t, a);
            match e {
                Some(e) => {
                    lemma_packed_node(*e, bases_node(*t, a).1);
                    lemma_grows_trans(a, bases_node(*t, a).1, bases_node(*e, bases_node(*t, a).1).1);
                },
                None => {},
            }
        },
    }
}

proof fn lemma_packed_list(s: Seq<NodeV>, a: Alloc)
    requires
        packed(a),
    ensures
        packed(bases_list(s, a).1),
        grows(a, bases_list(s, a).1),
    decreases s,
{
    if s.len() == 0 {
        assert(a.tbl.subrange(0, a.tbl.len() as int) =~= a.tbl);
    } else {
        lemma_packed_node(s[0], a);
        let a1 = bases_node(s[0], a).1;
        lemma_packed_list(s.drop_first(), a1);
        lemma_grows_trans(a, a1, bases_list(s.drop_first(), a1).1);
    }
}

proof fn lemma_sum_sizes_prefix(tbl: Seq<(Seq<char>, nat, nat)>, j: int, k: int)
    requires
        0 <= j < k <= tbl.len(),
    ensures
        sum_sizes(tbl.subrange(0, k)) >= sum_sizes(tbl.subrange(0, j)) + tbl[j].2,
    decreases k - j,
{
    assert(tbl.subrange(0, k).drop_last() =~= tbl.subrange(0, k - 1));
    if k - 1 > j {
        lemma_sum_sizes_prefix(tbl, j, k - 1);
    }
}

/// Base-offset packing: after address assignment the arrays stand in the
/// table in the order they are first met in preorder, with distinct names;
/// the first is at offset 0, each one's offset is the total size of those
/// before it, and the total size is that of all. Arrays of positive size
/// thus get distinct, non-overlapping ranges.
pub proof fn lemma_base_packing(n: NodeV)
    requires
        bases_node(n, initial_alloc()).1.cur is Some,
    ensures
        ({
            let a = bases_node(n, initial_alloc()).1;
            &&& forall|j: int| 0 <= j < a.tbl.len() ==> #[trigger] a.tbl[j].1 == sum_sizes(a.tbl.subrange(0, j))
            &&& a.tbl.len() > 0 ==> a.tbl[0].1 == 0
            &&& a.cur == Some(sum_sizes(a.tbl))
            &&& forall|j: int, k: int| 0 <= j < k < a.tbl.len() ==> (#[trigger] a.tbl[j]).0 != (#[trigger] a.tbl[k]).0
            &&& forall|j: int, k: int|
                0 <= j < k < a.tbl.len() ==> (#[trigger] a.tbl[j]).1 + a.tbl[j].2 <= (#[trigger] a.tbl[k]).1
            &&& forall|j: int, k: int|
                0 <= j < k < a.tbl.len() && a.tbl[j].2 > 0 ==> (#[trigger] a.tbl[j]).1 < (#[trigger] a.tbl[k]).1
        }),
{
    let a0 = initial_alloc();
    assert(sum_sizes(a0.tbl) == 0);
    lemma_packed_node(n, a0);
    let a = bases_node(n, a0).1;
    if a.tbl.len() > 0 {
        assert(a.tbl.subrange(0, 0) =~= Seq::<(Seq<char>, nat, nat)>::empty());
    }
    assert forall|j: int, k: int| 0 <= j < k < a.tbl.len() implies (#[trigger] a.tbl[j]).1 + a.tbl[j].2 <= (#[trigger] a.tbl[k]).1 by {
        lemma_sum_sizes_prefix(a.tbl, j, k);
    }
}

/// Every access of `n` carries the offset that its array name has in `tbl`.
pub open spec fn bases_agree(n: NodeV, tbl: Seq<(Seq<char>, nat, nat)>) -> bool
    decreases n,
{
    match n {
        NodeV::Ref(r) => find(tbl, r.name) is Some && r.base == Some(tbl[find(tbl, r.name).unwrap()].1 as usize),
        NodeV::Loop(l) => bases_agree_list(l.body, tbl),
        NodeV::Block(b) => bases_agree_list(b, tbl),
        NodeV::Branch(_, t, e) => bases_agree(*t, tbl) && match e {
            Some(e) => bases_agree(*e, tbl),
            None => true,
        },
    }
}

pub open spec fn bases_agree_list(s: Seq<NodeV>, tbl: Seq<(Seq<char>, nat, nat)>) -> bool
    decreases s,
{
    s.len() == 0 || (bases_agree(s[0], tbl) && bases_agree_list(s.drop_first(), tbl))
}

proof fn lemma_find_grows(a: Alloc, b: Alloc, name: Seq<char>)
    requires
        grows(a, b),
        packed(b),
        find(a.tbl, name) is Some,
    ensures
        find(b.tbl, name) == find(a.tbl, name),
{
    lemma_find_none(a.tbl, name);
    let i = find(a.tbl, name).unwrap();
    assert(b.tbl[i] == a.tbl[i]);
    assert forall|j: int| 0 <= j < i implies #[trigger] b.tbl[j].0 != name by {
        assert(b.tbl[j].0 != b.tbl[i].0);
    }
    lemma_find_unique_last(b.tbl, name, i);
    assert forall|j: int| 0 <= j < i implies #[trigger] a.tbl[j].0 != name by {
        assert(a.tbl[j] == b.tbl[j]);
    }
    assert forall|j: int, k: int| 0 <= j < k < a.tbl.len() implies #[trigger] a.tbl[j].0 != #[trigger] a.tbl[k].0 by {
        assert(a.tbl[j] == b.tbl[j]);
        assert(a.tbl[k] == b.tbl[k]);
    }
    lemma_find_unique_last(a.tbl, name, i);
}

proof fn lemma_agree_grows(n: NodeV, a: Alloc, b: Alloc)
    requires
        bases_agree(n, a.tbl),
        grows(a, b),
        packed(b),
    ensures
        bases_agree(n, b.tbl),
    decreases n,
{
    match n {
        NodeV::Ref(r) => {
            lemma_find_grows(a, b, r.name);
            lemma_find_none(a.tbl, r.name);
            assert(b.tbl[find(a.tbl, r.name).unwrap()] == a.tbl[find(a.tbl, r.name).unwrap()]);
        },
        NodeV::Loop(l) => lemma_agree_grows_list(l.body, a, b),
        NodeV::Block(bl) => lemma_agree_grows_list(bl, a, b),
        NodeV::Branch(_, t, e) => {
            lemma_agree_grows(*t, a, b);
            match e {
                Some(e) => lemma_agree_grows(*e, a, b),
                None => {},
            }
        },
    }
}

proof fn lemma_agree_grows_list(s: Seq<NodeV>, a: Alloc, b: Alloc)
    requires
        bases_agree_list(s, a.tbl),
        grows(a, b),
        packed(b),
    ensures
        bases_agree_list(s, b.tbl),
    decreases s,
{
    if s.len() > 0 {
        lemma_agree_grows(s[0], a, b);
        lemma_agree_grows_list(s.drop_first(), a, b);
    }
}

proof fn lemma_bases_agree(n: NodeV, a: Alloc)
    requires
        packed(a),
        bases_node(n, a).1.cur is Some,
    ensures
        bases_agree(bases_node(n, a).0, bases_node(n, a).1.tbl),
    decreases n,
{
    lemma_packed_node(n, a);
    match n {
        NodeV::Ref(r) => {
            let a2 = bases_node(n, a).1;
            lemma_find_none(a.tbl, r.name);
            if find(a.tbl, r.name) is None {
                lemma_find_push(a.tbl, (r.name, a.cur.unwrap(), dims_size(r.dim).unwrap()), r.name);
            }
        },
        NodeV::Loop(l) => lemma_bases_agree_list(l.body, a),
        NodeV::Block(b) => lemma_bases_agree_list(b, a),
        NodeV::Branch(_, t, e) => {
            let a1 = bases_node(*t, a).1;
            lemma_packed_node(*t, a);
            match e {
                Some(e) => {
                    if a1.cur is None {
                        lemma_overflow_sticks(*e, a1);
                    }
                    lemma_bases_agree(*t, a);
                    lemma_bases_agree(*e, a1);
                    lemma_packed_node(*e, a1);
                    lemma_agree_grows(bases_node(*t, a).0, a1, bases_node(*e, a1).1);
                },
                None => {
                    lemma_bases_agree(*t, a);
                },
            }
        },
    }
}

proof fn lemma_bases_agree_list(s: Seq<NodeV>, a: Alloc)
    requires
        packed(a),
        bases_list(s, a).1.cur is Some,
    ensures
        bases_agree_list(bases_list(s, a).0, bases_list(s, a).1.tbl),
    decreases s,
{
    if s.len() > 0 {
        let (h, a1) = bases_node(s[0], a);
        lemma_packed_node(s[0], a);
        if a1.cur is None {
            lemma_overflow_sticks_list(s.drop_first(), a1);
        }
        lemma_bases_agree(s[0], a);
        lemma_bases_agree_list(s.drop_first(), a1);
        lemma_packed_list(s.drop_first(), a1);
        let (t, af) = bases_list(s.drop_first(), a1);
        lemma_agree_grows(h, a1, af);
        assert((seq![h] + t)[0] == h);
        assert((seq![h] + t).drop_first() =~= t);
    }
}

/// Two accesses to the same array get the same base offset: after address
/// assignment every access carries exactly the offset that its array name
/// has in the table, whatever its index names or extents.
pub proof fn lemma_same_array_same_base(n: NodeV)
    requires
        bases_node(n, initial_alloc()).1.cur is Some,
    ensures
        bases_agree(bases_node(n, initial_alloc()).0, bases_node(n, initial_alloc()).1.tbl),
{
    assert(sum_sizes(initial_alloc().tbl) == 0);
    lemma_bases_agree(n, initial_alloc());
}

/// An access node whose base offset is the one its name has in `tbl`.
pub open spec fn ref_agrees(n: NodeV, tbl: Seq<(Seq<char>, nat, nat)>) -> bool {
    n is Ref ==> bases_agree(n, tbl)
}

proof fn lemma_agree_preorder(n: NodeV, tbl: Seq<(Seq<char>, nat, nat)>)
    requires
        bases_agree(n, tbl),
    ensures
        forall|k: int| 0 <= k < preorder(n).len() ==> ref_agrees(#[trigger] preorder(n)[k], tbl),
    decreases n,
{
    match n {
        NodeV::Ref(_) => {},
        NodeV::Loop(l) => {
            lemma_agree_preorder_list(l.body, tbl);
            assert forall|k: int| 0 <= k < preorder(n).len() implies ref_agrees(#[trigger] preorder(n)[k], tbl) by {
                if k > 0 {
                    assert(preorder(n)[k] == preorder_list(l.body)[k - 1]);
                }
            }
        },
        NodeV::Block(b) => {
            lemma_agree_preorder_list(b, tbl);
            assert forall|k: int| 0 <= k < preorder(n).len() implies ref_agrees(#[trigger] preorder(n)[k], tbl) by {
                if k > 0 {
                    assert(preorder(n)[k] == preorder_list(b)[k - 1]);
                }
            }
        },
        NodeV::Branch(_, t, e) => {
            lemma_agree_preorder(*t, tbl);
            let pe = match e {
                Some(e) => preorder(*e),
                None => Seq::empty(),
            };
            match e {
                Some(e) => lemma_agree_preorder(*e, tbl),
                None => {},
            }
            let pt = preorder(*t);
            assert forall|k: int| 0 <= k < preorder(n).len() implies ref_agrees(#[trigger] preorder(n)[k], tbl) by {
                if k > 0 && k <= pt.len() {
                    assert(preorder(n)[k] == pt[k - 1]);
                } else if k > pt.len() {
                    assert(preorder(n)[k] == pe[k - 1 - pt.len()]);
                }
            }
        },
    }
}

proof fn lemma_agree_preorder_list(s: Seq<NodeV>, tbl: Seq<(Seq<char>, nat, nat)>)
    requires
        bases_agree_list(s, tbl),
    ensures
        forall|k: int| 0 <= k < preorder_list(s).len() ==> ref_agrees(#[trigger] preorder_list(s)[k], tbl),
    decreases s,
{
    if s.len() > 0 {
        lemma_agree_preorder(s[0], tbl);
        lemma_agree_preorder_list(s.drop_first(), tbl);
        let p0 = preorder(s[0]);
        let pr = preorder_list(s.drop_first());
        assert forall|k: int| 0 <= k < preorder_list(s).len() implies ref_agrees(#[trigger] preorder_list(s)[k], tbl) by {
            if k < p0.len() {
                assert(preorder_list(s)[k] == p0[k]);
            } else {
                assert(preorder_list(s)[k] == pr[k - p0.len()]);
            }
        }
    }
}

/// Two accesses to the same array get the same base offset: in the tree
/// after address assignment, any two access nodes with the same array
/// name, whatever their index names or extents, carry equal base offsets.
pub proof fn lemma_same_name_same_offset(n: NodeV, i: int, j: int)
    requires
        bases_node(n, initial_alloc()).1.cur is Some,
        0 <= i < preorder(bases_node(n, initial_alloc()).0).len(),
        0 <= j < preorder(bases_node(n, initial_alloc()).0).len(),
        preorder(bases_node(n, initial_alloc()).0)[i] is Ref,
        preorder(bases_node(n, initial_alloc()).0)[j] is Ref,
        preorder(bases_node(n, initial_alloc()).0)[i]->Ref_0.name == preorder(bases_node(n, initial_alloc()).0)[j]->Ref_0.name,
    ensures
        preorder(bases_node(n, initial_alloc()).0)[i]->Ref_0.base == preorder(bases_node(n, initial_alloc()).0)[j]->Ref_0.base,
        preorder(bases_node(n, initial_alloc()).0)[i]->Ref_0.base is Some,
{
    lemma_same_array_same_base(n);
    let m = bases_node(n, initial_alloc()).0;
    let tbl = bases_node(n, initial_alloc()).1.tbl;
    lemma_agree_preorder(m, tbl);
    assert(ref_agrees(preorder(m)[i], tbl));
    assert(ref_agrees(preorder(m)[j], tbl));
}

/// Every extent of every access of `n` is positive.
pub open spec fn pos_extents(n: NodeV) -> bool
    decreases n,
{
    match n {
        NodeV::Ref(r) => forall|i: int| 0 <= i < r.dim.len() ==> #[trigger] r.dim[i] > 0,
        NodeV::Loop(l) => pos_extents_list(l.body),
        NodeV::Block(b) => pos_extents_list(b),
        NodeV::Branch(_, t, e) => pos_extents(*t) && match e {
            Some(e) => pos_extents(*e),
            None => true,
        },
    }
}

pub open spec fn pos_extents_list(s: Seq<NodeV>) -> bool
    decreases s,
{
    s.len() == 0 || (pos_extents(s[0]) && pos_extents_list(s.drop_first()))
}

/// Every array of the table has a positive size.
pub open spec fn sizes_positive(a: Alloc) -> bool {
    forall|j: int| 0 <= j < a.tbl.len() ==> #[trigger] a.tbl[j].2 > 0
}

proof fn lemma_dims_size_positive(dim: Seq<usize>)
    requires
        forall|i: int| 0 <= i < dim.len() ==> #[trigger] dim[i] > 0,
        dims_size(dim) is Some,
    ensures
        dims_size(dim).unwrap() > 0,
    decreases dim.len(),
{
    if dim.len() > 0 {
        assert forall|i: int| 0 <= i < dim.len() - 1 implies #[trigger] dim.drop_last()[i] > 0 by {
            assert(dim.drop_last()[i] == dim[i]);
        }
        lemma_dims_size_positive(dim.drop_last());
        let p = dims_size(dim.drop_last()).unwrap();
        let d = dim.last() as nat;
        assert(dim[dim.len() - 1] > 0);
        assert(p * d > 0) by (nonlinear_arith)
            requires
                p > 0,
                d > 0,
        ;
    }
}

proof fn lemma_sizes_positive(n: NodeV, a: Alloc)
    requires
        pos_extents(n),
        sizes_positive(a),
    ensures
        sizes_positive(bases_node(n, a).1),
    decreases n,
{
    match n {
        NodeV::Ref(r) => {
            if find(a.tbl, r.name) is None && a.cur is Some && dims_size(r.dim) is Some {
                lemma_dims_size_positive(r.dim);
            }
        },
        NodeV::Loop(l) => lemma_sizes_positive_list(l.body, a),
        NodeV::Block(b) => lemma_sizes_positive_list(b, a),
        NodeV::Branch(_, t, e) => {
            lemma_sizes_positive(*t, a);
            match e {
                Some(e) => lemma_sizes_positive(*e, bases_node(*t, a).1),
                None => {},
            }
        },
    }
}

proof fn lemma_sizes_positive_list(s: Seq<NodeV>, a: Alloc)
    requires
        pos_extents_list(s),
        sizes_positive(a),
    ensures
        sizes_positive(bases_list(s, a).1),
    decreases s,
{
    if s.len() > 0 {
        lemma_sizes_positive(s[0], a);
        lemma_sizes_positive_list(s.drop_first(), bases_node(s[0], a).1);
    }
}

/// Base-offset packing with positive extents: where every extent is
/// positive, the arrays get pairwise distinct offsets, the first at 0.
pub proof fn lemma_distinct_offsets(n: NodeV)
    requires
        bases_node(n, initial_alloc()).1.cur is Some,
        pos_extents(n),
    ensures
        ({
            let a = bases_node(n, initial_alloc()).1;
            &&& a.tbl.len() > 0 ==> a.tbl[0].1 == 0
            &&& forall|j: int, k: int| 0 <= j < k < a.tbl.len() ==> (#[trigger] a.tbl[j]).1 < (#[trigger] a.tbl[k]).1
        }),
{
    lemma_base_packing(n);
    lemma_sizes_positive(n, initial_alloc());
}

} // verus!
