//! Preorder traversal of a tree with an explicit work stack.
use vstd::prelude::*;
use crate::ast::{Node, NodeV, Stmt, lemma_nodes_view, preorder, preorder_list};

verus! {

broadcast use vstd::std_specs::vec::group_vec_axioms;

/// The children of a node in execution order: a loop's or block's body, a
/// branch's two arms.
pub open spec fn kids(n: NodeV) -> Seq<NodeV> {
    match n {
        NodeV::Loop(l) => l.body,
        NodeV::Block(b) => b,
        NodeV::Branch(_, t, e) => seq![*t] + match e {
            Some(e) => seq![*e],
            None => Seq::empty(),
        },
        NodeV::Ref(_) => Seq::empty(),
    }
}

/// What is left to visit of a node whose first `k` children have been
/// entered.
pub open spec fn rest(n: NodeV, k: int) -> Seq<NodeV> {
    if 0 <= k < kids(n).len() {
        preorder_list(kids(n).subrange(k, kids(n).len() as int))
    } else {
        Seq::empty()
    }
}

/// What is left to visit for a stack, its top (last entry) first.
pub open spec fn stack_pending(st: Seq<(NodeV, int)>) -> Seq<NodeV>
    decreases st.len(),
{
    if st.len() == 0 {
        Seq::empty()
    } else {
        rest(st.last().0, st.last().1) + stack_pending(st.drop_last())
    }
}

pub proof fn lemma_preorder_kids(n: NodeV)
    ensures
        preorder(n) == seq![n] + preorder_list(kids(n)),
{
    match n {
        NodeV::Branch(_, t, e) => {
            let ks = kids(n);
            assert(ks.drop_first() =~= match e {
                Some(e) => seq![*e],
                None => Seq::<NodeV>::empty(),
            });
            assert(ks[0] == *t);
            assert(preorder_list(Seq::<NodeV>::empty()) == Seq::<NodeV>::empty());
            match e {
                Some(e) => {
                    assert(ks.drop_first()[0] == *e);
                    assert(ks.drop_first().drop_first() =~= Seq::<NodeV>::empty());
                    assert(preorder_list(ks.drop_first()) =~= preorder(*e));
                },
                None => {
                    assert(preorder_list(ks.drop_first()) =~= Seq::<NodeV>::empty());
                },
            }
            assert(preorder(n) =~= seq![n] + preorder_list(ks));
        },
        NodeV::Ref(_) => {
            assert(preorder(n) =~= seq![n] + preorder_list(kids(n)));
        },
        _ => {},
    }
}

pub open spec fn stack_view<'b>(st: Seq<(&'b Node, usize)>) -> Seq<(NodeV, int)> {
    st.map_values(|e: (&'b Node, usize)| (e.0@, e.1 as int))
}

pub open spec fn start_pending<'b>(s: Option<&'b Node>) -> Seq<NodeV> {
    match s {
        Some(r) => preorder(r@),
        None => Seq::empty(),
    }
}

/// Walks a tree in execution order: a node, then its children.
pub struct Walk<'a> {
    /// Visited nodes whose children are not all entered, with the number
    /// of children entered so far.
    stack: Vec<(&'a Node, usize)>,
    /// The root, until it is visited.
    start: Option<&'a Node>,
}

impl<'a> Walk<'a> {
    /// The nodes still to be visited, in order.
    pub closed spec fn pending(self) -> Seq<NodeV> {
        start_pending(self.start) + stack_pending(stack_view(self.stack@))
    }

    /// A walk over all nodes of `root`.
    pub fn new(root: &'a Node) -> (r: Walk<'a>)
        ensures
            r.pending() == preorder(root@),
    {
        let r = Walk { stack: Vec::new(), start: Some(root) };
        assert(r.stack@.map_values(|e: (&'a Node, usize)| (e.0@, e.1 as int)) =~= Seq::<(NodeV, int)>::empty());
        assert(r.pending() =~= preorder(root@));
        r
    }

    /// The next node in execution order, if any.
    pub fn next(&mut self) -> (r: Option<&'a Node>)
        ensures
            match r {
                Some(x) => old(self).pending().len() > 0 && x@ == old(self).pending()[0] && final(self).pending()
                    == old(self).pending().drop_first(),
                None => old(self).pending().len() == 0 && final(self).pending().len() == 0,
            },
    {
        let ghost p0 = self.pending();
        match self.start {
            Some(root) => {
                self.start = None;
                let ghost st0 = stack_view(self.stack@);
                self.stack.push((root, 0));
                proof {
                    let st1 = stack_view(self.stack@);
                    assert(st1.drop_last() =~= st0);
                    lemma_preorder_kids(root@);
                    assert(kids(root@).subrange(0, kids(root@).len() as int) =~= kids(root@));
                    assert(self.pending() =~= p0.drop_first());
                }
                return Some(root);
            },
            None => {},
        }
        while self.stack.len() > 0
            invariant
                self.start is None,
                self.pending() == p0,
                p0 == old(self).pending(),
            decreases self.stack@.len(),
        {
            let last = self.stack.len() - 1;
            let (n, k) = self.stack[last];
            let ghost st0 = stack_view(self.stack@);
            proof {
                assert(st0.last() == (n@, k as int));
            }
            match kid(n, k) {
                Some(c) => {
                    self.stack.set(last, (n, k + 1));
                    self.stack.push((c, 0));
                    proof {
                        let st1 = stack_view(self.stack@);
                        let ks = kids(n@);
                        assert(st1.drop_last().drop_last() =~= st0.drop_last());
                        assert(st1.drop_last().last() == (n@, k + 1));
                        assert(st1.last() == (c@, 0int));
                        assert(ks.subrange(k as int, ks.len() as int).drop_first() =~= ks.subrange(k + 1, ks.len() as int));
                        lemma_preorder_kids(c@);
                        assert(kids(c@).subrange(0, kids(c@).len() as int) =~= kids(c@));
                        assert(rest(c@, 0) =~= preorder_list(kids(c@))) by {
                            if kids(c@).len() == 0 {
                                assert(preorder_list(kids(c@)) =~= Seq::<NodeV>::empty());
                            }
                        }
                        assert(rest(n@, k + 1) =~= preorder_list(ks.subrange(k + 1, ks.len() as int))) by {
                            if k + 1 >= ks.len() {
                                assert(ks.subrange(k + 1, ks.len() as int) =~= Seq::<NodeV>::empty());
                            }
                        }
                        assert(stack_pending(st1.drop_last()) == rest(n@, k + 1) + stack_pending(st0.drop_last()));
                        assert(stack_pending(st1) == rest(c@, 0) + stack_pending(st1.drop_last()));
                        assert(stack_pending(st0) == rest(n@, k as int) + stack_pending(st0.drop_last()));
                        assert(ks.subrange(k as int, ks.len() as int)[0] == c@);
                        assert(p0 =~= stack_pending(st0));
                        assert(preorder_list(ks.subrange(k as int, ks.len() as int)) == preorder(c@) + preorder_list(ks.subrange(k + 1, ks.len() as int)));
                        assert(p0 =~= seq![c@] + stack_pending(st1));
                        assert(self.pending() =~= p0.drop_first());
                    }
                    return Some(c);
                },
                None => {
                    self.stack.pop();
                    proof {
                        let st1 = stack_view(self.stack@);
                        assert(st1 =~= st0.drop_last());
                        assert(self.pending() =~= p0);
                    }
                },
            }
        }
        proof {
            let st1 = stack_view(self.stack@);
            assert(st1 =~= Seq::<(NodeV, int)>::empty());
        }
        None
    }
}

impl<'a> Walk<'a> {
    /// The next access node in execution order, skipping loops, blocks and
    /// branches; `None` when no access is left.
    pub fn next_ref(&mut self) -> (r: Option<&'a Node>)
        ensures
            match r {
                Some(x) => exists|k: int|
                    0 <= k < old(self).pending().len() && x@ == old(self).pending()[k] && x@ is Ref && (forall|j: int|
                        0 <= j < k ==> !(#[trigger] old(self).pending()[j] is Ref)) && final(self).pending()
                        == old(self).pending().subrange(k + 1, old(self).pending().len() as int),
                None => (forall|j: int| 0 <= j < old(self).pending().len() ==> !(#[trigger] old(self).pending()[j] is Ref))
                    && final(self).pending().len() == 0,
            },
    {
        let ghost p0 = self.pending();
        let ghost mut k: int = 0;
        assert(p0.subrange(0, p0.len() as int) =~= p0);
        loop
            invariant
                p0 == old(self).pending(),
                0 <= k <= p0.len(),
                self.pending() == p0.subrange(k, p0.len() as int),
                forall|j: int| 0 <= j < k ==> !(#[trigger] p0[j] is Ref),
            decreases p0.len() - k,
        {
            let ghost before = self.pending();
            match self.next() {
                Some(x) => {
                    proof {
                        assert(before[0] == p0[k]);
                        assert(before.drop_first() =~= p0.subrange(k + 1, p0.len() as int));
                    }
                    if matches!(x.stmt, Stmt::Ref(_)) {
                        return Some(x);
                    }
                    proof {
                        k = k + 1;
                    }
                },
                None => {
                    proof {
                        assert(k == p0.len());
                    }
                    return None;
                },
            }
        }
    }
}

/// The child `k` of `n` in execution order, if there is one.
fn kid<'a>(n: &'a Node, k: usize) -> (r: Option<&'a Node>)
    ensures
        r is Some <==> k < kids(n@).len(),
        r is Some ==> r.unwrap()@ == kids(n@)[k as int] && k < usize::MAX,
{
    match &n.stmt {
        Stmt::Loop(l) => {
            proof {
                lemma_nodes_view(l.body@);
            }
            if k < l.body.len() {
                Some(&l.body[k])
            } else {
                None
            }
        },
        Stmt::Block(b) => {
            proof {
                lemma_nodes_view(b@);
            }
            if k < b.len() {
                Some(&b[k])
            } else {
                None
            }
        },
        Stmt::Branch(br) => {
            if k == 0 {
                Some(&br.then_body)
            } else if k == 1 {
                match &br.else_body {
                    Some(e) => Some(e),
                    None => None,
                }
            } else {
                None
            }
        },
        Stmt::Ref(_) => None,
    }
}

} // verus!
