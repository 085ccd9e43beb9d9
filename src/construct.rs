//! Building loop nests: loops, accesses, nesting, subscripts and insertion.
use vstd::prelude::*;
use crate::ast::{
    preorder, preorder_list,
    AryRef, BranchStmt, Cond, IdxExpr, LoopBound, LoopStmt, LoopV, Node, NodeV, RefV, Stmt, lemma_nodes_view,
    lemma_nodes_view_eq, node_view, nodes_view, strings_view,
};

verus! {

broadcast use vstd::std_specs::vec::group_vec_axioms;

/// Why a tree could not be built as asked.
#[derive(Debug)]
pub enum BuildError {
    /// An index name of an access names none of the loops around it.
    UnresolvedIndex { index: String, loops: Vec<String> },
    /// The search for a loop met a branch.
    UnsupportedControl,
    /// No loop has the requested induction variable.
    InsertionFailure { iv: String },
    /// A loop or block was expected.
    NotALoop,
}

impl Node {
    /// A loop over `lb..ub` with an empty body.
    pub fn new_single_loop(name: &str, lb: i32, ub: i32) -> (r: Node)
        ensures
            r@ == NodeV::Loop(
                LoopV { iv: name@, lb: LoopBound::Fixed(lb), ub: LoopBound::Fixed(ub), body: Seq::empty(), rank: 0, descending: false },
            ),
    {
        let body: Vec<Node> = Vec::new();
        proof {
            assert(nodes_view(body@) =~= Seq::<NodeV>::empty());
        }
        Node {
            stmt: Stmt::Loop(
                LoopStmt {
                    iv: String::from_str(name),
                    lb: LoopBound::Fixed(lb),
                    ub: LoopBound::Fixed(ub),
                    body,
                    rank: 0,
                    descending: false,
                },
            ),
        }
    }

    /// A loop with the given bounds, fixed or dynamic, and an empty body.
    pub fn new_loop(name: &str, lb: LoopBound, ub: LoopBound) -> (r: Node)
        ensures
            r@ == NodeV::Loop(LoopV { iv: name@, lb: lb, ub: ub, body: Seq::empty(), rank: 0, descending: false }),
    {
        let body: Vec<Node> = Vec::new();
        proof {
            assert(nodes_view(body@) =~= Seq::<NodeV>::empty());
        }
        Node { stmt: Stmt::Loop(LoopStmt { iv: String::from_str(name), lb, ub, body, rank: 0, descending: false }) }
    }

    /// A loop counting down from `lb` to just above `ub`, with an empty body.
    pub fn new_loop_down(name: &str, lb: LoopBound, ub: LoopBound) -> (r: Node)
        ensures
            r@ == NodeV::Loop(LoopV { iv: name@, lb: lb, ub: ub, body: Seq::empty(), rank: 0, descending: true }),
    {
        let body: Vec<Node> = Vec::new();
        proof {
            assert(nodes_view(body@) =~= Seq::<NodeV>::empty());
        }
        Node { stmt: Stmt::Loop(LoopStmt { iv: String::from_str(name), lb, ub, body, rank: 0, descending: true }) }
    }

    /// An access to the array `name` with extents `dim` and the subscript
    /// expressions `sub`.
    pub fn new_ref(name: &str, dim: Vec<usize>, sub: Vec<IdxExpr>) -> (r: Node)
        ensures
            r@ == NodeV::Ref(
                RefV { name: name@, dim: dim@, indices: None, sub: sub@, base: None, ref_id: None },
            ),
    {
        Node {
            stmt: Stmt::Ref(AryRef { name: String::from_str(name), dim, indices: None, sub, base: None, ref_id: None }),
        }
    }

    /// A block of independent statements.
    pub fn new_block(children: Vec<Node>) -> (r: Node)
        ensures
            r@ == NodeV::Block(nodes_view(children@)),
    {
        Node { stmt: Stmt::Block(children) }
    }

    /// A two-way branch.
    pub fn new_branch(cond: Cond, then_body: Node, else_body: Option<Node>) -> (r: Node)
        ensures
            r@ == NodeV::Branch(
                cond,
                Box::new(then_body@),
                match else_body {
                    Some(e) => Some(Box::new(e@)),
                    None => None,
                },
            ),
    {
        let e = match else_body {
            Some(e) => Some(Box::new(e)),
            None => None,
        };
        Node { stmt: Stmt::Branch(BranchStmt { cond, then_body: Box::new(then_body), else_body: e }) }
    }

    /// Appends `node` to the body of the loop or block `lp`; `false`, with
    /// `lp` unchanged, where `lp` is neither.
    pub fn extend_loop_body(lp: &mut Node, node: Node) -> (r: bool)
        ensures
            r == (append_child(old(lp)@, node@) is Some),
            r ==> final(lp)@ == append_child(old(lp)@, node@).unwrap(),
            !r ==> final(lp)@ == old(lp)@,
    {
        let ghost nv = node@;
        match &mut lp.stmt {
            Stmt::Loop(l) => {
                let ghost b0 = l.body@;
                l.body.push(node);
                proof {
                    lemma_nodes_view(b0);
                    lemma_nodes_view_eq(l.body@, nodes_view(b0).push(nv));
                }
                true
            },
            Stmt::Block(b) => {
                let ghost b0 = b@;
                b.push(node);
                proof {
                    lemma_nodes_view(b0);
                    lemma_nodes_view_eq(b@, nodes_view(b0).push(nv));
                }
                true
            },
            _ => false,
        }
    }
}

/// `c` appended to the body of the loop or block `p`.
pub open spec fn append_child(p: NodeV, c: NodeV) -> Option<NodeV> {
    match p {
        NodeV::Loop(l) => Some(NodeV::Loop(LoopV { body: l.body.push(c), ..l })),
        NodeV::Block(b) => Some(NodeV::Block(b.push(c))),
        _ => None,
    }
}

/// Each node of `s` holding the next one as its last child.
pub open spec fn nest_spec(s: Seq<NodeV>) -> Option<NodeV>
    decreases s.len(),
{
    if s.len() == 0 {
        None
    } else if s.len() == 1 {
        Some(s[0])
    } else {
        match nest_spec(s.drop_first()) {
            Some(inner) => append_child(s[0], inner),
            None => None,
        }
    }
}

/// Independent loops over `lb..ub`, one per name, each with an empty body.
pub fn create_loops(loop_names: &[&str], lb: i32, ub: i32) -> (r: Vec<Node>)
    ensures
        r@.len() == loop_names@.len(),
        forall|i: int| 0 <= i < r@.len() ==> (#[trigger] r@[i])@ == NodeV::Loop(
            LoopV {
                iv: loop_names@[i]@,
                lb: LoopBound::Fixed(lb),
                ub: LoopBound::Fixed(ub),
                body: Seq::empty(),
                rank: 0,
                descending: false,
            },
        ),
{
    let mut r: Vec<Node> = Vec::new();
    let mut i: usize = 0;
    while i < loop_names.len()
        invariant
            i <= loop_names@.len(),
            r@.len() == i,
            forall|k: int| 0 <= k < i ==> (#[trigger] r@[k])@ == NodeV::Loop(
                LoopV {
                    iv: loop_names@[k]@,
                    lb: LoopBound::Fixed(lb),
                    ub: LoopBound::Fixed(ub),
                    body: Seq::empty(),
                    rank: 0,
                    descending: false,
                },
            ),
        decreases loop_names@.len() - i,
    {
        r.push(Node::new_single_loop(loop_names[i], lb, ub));
        i = i + 1;
    }
    r
}

/// Nests the loops of `order`: each one becomes the last body element of the
/// one before it; returns the outermost. `None` where `order` is empty or a
/// node but the last is neither a loop nor a block.
pub fn nest_the_loops(order: Vec<Node>) -> (r: Option<Node>)
    ensures
        r is Some <==> nest_spec(nodes_view(order@)) is Some,
        r is Some ==> r.unwrap()@ == nest_spec(nodes_view(order@)).unwrap(),
{
    let ghost s = nodes_view(order@);
    proof {
        lemma_nodes_view(order@);
    }
    let mut rest = order;
    let mut acc = match rest.pop() {
        Some(n) => n,
        None => {
            return None;
        },
    };
    proof {
        assert(s.subrange(rest@.len() as int, s.len() as int) =~= seq![acc@]);
        assert(seq![acc@].drop_first() =~= Seq::<NodeV>::empty());
    }
    while rest.len() > 0
        invariant
            s.len() > 0,
            s == nodes_view(order@),
            rest@.len() < s.len(),
            forall|k: int| 0 <= k < rest@.len() ==> #[trigger] node_view(rest@[k]) == s[k],
            nest_spec(s.subrange(rest@.len() as int, s.len() as int)) == Some(acc@),
        decreases rest@.len(),
    {
        let ghost k = rest@.len() - 1;
        let mut outer = match rest.pop() {
            Some(n) => n,
            None => {
                return None;
            },
        };
        proof {
            assert(s.subrange(k, s.len() as int).drop_first() =~= s.subrange(k + 1, s.len() as int));
            assert(outer@ == s[k]);
            assert(s.subrange(k, s.len() as int)[0] == s[k]);
            assert(nest_spec(s.subrange(k, s.len() as int)) == append_child(s[k], acc@));
        }
        if !Node::extend_loop_body(&mut outer, acc) {
            proof {
                lemma_nest_none(s, k);
            }
            return None;
        }
        acc = outer;
    }
    assert(s.subrange(0, s.len() as int) =~= s);
    Some(acc)
}

/// Where one node cannot take a child, the whole nest fails.
proof fn lemma_nest_none(s: Seq<NodeV>, k: int)
    requires
        0 <= k < s.len() - 1,
        nest_spec(s.subrange(k, s.len() as int)) is None,
    ensures
        nest_spec(s) is None,
    decreases k,
{
    if k > 0 {
        assert(s.subrange(k - 1, s.len() as int).drop_first() =~= s.subrange(k, s.len() as int));
        lemma_nest_none(s, k - 1);
    } else {
        assert(s.subrange(0, s.len() as int) =~= s);
    }
}

/// The same as [`nest_the_loops`].
pub fn nest_loops(order: Vec<Node>) -> (r: Option<Node>)
    ensures
        r is Some <==> nest_spec(nodes_view(order@)) is Some,
        r is Some ==> r.unwrap()@ == nest_spec(nodes_view(order@)).unwrap(),
{
    nest_the_loops(order)
}

/// The same as [`nest_the_loops`]: each statement becomes the last child
/// of the one before it.
pub fn loop_body(stmts: Vec<Node>) -> (r: Option<Node>)
    ensures
        r is Some <==> nest_spec(nodes_view(stmts@)) is Some,
        r is Some ==> r.unwrap()@ == nest_spec(nodes_view(stmts@)).unwrap(),
{
    nest_the_loops(stmts)
}

/// A perfect nest of loops over `0..ub`, one per name, outermost first;
/// `None` where `vars` is empty.
pub fn nested_loops(vars: &[&str], ub: i32) -> (r: Option<Node>)
    ensures
        r is Some <==> vars@.len() > 0,
        r is Some ==> r.unwrap()@ == nest_spec(Seq::new(vars@.len(), |i: int| NodeV::Loop(
            LoopV {
                iv: vars@[i]@,
                lb: LoopBound::Fixed(0),
                ub: LoopBound::Fixed(ub),
                body: Seq::empty(),
                rank: 0,
                descending: false,
            },
        ))).unwrap(),
{
    let loops = create_loops(vars, 0, ub);
    proof {
        lemma_nodes_view(loops@);
        let t = Seq::new(vars@.len(), |i: int| NodeV::Loop(
            LoopV {
                iv: vars@[i]@,
                lb: LoopBound::Fixed(0),
                ub: LoopBound::Fixed(ub),
                body: Seq::empty(),
                rank: 0,
                descending: false,
            },
        ));
        assert(nodes_view(loops@) =~= t);
        if vars@.len() > 0 {
            lemma_nest_loops_some(t);
        }
    }
    nest_the_loops(loops)
}

/// Loops can always be nested.
proof fn lemma_nest_loops_some(s: Seq<NodeV>)
    requires
        s.len() > 0,
        forall|i: int| 0 <= i < s.len() ==> (#[trigger] s[i]) is Loop,
    ensures
        nest_spec(s) is Some,
    decreases s.len(),
{
    if s.len() > 1 {
        lemma_nest_loops_some(s.drop_first());
    }
}

/// Position of the innermost loop named `name` in `loops` (outermost first).
pub open spec fn loop_pos(loops: Seq<Seq<char>>, name: Seq<char>) -> Option<nat>
    decreases loops.len(),
{
    if loops.len() == 0 {
        None
    } else if loops.last() == name {
        Some((loops.len() - 1) as nat)
    } else {
        loop_pos(loops.drop_last(), name)
    }
}

/// Every index name names a loop.
pub open spec fn all_resolved(indices: Seq<Seq<char>>, loops: Seq<Seq<char>>) -> bool {
    forall|i: int| 0 <= i < indices.len() ==> #[trigger] loop_pos(loops, indices[i]) is Some
}

/// The subscript of an access with `indices` under the loops `loops`: each
/// index reads the iteration-vector entry of its loop.
pub open spec fn sub_spec(indices: Seq<Seq<char>>, loops: Seq<Seq<char>>) -> Seq<IdxExpr> {
    Seq::new(indices.len(), |i: int| IdxExpr::Iv(loop_pos(loops, indices[i]).unwrap() as usize))
}

/// The first index name that names no loop.
pub open spec fn first_unresolved(indices: Seq<Seq<char>>, loops: Seq<Seq<char>>) -> Seq<char>
    recommends
        !all_resolved(indices, loops),
{
    indices[choose|i: int|
        0 <= i < indices.len() && loop_pos(loops, #[trigger] indices[i]) is None && forall|j: int|
            0 <= j < i ==> loop_pos(loops, #[trigger] indices[j]) is Some]
}

proof fn lemma_loop_pos_bound(loops: Seq<Seq<char>>, name: Seq<char>)
    ensures
        loop_pos(loops, name) is Some ==> loop_pos(loops, name).unwrap() < loops.len(),
    decreases loops.len(),
{
    if loops.len() > 0 {
        lemma_loop_pos_bound(loops.drop_last(), name);
    }
}

/// Position of the innermost loop named `name`.
fn find_loop(loops: &[String], name: &String) -> (r: Option<usize>)
    ensures
        r is Some <==> loop_pos(strings_view(loops@), name@) is Some,
        r is Some ==> r.unwrap() as nat == loop_pos(strings_view(loops@), name@).unwrap(),
{
    let ghost lv = strings_view(loops@);
    let mut i: usize = loops.len();
    assert(lv.subrange(0, loops@.len() as int) =~= lv);
    while i > 0
        invariant
            i <= loops@.len(),
            lv == strings_view(loops@),
            loop_pos(lv, name@) == loop_pos(lv.subrange(0, i as int), name@),
        decreases i,
    {
        assert(lv.subrange(0, i as int).drop_last() =~= lv.subrange(0, i - 1));
        if loops[i - 1].eq(name) {
            return Some(i - 1);
        }
        i = i - 1;
    }
    None
}

/// The subscript of an access with the index names `indices` placed under
/// the loops `loops` (outermost first): index `k` reads the iteration-vector
/// entry of the innermost loop of that name. Fails on the first index name
/// that names no loop, reporting it with the loop names.
pub fn generate_sub(indices: &[String], loops: &[String]) -> (r: Result<Vec<IdxExpr>, BuildError>)
    ensures
        r is Ok <==> all_resolved(strings_view(indices@), strings_view(loops@)),
        r is Ok ==> r.unwrap()@ == sub_spec(strings_view(indices@), strings_view(loops@)),
        r is Err ==> (r matches Err(BuildError::UnresolvedIndex { index, loops: ls }) && index@ == first_unresolved(
            strings_view(indices@),
            strings_view(loops@),
        ) && strings_view(ls@) == strings_view(loops@)),
{
    let ghost iv = strings_view(indices@);
    let ghost lv = strings_view(loops@);
    let mut out: Vec<IdxExpr> = Vec::new();
    let mut k: usize = 0;
    while k < indices.len()
        invariant
            k <= indices@.len(),
            iv == strings_view(indices@),
            lv == strings_view(loops@),
            out@.len() == k,
            forall|j: int| 0 <= j < k ==> loop_pos(lv, #[trigger] iv[j]) is Some,
            forall|j: int| 0 <= j < k ==> #[trigger] out@[j] == IdxExpr::Iv(loop_pos(lv, iv[j]).unwrap() as usize),
        decreases indices@.len() - k,
    {
        match find_loop(loops, &indices[k]) {
            Some(p) => {
                out.push(IdxExpr::Iv(p));
            },
            None => {
                let mut ls: Vec<String> = Vec::new();
                let mut m: usize = 0;
                while m < loops.len()
                    invariant
                        m <= loops@.len(),
                        ls@ == loops@.subrange(0, m as int),
                    decreases loops@.len() - m,
                {
                    ls.push(loops[m].clone());
                    m = m + 1;
                    assert(ls@ =~= loops@.subrange(0, m as int));
                }
                proof {
                    assert(ls@ =~= loops@);
                    assert(loop_pos(lv, iv[k as int]) is None);
                    let c = choose|i: int|
                        0 <= i < iv.len() && loop_pos(lv, #[trigger] iv[i]) is None && forall|j: int|
                            0 <= j < i ==> loop_pos(lv, #[trigger] iv[j]) is Some;
                    if c < k {
                    } else if c > k {
                        assert(loop_pos(lv, iv[k as int]) is Some);
                    }
                }
                return Err(BuildError::UnresolvedIndex { index: indices[k].clone(), loops: ls });
            },
        }
        k = k + 1;
    }
    assert(out@ =~= sub_spec(iv, lv));
    Ok(out)
}

/// The character sequences of string slices.
pub open spec fn strs_view(s: Seq<&str>) -> Seq<Seq<char>> {
    s.map_values(|x: &str| x@)
}

/// An access named `nm` with extents `dim` that depends on the loops named
/// in `ind`; its subscript is set when it is placed in a nest.
pub fn a_ref(nm: &str, dim: Vec<usize>, ind: Vec<&str>) -> (r: Node)
    ensures
        r@ == NodeV::Ref(
            RefV {
                name: nm@,
                dim: dim@,
                indices: Some(strs_view(ind@)),
                sub: seq![IdxExpr::Lit(0)],
                base: None,
                ref_id: None,
            },
        ),
{
    let mut indices: Vec<String> = Vec::new();
    let mut i: usize = 0;
    while i < ind.len()
        invariant
            i <= ind@.len(),
            indices@.len() == i,
            strings_view(indices@) == strs_view(ind@.subrange(0, i as int)),
        decreases ind@.len() - i,
    {
        let ghost before = indices@;
        let s = String::from_str(ind[i]);
        assert(s@ == ind@[i as int]@);
        indices.push(s);
        i = i + 1;
        assert forall|k: int| 0 <= k < i implies #[trigger] strings_view(indices@)[k] == strs_view(ind@.subrange(0, i as int))[k] by {
            if k < i - 1 {
                assert(indices@[k] == before[k]);
                assert(strings_view(before)[k] == strs_view(ind@.subrange(0, i - 1))[k]);
            }
        }
        assert(strings_view(indices@) =~= strs_view(ind@.subrange(0, i as int)));
    }
    assert(ind@.subrange(0, i as int) =~= ind@);
    let sub = vec![IdxExpr::Lit(0)];
    assert(sub@ =~= seq![IdxExpr::Lit(0)]);
    Node {
        stmt: Stmt::Ref(AryRef { name: String::from_str(nm), dim, indices: Some(indices), sub, base: None, ref_id: None }),
    }
}

/// An access to a square array: one dimension of extent `dim` per index.
pub fn squ_ref(nm: &str, dim: i32, ind: Vec<&str>) -> (r: Node)
    requires
        dim >= 0,
    ensures
        r@ == NodeV::Ref(
            RefV {
                name: nm@,
                dim: Seq::new(ind@.len(), |i: int| dim as usize),
                indices: Some(strs_view(ind@)),
                sub: seq![IdxExpr::Lit(0)],
                base: None,
                ref_id: None,
            },
        ),
{
    let mut dims: Vec<usize> = Vec::new();
    let mut i: usize = 0;
    while i < ind.len()
        invariant
            i <= ind@.len(),
            dims@ == Seq::new(i as nat, |k: int| dim as usize),
        decreases ind@.len() - i,
    {
        dims.push(dim as usize);
        i = i + 1;
        assert(dims@ =~= Seq::new(i as nat, |k: int| dim as usize));
    }
    a_ref(nm, dims, ind)
}

/// An expression reading the iteration-vector entry of the loop
/// `loop_index` in the nest `indices` (outermost first); `None` where it is
/// not there. Used for dynamic loop bounds.
pub fn generate_subscript(indices: &[&str], loop_index: &str) -> (r: Option<IdxExpr>)
    ensures
        r is Some <==> exists|i: int| 0 <= i < indices@.len() && #[trigger] indices@[i]@ == loop_index@,
        r is Some ==> exists|i: int|
            0 <= i < indices@.len() && #[trigger] indices@[i]@ == loop_index@ && r == Some(IdxExpr::Iv(i as usize))
                && forall|j: int| 0 <= j < i ==> (#[trigger] indices@[j])@ != loop_index@,
{
    let target = String::from_str(loop_index);
    let mut i: usize = 0;
    while i < indices.len()
        invariant
            i <= indices@.len(),
            target@ == loop_index@,
            forall|j: int| 0 <= j < i ==> (#[trigger] indices@[j])@ != loop_index@,
        decreases indices@.len() - i,
    {
        let s = String::from_str(indices[i]);
        if s.eq(&target) {
            return Some(IdxExpr::Iv(i));
        }
        i = i + 1;
    }
    None
}

/// Why an insertion fails, in terms of the tree.
pub enum InsertFail {
    /// This index name of the inserted access names none of these loops.
    Unresolved(Seq<char>, Seq<Seq<char>>),
    /// The search met a branch.
    Branch,
}

/// `x` ready to be placed under the loops `chain`: an access built from
/// index names (none at all for a scalar) gets the subscript that `chain`
/// gives it; one built with explicit subscript expressions keeps them.
pub open spec fn prepared(x: NodeV, chain: Seq<Seq<char>>) -> Result<NodeV, InsertFail> {
    match x {
        NodeV::Ref(r) => match r.indices {
            None => Ok(x),
            Some(ix) => if all_resolved(ix, chain) {
                Ok(NodeV::Ref(RefV { sub: sub_spec(ix, chain), ..r }))
            } else {
                Err(InsertFail::Unresolved(first_unresolved(ix, chain), chain))
            },
        },
        _ => Ok(x),
    }
}

/// Inserting `x` into the first loop named `iv` met in a depth-first search
/// of `n`, under the enclosing loops `chain`: the new tree, `None` where no
/// loop has that name, or why it fails.
pub open spec fn ins_node(n: NodeV, x: NodeV, iv: Seq<char>, chain: Seq<Seq<char>>) -> Result<Option<NodeV>, InsertFail>
    decreases n, 0int,
{
    match n {
        NodeV::Loop(l) => if l.iv == iv {
            match prepared(x, chain.push(l.iv)) {
                Ok(x2) => Ok(Some(NodeV::Loop(LoopV { body: l.body.push(x2), ..l }))),
                Err(e) => Err(e),
            }
        } else {
            match ins_list(l.body, 0, x, iv, chain.push(l.iv)) {
                Ok(Some(b)) => Ok(Some(NodeV::Loop(LoopV { body: b, ..l }))),
                Ok(None) => Ok(None),
                Err(e) => Err(e),
            }
        },
        NodeV::Block(b) => match ins_list(b, 0, x, iv, chain) {
            Ok(Some(b2)) => Ok(Some(NodeV::Block(b2))),
            Ok(None) => Ok(None),
            Err(e) => Err(e),
        },
        NodeV::Ref(_) => Ok(None),
        NodeV::Branch(..) => Err(InsertFail::Branch),
    }
}

/// The search over the children `s[j..]`.
pub open spec fn ins_list(s: Seq<NodeV>, j: int, x: NodeV, iv: Seq<char>, chain: Seq<Seq<char>>) -> Result<
    Option<Seq<NodeV>>,
    InsertFail,
>
    decreases s, s.len() - j,
{
    if j < 0 || j >= s.len() {
        Ok(None)
    } else {
        match ins_node(s[j], x, iv, chain) {
            Err(e) => Err(e),
            Ok(Some(h)) => Ok(Some(s.update(j, h))),
            Ok(None) => ins_list(s, j + 1, x, iv, chain),
        }
    }
}

/// `e` reports the failure `f`.
pub open spec fn fails_as(e: BuildError, f: InsertFail) -> bool {
    match f {
        InsertFail::Unresolved(name, ch) => e matches BuildError::UnresolvedIndex { index, loops } && index@ == name
            && strings_view(loops@) == ch,
        InsertFail::Branch => e is UnsupportedControl,
    }
}

/// A copy of `x` ready to be placed under the loops `chain`.
fn prepare(x: &Node, chain: &Vec<String>) -> (r: Result<Node, BuildError>)
    ensures
        match prepared(x@, strings_view(chain@)) {
            Ok(y) => r is Ok && r.unwrap()@ == y,
            Err(f) => r is Err && fails_as(r.unwrap_err(), f),
        },
{
    match &x.stmt {
        Stmt::Ref(a) => {
            let ix = match &a.indices {
                None => {
                    return Ok(x.clone());
                },
                Some(ix) => ix,
            };
            match generate_sub(ix.as_slice(), chain.as_slice()) {
                Ok(sub) => {
                    let y = AryRef {
                        name: a.name.clone(),
                        dim: crate::ast::copy_dims(&a.dim),
                        indices: Some(crate::ast::copy_strings(ix)),
                        sub,
                        base: a.base,
                        ref_id: a.ref_id,
                    };
                    Ok(Node { stmt: Stmt::Ref(y) })
                },
                Err(e) => Err(e),
            }
        },
        _ => Ok(x.clone()),
    }
}

fn ins_in_node(n: &mut Node, x: &Node, iv: &String, chain: &mut Vec<String>) -> (r: Result<bool, BuildError>)
    ensures
        final(chain)@ == old(chain)@,
        match ins_node(old(n)@, x@, iv@, strings_view(old(chain)@)) {
            Ok(Some(t)) => r == Ok::<bool, BuildError>(true) && final(n)@ == t,
            Ok(None) => r == Ok::<bool, BuildError>(false) && final(n)@ == old(n)@,
            Err(f) => r is Err && fails_as(r.unwrap_err(), f) && final(n)@ == old(n)@,
        },
    decreases *old(n),
{
    match &mut n.stmt {
        Stmt::Loop(l) => {
            let ghost c0 = chain@;
            chain.push(l.iv.clone());
            proof {
                assert(strings_view(chain@) =~= strings_view(c0).push(l.iv@));
            }
            if l.iv.eq(iv) {
                match prepare(x, chain) {
                    Ok(y) => {
                        let ghost b0 = l.body@;
                        let ghost yv = y@;
                        l.body.push(y);
                        proof {
                            lemma_nodes_view(b0);
                            lemma_nodes_view_eq(l.body@, nodes_view(b0).push(yv));
                        }
                        chain.pop();
                        proof {
                            assert(chain@ =~= c0);
                        }
                        Ok(true)
                    },
                    Err(e) => {
                        chain.pop();
                        proof {
                            assert(chain@ =~= c0);
                        }
                        Err(e)
                    },
                }
            } else {
                let r = ins_in_list(&mut l.body, x, iv, chain);
                chain.pop();
                proof {
                    assert(chain@ =~= c0);
                }
                r
            }
        },
        Stmt::Block(b) => ins_in_list(b, x, iv, chain),
        Stmt::Ref(_) => Ok(false),
        Stmt::Branch(_) => Err(BuildError::UnsupportedControl),
    }
}

fn ins_in_list(v: &mut Vec<Node>, x: &Node, iv: &String, chain: &mut Vec<String>) -> (r: Result<bool, BuildError>)
    ensures
        final(chain)@ == old(chain)@,
        match ins_list(nodes_view(old(v)@), 0, x@, iv@, strings_view(old(chain)@)) {
            Ok(Some(t)) => r == Ok::<bool, BuildError>(true) && nodes_view(final(v)@) == t,
            Ok(None) => r == Ok::<bool, BuildError>(false) && nodes_view(final(v)@) == nodes_view(old(v)@),
            Err(f) => r is Err && fails_as(r.unwrap_err(), f) && nodes_view(final(v)@) == nodes_view(old(v)@),
        },
    decreases *old(v),
{
    let ghost orig = nodes_view(v@);
    let ghost ch = strings_view(chain@);
    proof {
        lemma_nodes_view(v@);
    }
    let mut j: usize = 0;
    while j < v.len()
        invariant
            j <= v@.len(),
            old(v)@.len() == v@.len(),
            forall|k: int| j <= k < v@.len() ==> #[trigger] v@[k] == old(v)@[k],
            nodes_view(v@) == orig,
            chain@ == old(chain)@,
            orig == nodes_view(old(v)@),
            ch == strings_view(old(chain)@),
            orig.len() == v@.len(),
            forall|k: int| 0 <= k < orig.len() ==> #[trigger] orig[k] == node_view(old(v)@[k]),
            ins_list(orig, 0, x@, iv@, ch) == ins_list(orig, j as int, x@, iv@, ch),
        decreases v@.len() - j,
    {
        let ghost before = v@;
        proof {
            vstd::std_specs::vec::axiom_vec_index_decreases(*old(v), j as int);
        }
        let r = ins_in_node(&mut v[j], x, iv, chain);
        proof {
            lemma_nodes_view(before);
            assert(v@.len() == before.len());
            assert(forall|k: int| 0 <= k < v@.len() && k != j ==> v@[k] == before[k]);
        }
        match r {
            Ok(true) => {
                proof {
                    match ins_node(orig[j as int], x@, iv@, ch) {
                        Ok(Some(t)) => lemma_nodes_view_eq(v@, orig.update(j as int, t)),
                        _ => {},
                    }
                }
                return Ok(true);
            },
            Ok(false) => {
                proof {
                    lemma_nodes_view(before);
                    lemma_nodes_view_eq(v@, orig);
                }
            },
            Err(e) => {
                proof {
                    lemma_nodes_view_eq(v@, orig);
                }
                return Err(e);
            },
        }
        j = j + 1;
    }
    Ok(false)
}

/// Appends a copy of `node` to the body of the first loop named `iv` met in
/// a depth-first search of `head`. An inserted access built from index names
/// gets the subscript given by the loops from `head` down to that loop. On failure `head` is
/// left as it was: no such loop, a branch met during the search, or an
/// index of the access that names none of those loops.
pub fn insert_at(node: &Node, head: &mut Node, iv: &str) -> (r: Result<(), BuildError>)
    ensures
        match ins_node(old(head)@, node@, iv@, Seq::empty()) {
            Ok(Some(t)) => r is Ok && final(head)@ == t,
            Ok(None) => final(head)@ == old(head)@ && (r matches Err(BuildError::InsertionFailure { iv: s }) && s@
                == iv@),
            Err(f) => final(head)@ == old(head)@ && r is Err && fails_as(r.unwrap_err(), f),
        },
{
    let target = String::from_str(iv);
    let mut chain: Vec<String> = Vec::new();
    proof {
        assert(strings_view(chain@) =~= Seq::<Seq<char>>::empty());
    }
    match ins_in_node(head, node, &target, &mut chain) {
        Ok(true) => Ok(()),
        Ok(false) => Err(BuildError::InsertionFailure { iv: target }),
        Err(e) => Err(e),
    }
}

/// The rank below `r`; ranks stop at the largest `usize`.
pub open spec fn succ(r: nat) -> nat {
    if r < usize::MAX {
        r + 1
    } else {
        r
    }
}

/// `n` with each loop ranked by its nesting depth from `r`; a block does
/// not add depth, a branch is not entered.
pub open spec fn ranks_node(n: NodeV, r: nat) -> NodeV
    decreases n,
{
    match n {
        NodeV::Loop(l) => NodeV::Loop(LoopV { rank: r as usize, body: ranks_list(l.body, succ(r)), ..l }),
        NodeV::Block(b) => NodeV::Block(ranks_list(b, r)),
        _ => n,
    }
}

pub open spec fn ranks_list(s: Seq<NodeV>, r: nat) -> Seq<NodeV>
    decreases s,
{
    if s.len() == 0 {
        s
    } else {
        seq![ranks_node(s[0], r)] + ranks_list(s.drop_first(), r)
    }
}

/// The deeper of two loops (name and rank), the first on a tie.
pub open spec fn pick(a: Option<(Seq<char>, nat)>, b: Option<(Seq<char>, nat)>) -> Option<(Seq<char>, nat)> {
    match (a, b) {
        (Some(x), Some(y)) => if y.1 > x.1 {
            Some(y)
        } else {
            Some(x)
        },
        (None, y) => y,
        (x, None) => x,
    }
}

/// The loop of greatest rank in `n` ranked from `r`, the first met on a tie.
pub open spec fn deepest(n: NodeV, r: nat) -> Option<(Seq<char>, nat)>
    decreases n,
{
    match n {
        NodeV::Loop(l) => match deepest_list(l.body, succ(r)) {
            Some(x) => if x.1 > r {
                Some(x)
            } else {
                Some((l.iv, r))
            },
            None => Some((l.iv, r)),
        },
        NodeV::Block(b) => deepest_list(b, r),
        _ => None,
    }
}

pub open spec fn deepest_list(s: Seq<NodeV>, r: nat) -> Option<(Seq<char>, nat)>
    decreases s,
{
    if s.len() == 0 {
        None
    } else {
        pick(deepest(s[0], r), deepest_list(s.drop_first(), r))
    }
}

proof fn lemma_ranks_list(s: Seq<NodeV>, r: nat)
    ensures
        ranks_list(s, r).len() == s.len(),
        forall|k: int| 0 <= k < s.len() ==> #[trigger] ranks_list(s, r)[k] == ranks_node(s[k], r),
    decreases s.len(),
{
    if s.len() > 0 {
        lemma_ranks_list(s.drop_first(), r);
        assert forall|k: int| 0 <= k < s.len() implies #[trigger] ranks_list(s, r)[k] == ranks_node(s[k], r) by {
            if k > 0 {
                assert(s.drop_first()[k - 1] == s[k]);
            }
        }
    }
}

proof fn lemma_pick_assoc(a: Option<(Seq<char>, nat)>, b: Option<(Seq<char>, nat)>, c: Option<(Seq<char>, nat)>)
    ensures
        pick(a, pick(b, c)) == pick(pick(a, b), c),
{
}

fn ranks_in_node(n: &mut Node, r: usize) -> (res: Option<(String, usize)>)
    ensures
        final(n)@ == ranks_node(old(n)@, r as nat),
        match deepest(old(n)@, r as nat) {
            Some(x) => res is Some && res.unwrap().0@ == x.0 && res.unwrap().1 as nat == x.1,
            None => res is None,
        },
    decreases *old(n),
{
    match &mut n.stmt {
        Stmt::Loop(l) => {
            l.rank = r;
            let next = if r < usize::MAX {
                r + 1
            } else {
                r
            };
            let inner = ranks_in_list(&mut l.body, next);
            match inner {
                Some(x) => if x.1 > r {
                    Some(x)
                } else {
                    Some((l.iv.clone(), r))
                },
                None => Some((l.iv.clone(), r)),
            }
        },
        Stmt::Block(b) => ranks_in_list(b, r),
        _ => None,
    }
}

pub open spec fn best_view(b: Option<(String, usize)>) -> Option<(Seq<char>, nat)> {
    match b {
        Some(x) => Some((x.0@, x.1 as nat)),
        None => None,
    }
}

fn ranks_in_list(v: &mut Vec<Node>, r: usize) -> (res: Option<(String, usize)>)
    ensures
        nodes_view(final(v)@) == ranks_list(nodes_view(old(v)@), r as nat),
        match deepest_list(nodes_view(old(v)@), r as nat) {
            Some(x) => res is Some && res.unwrap().0@ == x.0 && res.unwrap().1 as nat == x.1,
            None => res is None,
        },
    decreases *old(v),
{
    let ghost orig = nodes_view(v@);
    proof {
        lemma_nodes_view(v@);
        lemma_ranks_list(orig, r as nat);
    }
    let mut best: Option<(String, usize)> = None;
    let mut j: usize = 0;
    assert(orig.subrange(0, orig.len() as int) =~= orig);
    while j < v.len()
        invariant
            j <= v@.len(),
            old(v)@.len() == v@.len(),
            orig == nodes_view(old(v)@),
            orig.len() == v@.len(),
            ranks_list(orig, r as nat).len() == orig.len(),
            forall|k: int| 0 <= k < orig.len() ==> #[trigger] ranks_list(orig, r as nat)[k] == ranks_node(orig[k], r as nat),
            forall|k: int| 0 <= k < orig.len() ==> #[trigger] orig[k] == node_view(old(v)@[k]),
            forall|k: int| j <= k < v@.len() ==> #[trigger] v@[k] == old(v)@[k],
            forall|k: int| 0 <= k < j ==> #[trigger] node_view(v@[k]) == ranks_node(orig[k], r as nat),
            deepest_list(orig, r as nat) == pick(
                best_view(best),
                deepest_list(orig.subrange(j as int, orig.len() as int), r as nat),
            ),
            best is Some ==> best.unwrap().1 as nat <= usize::MAX,
        decreases v@.len() - j,
    {
        let ghost before = v@;
        let ghost bv = best_view(best);
        proof {
            vstd::std_specs::vec::axiom_vec_index_decreases(*old(v), j as int);
            assert(orig.subrange(j as int, orig.len() as int).drop_first() =~= orig.subrange(j + 1, orig.len() as int));
            lemma_pick_assoc(
                bv,
                deepest(orig[j as int], r as nat),
                deepest_list(orig.subrange(j + 1, orig.len() as int), r as nat),
            );
        }
        let d = ranks_in_node(&mut v[j], r);
        proof {
            assert(v@.len() == before.len());
            assert(forall|k: int| 0 <= k < v@.len() && k != j ==> v@[k] == before[k]);
        }
        best = match (best, d) {
            (Some(b), Some(x)) => if x.1 > b.1 {
                Some(x)
            } else {
                Some(b)
            },
            (None, y) => y,
            (x, None) => x,
        };
        j = j + 1;
    }
    proof {
        lemma_nodes_view_eq(v@, ranks_list(orig, r as nat));
        assert(orig.subrange(j as int, orig.len() as int) =~= Seq::<NodeV>::empty());
    }
    best
}

/// Ranks every loop of `node` by its nesting depth from `current_rank` (a
/// block adds no depth) and returns the induction variable of the loop of
/// greatest rank, the first met on a tie; `None` where there is no loop.
pub fn assign_ranks(node: &mut Node, current_rank: usize) -> (r: Option<String>)
    ensures
        final(node)@ == ranks_node(old(node)@, current_rank as nat),
        match deepest(old(node)@, current_rank as nat) {
            Some(x) => r is Some && r.unwrap()@ == x.0,
            None => r is None,
        },
{
    match ranks_in_node(node, current_rank) {
        Some(x) => Some(x.0),
        None => None,
    }
}

/// Ranks the loops of `head` from 0, then inserts `node` into the loop of
/// greatest rank, as [`insert_at`] does with its induction variable, which
/// is returned.
pub fn insert_at_innermost(node: &Node, head: &mut Node) -> (r: Result<String, BuildError>)
    ensures
        ({
            let h1 = ranks_node(old(head)@, 0);
            match deepest(old(head)@, 0) {
                None => final(head)@ == h1 && r matches Err(BuildError::NotALoop),
                Some(x) => match ins_node(h1, node@, x.0, Seq::empty()) {
                    Ok(Some(t)) => final(head)@ == t && r is Ok && r.unwrap()@ == x.0,
                    Ok(None) => final(head)@ == h1 && r is Err && r.unwrap_err() is InsertionFailure,
                    Err(f) => final(head)@ == h1 && r is Err && fails_as(r.unwrap_err(), f),
                },
            }
        }),
{
    let name = match assign_ranks(head, 0) {
        Some(n) => n,
        None => {
            return Err(BuildError::NotALoop);
        },
    };
    match insert_at(node, head, name.as_str()) {
        Ok(()) => Ok(name),
        Err(e) => Err(e),
    }
}

/// The names of the loops from `n` down to the first loop named `iv` met in
/// a depth-first search (accesses are skipped), after the enclosing names
/// `chain`; `Err` where the search meets a branch first.
pub open spec fn loops_to(n: NodeV, iv: Seq<char>, chain: Seq<Seq<char>>) -> Result<Option<Seq<Seq<char>>>, ()>
    decreases n, 0int,
{
    match n {
        NodeV::Loop(l) => if l.iv == iv {
            Ok(Some(chain.push(l.iv)))
        } else {
            loops_to_list(l.body, 0, iv, chain.push(l.iv))
        },
        NodeV::Block(b) => loops_to_list(b, 0, iv, chain),
        NodeV::Ref(_) => Ok(None),
        NodeV::Branch(..) => Err(()),
    }
}

pub open spec fn loops_to_list(s: Seq<NodeV>, j: int, iv: Seq<char>, chain: Seq<Seq<char>>) -> Result<
    Option<Seq<Seq<char>>>,
    (),
>
    decreases s, s.len() - j,
{
    if j < 0 || j >= s.len() {
        Ok(None)
    } else {
        match loops_to(s[j], iv, chain) {
            Ok(None) => loops_to_list(s, j + 1, iv, chain),
            other => other,
        }
    }
}

fn loops_in_node(n: &Node, iv: &String, chain: &mut Vec<String>) -> (r: Result<bool, ()>)
    ensures
        match loops_to(n@, iv@, strings_view(old(chain)@)) {
            Ok(Some(c)) => r == Ok::<bool, ()>(true) && strings_view(final(chain)@) == c,
            Ok(None) => r == Ok::<bool, ()>(false) && final(chain)@ == old(chain)@,
            Err(_) => r is Err,
        },
    decreases n,
{
    match &n.stmt {
        Stmt::Loop(l) => {
            let ghost c0 = chain@;
            chain.push(l.iv.clone());
            proof {
                assert(strings_view(chain@) =~= strings_view(c0).push(l.iv@));
            }
            if l.iv.eq(iv) {
                return Ok(true);
            }
            proof {
                lemma_nodes_view(l.body@);
            }
            match loops_in_list(&l.body, iv, chain) {
                Ok(true) => Ok(true),
                Ok(false) => {
                    chain.pop();
                    proof {
                        assert(chain@ =~= c0);
                    }
                    Ok(false)
                },
                Err(e) => Err(e),
            }
        },
        Stmt::Block(b) => {
            proof {
                lemma_nodes_view(b@);
            }
            loops_in_list(b, iv, chain)
        },
        Stmt::Ref(_) => Ok(false),
        Stmt::Branch(_) => Err(()),
    }
}

fn loops_in_list(v: &Vec<Node>, iv: &String, chain: &mut Vec<String>) -> (r: Result<bool, ()>)
    ensures
        match loops_to_list(nodes_view(v@), 0, iv@, strings_view(old(chain)@)) {
            Ok(Some(c)) => r == Ok::<bool, ()>(true) && strings_view(final(chain)@) == c,
            Ok(None) => r == Ok::<bool, ()>(false) && final(chain)@ == old(chain)@,
            Err(_) => r is Err,
        },
    decreases v,
{
    let ghost orig = nodes_view(v@);
    let ghost ch = strings_view(chain@);
    proof {
        lemma_nodes_view(v@);
    }
    let mut j: usize = 0;
    while j < v.len()
        invariant
            j <= v@.len(),
            orig == nodes_view(v@),
            orig.len() == v@.len(),
            forall|k: int| 0 <= k < orig.len() ==> #[trigger] orig[k] == node_view(v@[k]),
            chain@ == old(chain)@,
            ch == strings_view(old(chain)@),
            loops_to_list(orig, 0, iv@, ch) == loops_to_list(orig, j as int, iv@, ch),
        decreases v@.len() - j,
    {
        match loops_in_node(&v[j], iv, chain) {
            Ok(true) => {
                return Ok(true);
            },
            Ok(false) => {},
            Err(e) => {
                return Err(e);
            },
        }
        j = j + 1;
    }
    Ok(false)
}

/// The induction variables of the loops from `root` down to the first loop
/// named `iv` met in a depth-first search, outermost first. Fails with
/// `InsertionFailure` where no loop of that name is reached, and with
/// `UnsupportedControl` where the search meets a branch first.
pub fn get_loops_indices(root: &Node, iv: &str) -> (r: Result<Vec<String>, BuildError>)
    ensures
        match loops_to(root@, iv@, Seq::empty()) {
            Ok(Some(c)) => r is Ok && strings_view(r.unwrap()@) == c,
            Ok(None) => r matches Err(BuildError::InsertionFailure { .. }),
            Err(_) => r matches Err(BuildError::UnsupportedControl),
        },
{
    let target = String::from_str(iv);
    let mut chain: Vec<String> = Vec::new();
    proof {
        assert(strings_view(chain@) =~= Seq::<Seq<char>>::empty());
    }
    match loops_in_node(root, &target, &mut chain) {
        Ok(true) => Ok(chain),
        Ok(false) => Err(BuildError::InsertionFailure { iv: target }),
        Err(_) => Err(BuildError::UnsupportedControl),
    }
}

/// The larger of two heights.
pub open spec fn max_nat(a: nat, b: nat) -> nat {
    if a >= b {
        a
    } else {
        b
    }
}

/// `n` with each loop ranked by the height of the loops below it (0 for a
/// loop with no loop inside), and the height of `n` itself: one more than
/// its body's for a loop, its children's greatest for a block, 0 otherwise.
pub open spec fn rev_node(n: NodeV) -> (NodeV, nat)
    decreases n,
{
    match n {
        NodeV::Loop(l) => {
            let (b, h) = rev_list(l.body);
            (NodeV::Loop(LoopV { rank: h as usize, body: b, ..l }), succ(h))
        },
        NodeV::Block(b) => {
            let (b2, h) = rev_list(b);
            (NodeV::Block(b2), h)
        },
        _ => (n, 0),
    }
}

pub open spec fn rev_list(s: Seq<NodeV>) -> (Seq<NodeV>, nat)
    decreases s,
{
    if s.len() == 0 {
        (s, 0)
    } else {
        let (h, a) = rev_node(s[0]);
        let (t, b) = rev_list(s.drop_first());
        (seq![h] + t, max_nat(a, b))
    }
}

proof fn lemma_rev_list(s: Seq<NodeV>)
    ensures
        rev_list(s).0.len() == s.len(),
        forall|k: int| 0 <= k < s.len() ==> #[trigger] rev_list(s).0[k] == rev_node(s[k]).0,
        rev_list(s).1 <= usize::MAX,
        forall|k: int| 0 <= k < s.len() ==> rev_node(#[trigger] s[k]).1 <= rev_list(s).1,
        s.len() > 0 ==> exists|k: int| 0 <= k < s.len() && rev_node(#[trigger] s[k]).1 == rev_list(s).1,
    decreases s,
{
    if s.len() > 0 {
        lemma_rev_list(s.drop_first());
        lemma_rev_node_bound(s[0]);
        assert forall|k: int| 0 <= k < s.len() implies #[trigger] rev_list(s).0[k] == rev_node(s[k]).0 by {
            if k > 0 {
                assert(s.drop_first()[k - 1] == s[k]);
            }
        }
        assert forall|k: int| 0 <= k < s.len() implies rev_node(#[trigger] s[k]).1 <= rev_list(s).1 by {
            if k > 0 {
                assert(s.drop_first()[k - 1] == s[k]);
            }
        }
        if rev_list(s).1 != rev_node(s[0]).1 {
            let k = choose|k: int| 0 <= k < s.len() - 1 && rev_node(#[trigger] s.drop_first()[k]).1 == rev_list(s.drop_first()).1;
            assert(s.drop_first()[k] == s[k + 1]);
        }
    }
}

proof fn lemma_rev_node_bound(n: NodeV)
    ensures
        rev_node(n).1 <= usize::MAX,
    decreases n,
{
    match n {
        NodeV::Loop(l) => lemma_rev_list(l.body),
        NodeV::Block(b) => lemma_rev_list(b),
        _ => {},
    }
}

fn rev_in_node(n: &mut Node) -> (h: usize)
    ensures
        (final(n)@, h as nat) == rev_node(old(n)@),
    decreases *old(n),
{
    match &mut n.stmt {
        Stmt::Loop(l) => {
            let h = rev_in_list(&mut l.body);
            l.rank = h;
            if h < usize::MAX {
                h + 1
            } else {
                h
            }
        },
        Stmt::Block(b) => rev_in_list(b),
        _ => 0,
    }
}

fn rev_in_list(v: &mut Vec<Node>) -> (h: usize)
    ensures
        (nodes_view(final(v)@), h as nat) == rev_list(nodes_view(old(v)@)),
    decreases *old(v),
{
    let ghost orig = nodes_view(v@);
    proof {
        lemma_nodes_view(v@);
        lemma_rev_list(orig);
    }
    let mut best: usize = 0;
    let mut j: usize = 0;
    while j < v.len()
        invariant
            j <= v@.len(),
            old(v)@.len() == v@.len(),
            orig == nodes_view(old(v)@),
            orig.len() == v@.len(),
            rev_list(orig).0.len() == orig.len(),
            forall|k: int| 0 <= k < orig.len() ==> #[trigger] rev_list(orig).0[k] == rev_node(orig[k]).0,
            forall|k: int| 0 <= k < orig.len() ==> #[trigger] orig[k] == node_view(old(v)@[k]),
            forall|k: int| j <= k < v@.len() ==> #[trigger] v@[k] == old(v)@[k],
            forall|k: int| 0 <= k < j ==> #[trigger] node_view(v@[k]) == rev_node(orig[k]).0,
            forall|k: int| 0 <= k < j ==> rev_node(#[trigger] orig[k]).1 <= best,
            j == 0 ==> best == 0,
            j > 0 ==> exists|k: int| 0 <= k < j && rev_node(#[trigger] orig[k]).1 == best,
        decreases v@.len() - j,
    {
        let ghost before = v@;
        proof {
            vstd::std_specs::vec::axiom_vec_index_decreases(*old(v), j as int);
        }
        let h = rev_in_node(&mut v[j]);
        proof {
            assert(v@.len() == before.len());
            assert(forall|k: int| 0 <= k < v@.len() && k != j ==> v@[k] == before[k]);
        }
        if h > best {
            best = h;
        }
        j = j + 1;
    }
    proof {
        lemma_nodes_view_eq(v@, rev_list(orig).0);
        lemma_rev_max(orig, best as nat);
    }
    best
}

/// The height of a list is the greatest height of its nodes (0 if empty).
proof fn lemma_rev_max(s: Seq<NodeV>, m: nat)
    requires
        forall|k: int| 0 <= k < s.len() ==> rev_node(#[trigger] s[k]).1 <= m,
        s.len() == 0 ==> m == 0,
        s.len() > 0 ==> exists|k: int| 0 <= k < s.len() && rev_node(#[trigger] s[k]).1 == m,
    ensures
        rev_list(s).1 == m,
{
    lemma_rev_list(s);
    if s.len() > 0 {
        let k = choose|k: int| 0 <= k < s.len() && rev_node(#[trigger] s[k]).1 == m;
        let k2 = choose|k: int| 0 <= k < s.len() && rev_node(#[trigger] s[k]).1 == rev_list(s).1;
        assert(rev_node(s[k]).1 <= rev_list(s).1);
        assert(rev_node(s[k2]).1 <= m);
    }
}

/// Ranks every loop of `node` by the height of the loops below it (a loop
/// with no loop inside gets 0) and returns the height of `node`: one more
/// than its body's for a loop, the greatest of its children's for a block,
/// 0 otherwise.
pub fn assign_ranks_reverse(node: &mut Node) -> (r: usize)
    ensures
        (final(node)@, r as nat) == rev_node(old(node)@),
{
    rev_in_node(node)
}

/// Appends a copy of `node` to the loop `a_loop` itself; an access built
/// from index names gets its subscript from that loop.
pub fn insert_node(a_loop: &mut Node, node: &Node) -> (r: Result<(), BuildError>)
    ensures
        old(a_loop)@ is Loop ==> match ins_node(old(a_loop)@, node@, old(a_loop)@->Loop_0.iv, Seq::empty()) {
            Ok(Some(t)) => r is Ok && final(a_loop)@ == t,
            Ok(None) => false,
            Err(f) => final(a_loop)@ == old(a_loop)@ && r is Err && fails_as(r.unwrap_err(), f),
        },
        !(old(a_loop)@ is Loop) ==> final(a_loop)@ == old(a_loop)@ && r matches Err(BuildError::NotALoop),
{
    let name = match &a_loop.stmt {
        Stmt::Loop(l) => l.iv.clone(),
        _ => {
            return Err(BuildError::NotALoop);
        },
    };
    match insert_at(node, a_loop, name.as_str()) {
        Ok(()) => Ok(()),
        Err(e) => Err(e),
    }
}

/// Appending a node to a list adds its nodes to the list's preorder.
pub proof fn lemma_preorder_list_push(s: Seq<NodeV>, c: NodeV)
    ensures
        preorder_list(s.push(c)).len() == preorder_list(s).len() + preorder(c).len(),
    decreases s.len(),
{
    let t = s.push(c);
    if s.len() == 0 {
        assert(t.drop_first() =~= Seq::<NodeV>::empty());
        assert(preorder_list(Seq::<NodeV>::empty()).len() == 0);
    } else {
        assert(t.drop_first() =~= s.drop_first().push(c));
        lemma_preorder_list_push(s.drop_first(), c);
    }
}

/// Replacing one node of a list changes its preorder by the difference.
proof fn lemma_preorder_list_update(s: Seq<NodeV>, j: int, h: NodeV)
    requires
        0 <= j < s.len(),
    ensures
        preorder_list(s.update(j, h)).len() + preorder(s[j]).len() == preorder_list(s).len() + preorder(h).len(),
    decreases s.len(),
{
    let t = s.update(j, h);
    if j > 0 {
        assert(t.drop_first() =~= s.drop_first().update(j - 1, h));
        lemma_preorder_list_update(s.drop_first(), j - 1, h);
    } else {
        assert(t.drop_first() =~= s.drop_first());
    }
}

/// A node placed by insertion has as many nodes as before.
proof fn lemma_prepared_size(x: NodeV, chain: Seq<Seq<char>>)
    ensures
        prepared(x, chain) is Ok ==> preorder(prepared(x, chain)->Ok_0).len() == preorder(x).len(),
{
}

/// Insertion adds the inserted node's nodes, and keeps the kind of the root.
pub proof fn lemma_ins_size(n: NodeV, x: NodeV, iv: Seq<char>, chain: Seq<Seq<char>>)
    ensures
        ins_node(n, x, iv, chain) matches Ok(Some(t)) ==> preorder(t).len() == preorder(n).len() + preorder(x).len()
            && (n is Loop ==> t is Loop) && (n is Block ==> t is Block),
    decreases n, 0int,
{
    match n {
        NodeV::Loop(l) => {
            if l.iv == iv {
                lemma_prepared_size(x, chain.push(l.iv));
                if prepared(x, chain.push(l.iv)) is Ok {
                    lemma_preorder_list_push(l.body, prepared(x, chain.push(l.iv))->Ok_0);
                }
            } else {
                lemma_ins_list_size(l.body, 0, x, iv, chain.push(l.iv));
            }
        },
        NodeV::Block(b) => lemma_ins_list_size(b, 0, x, iv, chain),
        _ => {},
    }
}

proof fn lemma_ins_list_size(s: Seq<NodeV>, j: int, x: NodeV, iv: Seq<char>, chain: Seq<Seq<char>>)
    ensures
        ins_list(s, j, x, iv, chain) matches Ok(Some(t)) ==> preorder_list(t).len() == preorder_list(s).len()
            + preorder(x).len(),
    decreases s, s.len() - j,
{
    if 0 <= j < s.len() {
        lemma_ins_size(s[j], x, iv, chain);
        match ins_node(s[j], x, iv, chain) {
            Ok(Some(h)) => lemma_preorder_list_update(s, j, h),
            Ok(None) => lemma_ins_list_size(s, j + 1, x, iv, chain),
            Err(_) => {},
        }
    }
}

/// Ranking keeps every node and the kind of the root.
pub proof fn lemma_ranks_size(n: NodeV, r: nat)
    ensures
        preorder(ranks_node(n, r)).len() == preorder(n).len(),
        n is Loop ==> ranks_node(n, r) is Loop,
        n is Block ==> ranks_node(n, r) is Block,
    decreases n,
{
    match n {
        NodeV::Loop(l) => lemma_ranks_list_size(l.body, succ(r)),
        NodeV::Block(b) => lemma_ranks_list_size(b, r),
        _ => {},
    }
}

proof fn lemma_ranks_list_size(s: Seq<NodeV>, r: nat)
    ensures
        preorder_list(ranks_list(s, r)).len() == preorder_list(s).len(),
    decreases s,
{
    if s.len() > 0 {
        lemma_ranks_size(s[0], r);
        lemma_ranks_list_size(s.drop_first(), r);
        let t = ranks_list(s, r);
        assert(t[0] == ranks_node(s[0], r));
        assert(t.drop_first() =~= ranks_list(s.drop_first(), r));
    }
}

} // verus!
