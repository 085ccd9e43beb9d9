//! The loop-nest program tree.
use vstd::prelude::*;

verus! {

broadcast use vstd::std_specs::vec::group_vec_axioms;

/// An index expression over the iteration vector (outermost loop first).
///
/// It describes one subscript of an array access, a dynamic loop bound, or
/// one side of a branch condition. Values are integers; loop values may be
/// negative.
#[derive(Debug)]
pub enum IdxExpr {
    /// The value of the enclosing loop at this position of the iteration vector.
    Iv(usize),
    /// A constant.
    Lit(i64),
    Add(Box<IdxExpr>, Box<IdxExpr>),
    Sub(Box<IdxExpr>, Box<IdxExpr>),
    /// Multiplication by a constant.
    Mul(Box<IdxExpr>, i64),
    /// Division by a positive constant, rounding down; a divisor of zero or
    /// less is an error.
    Div(Box<IdxExpr>, i64),
}

/// `v` fits in an `i64`.
pub open spec fn fits(v: int) -> bool {
    i64::MIN <= v <= i64::MAX
}

/// `x / d` rounded down, for `d > 0`.
pub open spec fn floor_div(x: int, d: int) -> int {
    if x >= 0 {
        x / d
    } else {
        -((-x + d - 1) / d)
    }
}

impl IdxExpr {
    /// The value of the expression at `iv`, or `None` where it is undefined
    /// (a position outside `iv`, a divisor of zero or less, or an
    /// intermediate value beyond `i64`).
    pub open spec fn value(self, iv: Seq<i32>) -> Option<int>
        decreases self,
    {
        match self {
            IdxExpr::Iv(p) => if p < iv.len() {
                Some(iv[p as int] as int)
            } else {
                None
            },
            IdxExpr::Lit(c) => Some(c as int),
            IdxExpr::Add(a, b) => match (a.value(iv), b.value(iv)) {
                (Some(x), Some(y)) => if fits(x + y) {
                    Some(x + y)
                } else {
                    None
                },
                _ => None,
            },
            IdxExpr::Sub(a, b) => match (a.value(iv), b.value(iv)) {
                (Some(x), Some(y)) => if fits(x - y) {
                    Some(x - y)
                } else {
                    None
                },
                _ => None,
            },
            IdxExpr::Mul(a, k) => match a.value(iv) {
                Some(x) => if fits(x * k) {
                    Some(x * k)
                } else {
                    None
                },
                None => None,
            },
            IdxExpr::Div(a, d) => match a.value(iv) {
                Some(x) => if d > 0 && fits(x) {
                    Some(floor_div(x, d as int))
                } else {
                    None
                },
                None => None,
            },
        }
    }

    /// Evaluates the expression at the iteration vector `iv`.
    pub fn eval(&self, iv: &[i32]) -> (r: Option<i64>)
        ensures
            r is Some <==> self.value(iv@) is Some,
            r is Some ==> r.unwrap() as int == self.value(iv@).unwrap(),
        decreases self,
    {
        proof {
            self.lemma_value_fits(iv@);
        }
        match self {
            IdxExpr::Iv(p) => {
                if *p < iv.len() {
                    Some(iv[*p] as i64)
                } else {
                    None
                }
            },
            IdxExpr::Lit(c) => Some(*c),
            IdxExpr::Add(a, b) => match (a.eval(iv), b.eval(iv)) {
                (Some(x), Some(y)) => x.checked_add(y),
                _ => None,
            },
            IdxExpr::Sub(a, b) => match (a.eval(iv), b.eval(iv)) {
                (Some(x), Some(y)) => x.checked_sub(y),
                _ => None,
            },
            IdxExpr::Mul(a, k) => match a.eval(iv) {
                Some(x) => x.checked_mul(*k),
                None => None,
            },
            IdxExpr::Div(a, d) => match a.eval(iv) {
                Some(x) => if *d > 0 {
                    if x >= 0 {
                        Some(x / *d)
                    } else {
                        let q: i128 = (-(x as i128) + (*d as i128) - 1) / (*d as i128);
                        proof {
                            assert(0 <= q <= -(x as int)) by (nonlinear_arith)
                                requires
                                    q == (-(x as int) + (*d as int) - 1) / (*d as int),
                                    x < 0,
                                    *d > 0,
                            ;
                        }
                        Some((-q) as i64)
                    }
                } else {
                    None
                },
                None => None,
            },
        }
    }

    /// Defined values fit in an `i64`.
    pub proof fn lemma_value_fits(self, iv: Seq<i32>)
        ensures
            self.value(iv) is Some ==> fits(self.value(iv).unwrap()),
        decreases self,
    {
        match self {
            IdxExpr::Div(a, d) => {
                a.lemma_value_fits(iv);
                if self.value(iv) is Some {
                    let x = a.value(iv).unwrap();
                    let dd = d as int;
                    if x >= 0 {
                        assert(0 <= x / dd <= x) by (nonlinear_arith)
                            requires
                                x >= 0,
                                dd > 0,
                        ;
                    } else {
                        assert(0 <= (-x + dd - 1) / dd <= -x) by (nonlinear_arith)
                            requires
                                x < 0,
                                dd > 0,
                        ;
                    }
                }
            },
            _ => {},
        }
    }
}

/// A bound of a loop: a constant, or a function of the enclosing iteration
/// vector (for triangular nests).
#[derive(Debug)]
pub enum LoopBound {
    Fixed(i32),
    Dynamic(IdxExpr),
}

/// An array access.
#[derive(Debug)]
pub struct AryRef {
    pub name: String,
    /// Extents of the dimensions, outermost first.
    pub dim: Vec<usize>,
    /// Names of the loops the access depends on, for an access whose
    /// subscript is derived from its enclosing loops; `None` for one built
    /// with explicit subscript expressions.
    pub indices: Option<Vec<String>>,
    /// One expression per dimension, computing the subscript from the
    /// iteration vector.
    pub sub: Vec<IdxExpr>,
    /// Start of the array in the packed address space, once assigned.
    pub base: Option<usize>,
    /// Identifier of the access, once assigned.
    pub ref_id: Option<usize>,
}

#[derive(Debug)]
pub struct LoopStmt {
    /// Name of the induction variable.
    pub iv: String,
    pub lb: LoopBound,
    pub ub: LoopBound,
    pub body: Vec<Node>,
    /// Nesting position, set by the rank-assignment pass.
    pub rank: usize,
    /// Whether the loop counts down, from `lb` to just above `ub`.
    pub descending: bool,
}

#[derive(Clone, Copy, Debug)]
pub enum CmpOp {
    Lt,
    Le,
    Eq,
    Ne,
}

/// A comparison of two index expressions, and possibly a further
/// condition that must hold too.
#[derive(Debug)]
pub struct Cond {
    pub lhs: IdxExpr,
    pub op: CmpOp,
    pub rhs: IdxExpr,
    /// A condition that must also hold.
    pub and: Option<Box<Cond>>,
}

#[derive(Debug)]
pub struct BranchStmt {
    pub cond: Cond,
    pub then_body: Box<Node>,
    pub else_body: Option<Box<Node>>,
}

#[derive(Debug)]
pub enum Stmt {
    Ref(AryRef),
    Loop(LoopStmt),
    Block(Vec<Node>),
    Branch(BranchStmt),
}

#[derive(Debug)]
pub struct Node {
    pub stmt: Stmt,
}

/// The view of an array access.
pub struct RefV {
    pub name: Seq<char>,
    pub dim: Seq<usize>,
    pub indices: Option<Seq<Seq<char>>>,
    pub sub: Seq<IdxExpr>,
    pub base: Option<usize>,
    pub ref_id: Option<usize>,
}

/// The view of a loop.
pub struct LoopV {
    pub iv: Seq<char>,
    pub lb: LoopBound,
    pub ub: LoopBound,
    pub body: Seq<NodeV>,
    pub rank: usize,
    pub descending: bool,
}

/// The view of a tree node: strings as character sequences, child lists
/// as sequences.
pub enum NodeV {
    Ref(RefV),
    Loop(LoopV),
    Block(Seq<NodeV>),
    Branch(Cond, Box<NodeV>, Option<Box<NodeV>>),
}

pub open spec fn strings_view(s: Seq<String>) -> Seq<Seq<char>> {
    s.map_values(|x: String| x@)
}

impl AryRef {
    pub open spec fn view(self) -> RefV {
        RefV {
            name: self.name@,
            dim: self.dim@,
            indices: match self.indices {
                Some(v) => Some(strings_view(v@)),
                None => None,
            },
            sub: self.sub@,
            base: self.base,
            ref_id: self.ref_id,
        }
    }
}

pub open spec fn node_view(n: Node) -> NodeV
    decreases n,
{
    match n.stmt {
        Stmt::Ref(r) => NodeV::Ref(r.view()),
        Stmt::Loop(l) => NodeV::Loop(
            LoopV { iv: l.iv@, lb: l.lb, ub: l.ub, body: nodes_view(l.body@), rank: l.rank, descending: l.descending },
        ),
        Stmt::Block(b) => NodeV::Block(nodes_view(b@)),
        Stmt::Branch(br) => NodeV::Branch(
            br.cond,
            Box::new(node_view(*br.then_body)),
            match br.else_body {
                Some(e) => Some(Box::new(node_view(*e))),
                None => None,
            },
        ),
    }
}

pub open spec fn nodes_view(s: Seq<Node>) -> Seq<NodeV>
    decreases s,
{
    if s.len() == 0 {
        Seq::empty()
    } else {
        nodes_view(s.drop_last()).push(node_view(s.last()))
    }
}

pub proof fn lemma_nodes_view(s: Seq<Node>)
    ensures
        nodes_view(s).len() == s.len(),
        forall|i: int| 0 <= i < s.len() ==> #[trigger] nodes_view(s)[i] == node_view(s[i]),
    decreases s.len(),
{
    if s.len() > 0 {
        lemma_nodes_view(s.drop_last());
        assert forall|i: int| 0 <= i < s.len() implies #[trigger] nodes_view(s)[i] == node_view(s[i]) by {
            if i < s.len() - 1 {
                assert(s.drop_last()[i] == s[i]);
            }
        }
    }
}

/// The view of a list of nodes is the list of their views.
pub proof fn lemma_nodes_view_eq(s: Seq<Node>, t: Seq<NodeV>)
    requires
        t.len() == s.len(),
        forall|i: int| 0 <= i < s.len() ==> t[i] == node_view(#[trigger] s[i]),
    ensures
        nodes_view(s) == t,
{
    lemma_nodes_view(s);
    assert(nodes_view(s) =~= t);
}

impl View for Node {
    type V = NodeV;

    open spec fn view(&self) -> NodeV {
        node_view(*self)
    }
}

/// The nodes of `n` in execution order: a node, then its children in order.
pub open spec fn preorder(n: NodeV) -> Seq<NodeV>
    decreases n,
{
    match n {
        NodeV::Ref(_) => seq![n],
        NodeV::Loop(l) => seq![n] + preorder_list(l.body),
        NodeV::Block(b) => seq![n] + preorder_list(b),
        NodeV::Branch(_, t, e) => seq![n] + preorder(*t) + match e {
            Some(e) => preorder(*e),
            None => Seq::empty(),
        },
    }
}

/// The preorders of the nodes of `s`, one after another.
pub open spec fn preorder_list(s: Seq<NodeV>) -> Seq<NodeV>
    decreases s,
{
    if s.len() == 0 {
        Seq::empty()
    } else {
        preorder(s[0]) + preorder_list(s.drop_first())
    }
}

impl Node {
    /// The number of nodes in the tree.
    pub fn node_count(&self) -> (r: usize)
        requires
            preorder(self@).len() <= usize::MAX,
        ensures
            r == preorder(self@).len(),
        decreases self,
    {
        match &self.stmt {
            Stmt::Ref(_) => 1,
            Stmt::Loop(l) => {
                proof {
                    lemma_nodes_view(l.body@);
                }
                1 + count_list(&l.body)
            },
            Stmt::Block(b) => {
                proof {
                    lemma_nodes_view(b@);
                }
                1 + count_list(b)
            },
            Stmt::Branch(br) => {
                let t = br.then_body.node_count();
                match &br.else_body {
                    Some(e) => t + e.node_count() + 1,
                    None => t + 1,
                }
            },
        }
    }
}

fn count_list(v: &Vec<Node>) -> (r: usize)
    requires
        preorder_list(nodes_view(v@)).len() < usize::MAX,
    ensures
        r == preorder_list(nodes_view(v@)).len(),
    decreases v,
{
    let ghost vs = nodes_view(v@);
    proof {
        lemma_nodes_view(v@);
    }
    let mut total: usize = 0;
    let mut i: usize = 0;
    assert(vs.subrange(0, vs.len() as int) =~= vs);
    while i < v.len()
        invariant
            i <= v.len(),
            vs == nodes_view(v@),
            vs.len() == v@.len(),
            forall|k: int| 0 <= k < v@.len() ==> #[trigger] vs[k] == node_view(v@[k]),
            preorder_list(vs).len() < usize::MAX,
            total + preorder_list(vs.subrange(i as int, vs.len() as int)).len() == preorder_list(vs).len(),
        decreases v.len() - i,
    {
        assert(vs.subrange(i as int, vs.len() as int).drop_first() =~= vs.subrange(i + 1, vs.len() as int));
        total = total + v[i].node_count();
        i = i + 1;
    }
    total
}

impl Clone for IdxExpr {
    fn clone(&self) -> (r: Self)
        ensures
            r == *self,
        decreases self,
    {
        match self {
            IdxExpr::Iv(p) => IdxExpr::Iv(*p),
            IdxExpr::Lit(c) => IdxExpr::Lit(*c),
            IdxExpr::Add(a, b) => IdxExpr::Add(Box::new((**a).clone()), Box::new((**b).clone())),
            IdxExpr::Sub(a, b) => IdxExpr::Sub(Box::new((**a).clone()), Box::new((**b).clone())),
            IdxExpr::Mul(a, k) => IdxExpr::Mul(Box::new((**a).clone()), *k),
            IdxExpr::Div(a, d) => IdxExpr::Div(Box::new((**a).clone()), *d),
        }
    }
}

impl Clone for LoopBound {
    fn clone(&self) -> (r: Self)
        ensures
            r == *self,
    {
        match self {
            LoopBound::Fixed(c) => LoopBound::Fixed(*c),
            LoopBound::Dynamic(e) => LoopBound::Dynamic(e.clone()),
        }
    }
}

impl Clone for Cond {
    fn clone(&self) -> (r: Self)
        ensures
            r == *self,
        decreases self,
    {
        let and = match &self.and {
            Some(c) => Some(Box::new((**c).clone())),
            None => None,
        };
        Cond { lhs: self.lhs.clone(), op: self.op, rhs: self.rhs.clone(), and }
    }
}

/// A copy of the expressions of `v`.
pub fn copy_exprs(v: &Vec<IdxExpr>) -> (r: Vec<IdxExpr>)
    ensures
        r@ == v@,
{
    let mut r: Vec<IdxExpr> = Vec::new();
    let mut i: usize = 0;
    while i < v.len()
        invariant
            i <= v@.len(),
            r@ == v@.subrange(0, i as int),
        decreases v@.len() - i,
    {
        r.push(v[i].clone());
        i = i + 1;
        assert(r@ =~= v@.subrange(0, i as int));
    }
    assert(v@.subrange(0, i as int) =~= v@);
    r
}

/// A copy of the strings of `v`.
pub fn copy_strings(v: &Vec<String>) -> (r: Vec<String>)
    ensures
        r@ == v@,
{
    let mut r: Vec<String> = Vec::new();
    let mut i: usize = 0;
    while i < v.len()
        invariant
            i <= v@.len(),
            r@ == v@.subrange(0, i as int),
        decreases v@.len() - i,
    {
        r.push(v[i].clone());
        i = i + 1;
        assert(r@ =~= v@.subrange(0, i as int));
    }
    assert(v@.subrange(0, i as int) =~= v@);
    r
}

/// A copy of the extents of `v`.
pub fn copy_dims(v: &Vec<usize>) -> (r: Vec<usize>)
    ensures
        r@ == v@,
{
    let mut r: Vec<usize> = Vec::new();
    let mut i: usize = 0;
    while i < v.len()
        invariant
            i <= v@.len(),
            r@ == v@.subrange(0, i as int),
        decreases v@.len() - i,
    {
        r.push(v[i]);
        i = i + 1;
        assert(r@ =~= v@.subrange(0, i as int));
    }
    assert(v@.subrange(0, i as int) =~= v@);
    r
}

impl Clone for AryRef {
    fn clone(&self) -> (r: Self)
        ensures
            r@ == self@,
    {
        AryRef {
            name: self.name.clone(),
            dim: copy_dims(&self.dim),
            indices: match &self.indices {
                Some(v) => Some(copy_strings(v)),
                None => None,
            },
            sub: copy_exprs(&self.sub),
            base: self.base,
            ref_id: self.ref_id,
        }
    }
}

impl Clone for Node {
    /// An independent copy of the tree.
    fn clone(&self) -> (r: Self)
        ensures
            r@ == self@,
        decreases self,
    {
        match &self.stmt {
            Stmt::Ref(a) => Node { stmt: Stmt::Ref(a.clone()) },
            Stmt::Loop(l) => Node {
                stmt: Stmt::Loop(
                    LoopStmt {
                        iv: l.iv.clone(),
                        lb: l.lb.clone(),
                        ub: l.ub.clone(),
                        body: copy_nodes(&l.body),
                        rank: l.rank,
                        descending: l.descending,
                    },
                ),
            },
            Stmt::Block(b) => Node { stmt: Stmt::Block(copy_nodes(b)) },
            Stmt::Branch(br) => Node {
                stmt: Stmt::Branch(
                    BranchStmt {
                        cond: br.cond.clone(),
                        then_body: Box::new((*br.then_body).clone()),
                        else_body: match &br.else_body {
                            Some(e) => Some(Box::new((**e).clone())),
                            None => None,
                        },
                    },
                ),
            },
        }
    }
}

/// Copies of the nodes of `v`.
fn copy_nodes(v: &Vec<Node>) -> (r: Vec<Node>)
    ensures
        nodes_view(r@) == nodes_view(v@),
    decreases v,
{
    let mut r: Vec<Node> = Vec::new();
    let mut i: usize = 0;
    while i < v.len()
        invariant
            i <= v@.len(),
            r@.len() == i,
            forall|k: int| 0 <= k < i ==> node_view(#[trigger] r@[k]) == node_view(v@[k]),
        decreases v@.len() - i,
    {
        r.push(v[i].clone());
        i = i + 1;
    }
    proof {
        lemma_nodes_view(v@);
        lemma_nodes_view_eq(r@, nodes_view(v@));
    }
    r
}

} // verus!
