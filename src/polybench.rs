//! Loop nests of well-known dense linear-algebra and stencil kernels, built
//! with the tree builder.
use vstd::prelude::*;
use crate::ast::{CmpOp, Cond, IdxExpr, LoopBound, Node, NodeV, nodes_view, preorder, preorder_list};
use crate::hist::Hist;
use crate::trace::{TraceError, hist_count, run_node, tracing_ri};
use crate::construct::{
    BuildError, a_ref, deepest, generate_subscript, insert_at, insert_at_innermost, lemma_ins_size,
    lemma_preorder_list_push, lemma_ranks_size, ranks_node,
};

verus! {

/// The number of nodes of `n`.
pub open spec fn size(n: NodeV) -> nat {
    preorder(n).len()
}

/// Inserts an access to `name` that depends on the loops `ind`.
fn put(head: &mut Node, name: &str, dims: Vec<usize>, ind: Vec<&str>, iv: &str) -> (r: Result<(), BuildError>)
    requires
        old(head)@ is Loop || old(head)@ is Block,
    ensures
        r is Ok ==> size(final(head)@) == size(old(head)@) + 1 && (old(head)@ is Loop ==> final(head)@ is Loop) && (
        old(head)@ is Block ==> final(head)@ is Block),
{
    put_node(head, &a_ref(name, dims, ind), iv)
}

/// Inserts a copy of `x` into the first loop named `iv`.
fn put_node(head: &mut Node, x: &Node, iv: &str) -> (r: Result<(), BuildError>)
    requires
        old(head)@ is Loop || old(head)@ is Block,
    ensures
        r is Ok ==> size(final(head)@) == size(old(head)@) + size(x@) && (old(head)@ is Loop ==> final(head)@ is Loop)
            && (old(head)@ is Block ==> final(head)@ is Block),
{
    proof {
        lemma_ins_size(head@, x@, iv@, Seq::empty());
    }
    insert_at(x, head, iv)
}

/// Inserts an access to `name` into the innermost loop of `head`.
fn put_innermost(head: &mut Node, name: &str, dims: Vec<usize>, ind: Vec<&str>) -> (r: Result<(), BuildError>)
    requires
        old(head)@ is Loop,
    ensures
        r is Ok ==> size(final(head)@) == size(old(head)@) + 1 && final(head)@ is Loop,
{
    put_node_innermost(head, &a_ref(name, dims, ind))
}

/// Inserts a copy of `x` into the innermost loop of `head`.
fn put_node_innermost(head: &mut Node, x: &Node) -> (r: Result<(), BuildError>)
    requires
        old(head)@ is Loop,
    ensures
        r is Ok ==> size(final(head)@) == size(old(head)@) + size(x@) && final(head)@ is Loop,
{
    proof {
        lemma_ranks_size(head@, 0);
        match deepest(head@, 0) {
            Some(d) => lemma_ins_size(ranks_node(head@, 0), x@, d.0, Seq::empty()),
            None => {},
        }
    }
    match insert_at_innermost(x, head) {
        Ok(_) => Ok(()),
        Err(e) => Err(e),
    }
}

/// Appends an access with explicit subscripts to the loop `lp`.
fn append_ref(lp: &mut Node, name: &str, dims: Vec<usize>, sub: Vec<IdxExpr>)
    requires
        old(lp)@ is Loop,
    ensures
        size(final(lp)@) == size(old(lp)@) + 1 && final(lp)@ is Loop,
{
    child(lp, Node::new_ref(name, dims, sub));
}

/// Appends the node `c` to the loop `lp`.
fn child(lp: &mut Node, c: Node)
    requires
        old(lp)@ is Loop,
    ensures
        size(final(lp)@) == size(old(lp)@) + size(c@) && final(lp)@ is Loop,
{
    proof {
        lemma_preorder_list_push(lp@->Loop_0.body, c@);
    }
    Node::extend_loop_body(lp, c);
}

/// Appends `x` to the list `v`.
fn push_child(v: &mut Vec<Node>, x: Node)
    ensures
        preorder_list(nodes_view(final(v)@)).len() == preorder_list(nodes_view(old(v)@)).len() + size(x@),
{
    proof {
        lemma_preorder_list_push(nodes_view(v@), x@);
    }
    let ghost v0 = v@;
    v.push(x);
    proof {
        assert(v@.drop_last() =~= v0);
    }
}

/// A block of the nodes of `v`.
fn block(v: Vec<Node>) -> (r: Node)
    ensures
        size(r@) == 1 + preorder_list(nodes_view(v@)).len(),
{
    Node::new_block(v)
}

/// An empty list of nodes.
fn no_nodes() -> (r: Vec<Node>)
    ensures
        preorder_list(nodes_view(r@)).len() == 0,
{
    let v: Vec<Node> = Vec::new();
    assert(nodes_view(v@) =~= Seq::<NodeV>::empty());
    v
}

/// A loop over `lb..ub` with an empty body.
fn fixed_loop(name: &str, lb: i32, ub: i32) -> (r: Node)
    ensures
        r@ is Loop && size(r@) == 1,
{
    let r = Node::new_single_loop(name, lb, ub);
    proof {
        lemma_empty_list();
    }
    r
}

/// A loop with the given bounds and an empty body.
fn bounded_loop(name: &str, lb: LoopBound, ub: LoopBound) -> (r: Node)
    ensures
        r@ is Loop && size(r@) == 1,
{
    let r = Node::new_loop(name, lb, ub);
    proof {
        lemma_empty_list();
    }
    r
}

/// A descending loop with the given bounds and an empty body.
fn down_loop(name: &str, lb: LoopBound, ub: LoopBound) -> (r: Node)
    ensures
        r@ is Loop && size(r@) == 1,
{
    let r = Node::new_loop_down(name, lb, ub);
    proof {
        lemma_empty_list();
    }
    r
}

proof fn lemma_empty_list()
    ensures
        preorder_list(Seq::<NodeV>::empty()).len() == 0,
{
}

/// `ivec[p]`.
fn iv(p: usize) -> IdxExpr {
    IdxExpr::Iv(p)
}

/// `ivec[p] + k`.
fn plus(p: usize, k: i64) -> IdxExpr {
    IdxExpr::Add(Box::new(IdxExpr::Iv(p)), Box::new(IdxExpr::Lit(k)))
}

/// `ivec[p] - k`.
fn minus(p: usize, k: i64) -> IdxExpr {
    IdxExpr::Sub(Box::new(IdxExpr::Iv(p)), Box::new(IdxExpr::Lit(k)))
}

/// `ivec[a] * n + ivec[b]`.
fn lin(a: usize, n: usize, b: usize) -> IdxExpr {
    IdxExpr::Add(Box::new(IdxExpr::Mul(Box::new(IdxExpr::Iv(a)), n as i64)), Box::new(IdxExpr::Iv(b)))
}

/// Two perfectly nested loops over `0..ub`.
fn nest2(a: &str, b: &str, ub: i32) -> (r: Result<Node, BuildError>)
    ensures
        r is Ok && size(r.unwrap()@) == 2 && r.unwrap()@ is Loop,
{
    let mut outer = fixed_loop(a, 0, ub);
    child(&mut outer, fixed_loop(b, 0, ub));
    Ok(outer)
}

/// A dynamic bound reading the loop `name` of the nest `indices`.
fn bound_of(indices: &[&str], name: &str) -> LoopBound {
    match generate_subscript(indices, name) {
        Some(e) => LoopBound::Dynamic(e),
        None => LoopBound::Fixed(0),
    }
}

/// LU decomposition, with triangular bounds from the enclosing loops.
pub fn lu(n: usize) -> (r: Result<Node, BuildError>)
    ensures
        r is Ok ==> size(r.unwrap()@) == 16,
{
    let ubound = n as i32;
    let loop_indices = ["i", "j", "k"];
    let mut i_loop = fixed_loop("i", 0, ubound);
    let mut j_lower = bounded_loop("j", LoopBound::Fixed(0), bound_of(&loop_indices, "i"));
    let k_j = bounded_loop("k", LoopBound::Fixed(0), bound_of(&loop_indices, "k"));
    child(&mut j_lower, k_j);
    child(&mut i_loop, j_lower);
    put(&mut i_loop, "A", vec![n, n], vec!["i", "k"], "k")?;
    put(&mut i_loop, "A", vec![n, n], vec!["k", "j"], "k")?;
    put(&mut i_loop, "A", vec![n, n], vec!["i", "j"], "k")?;
    put(&mut i_loop, "A", vec![n, n], vec!["i", "j"], "k")?;
    put(&mut i_loop, "A", vec![n, n], vec!["j", "j"], "j")?;
    put(&mut i_loop, "A", vec![n, n], vec!["i", "j"], "j")?;
    put(&mut i_loop, "A", vec![n, n], vec!["i", "j"], "j")?;
    let mut j_upper = bounded_loop("j", bound_of(&loop_indices, "i"), LoopBound::Fixed(ubound));
    let mut k_i = bounded_loop("k", LoopBound::Fixed(0), bound_of(&loop_indices, "i"));
    append_ref(&mut k_i, "A", vec![n, n], vec![iv(0), iv(2)]);
    append_ref(&mut k_i, "A", vec![n, n], vec![iv(2), iv(1)]);
    append_ref(&mut k_i, "A", vec![n, n], vec![iv(0), iv(1)]);
    append_ref(&mut k_i, "A", vec![n, n], vec![iv(0), iv(1)]);
    child(&mut j_upper, k_i);
    child(&mut i_loop, j_upper);
    Ok(i_loop)
}

/// LU decomposition with affine triangular bounds.
pub fn lu_affine(n: usize) -> (r: Result<Node, BuildError>)
    ensures
        r is Ok ==> size(r.unwrap()@) == 16,
{
    let ubound = n as i32;
    let mut i_loop = fixed_loop("i", 0, ubound);
    let mut j_lower = bounded_loop("j", LoopBound::Fixed(0), LoopBound::Dynamic(iv(0)));
    let k_j = bounded_loop("k", LoopBound::Fixed(0), LoopBound::Dynamic(iv(1)));
    child(&mut j_lower, k_j);
    child(&mut i_loop, j_lower);
    put(&mut i_loop, "A", vec![n, n], vec!["i", "k"], "k")?;
    put(&mut i_loop, "A", vec![n, n], vec!["k", "j"], "k")?;
    put(&mut i_loop, "A", vec![n, n], vec!["i", "j"], "k")?;
    put(&mut i_loop, "A", vec![n, n], vec!["i", "j"], "k")?;
    put(&mut i_loop, "A", vec![n, n], vec!["j", "j"], "j")?;
    put(&mut i_loop, "A", vec![n, n], vec!["i", "j"], "j")?;
    put(&mut i_loop, "A", vec![n, n], vec!["i", "j"], "j")?;
    let mut j_upper = bounded_loop("j", LoopBound::Dynamic(iv(0)), LoopBound::Fixed(ubound));
    let mut k_i = bounded_loop("k", LoopBound::Fixed(0), LoopBound::Dynamic(iv(0)));
    append_ref(&mut k_i, "A", vec![n, n], vec![iv(0), iv(2)]);
    append_ref(&mut k_i, "A", vec![n, n], vec![iv(2), iv(1)]);
    append_ref(&mut k_i, "A", vec![n, n], vec![iv(0), iv(1)]);
    append_ref(&mut k_i, "A", vec![n, n], vec![iv(0), iv(1)]);
    child(&mut j_upper, k_i);
    child(&mut i_loop, j_upper);
    Ok(i_loop)
}

/// Triangular matrix multiply.
pub fn trmm_trace(m: usize, n: usize) -> (r: Result<Node, BuildError>)
    ensures
        r is Ok ==> size(r.unwrap()@) == 8,
{
    let mut i_loop = fixed_loop("i", 0, m as i32);
    let j_loop = fixed_loop("j", 0, n as i32);
    let k_loop = fixed_loop("k", 1, m as i32);
    child(&mut i_loop, j_loop);
    put(&mut i_loop, "B", vec![m, n], vec!["i", "j"], "j")?;
    put_node(&mut i_loop, &k_loop, "j")?;
    put(&mut i_loop, "A", vec![n, m], vec!["k", "i"], "k")?;
    put(&mut i_loop, "B", vec![m, n], vec!["k", "j"], "k")?;
    put(&mut i_loop, "B", vec![m, n], vec!["i", "j"], "k")?;
    put(&mut i_loop, "B", vec![m, n], vec!["i", "j"], "k")?;
    Ok(i_loop)
}

/// Matrix-vector product and transpose, as two nests in one block.
pub fn mvt(n: usize) -> (r: Result<Node, BuildError>)
    ensures
        r is Ok ==> size(r.unwrap()@) == 13,
{
    let ubound: i32 = 10;
    let mut i_loop = nest2("i", "j", ubound)?;
    let mut m_loop = nest2("m", "k", ubound)?;
    put_innermost(&mut i_loop, "x1", vec![n], vec!["i"])?;
    put_innermost(&mut i_loop, "a1", vec![n, n], vec!["i", "j"])?;
    put_innermost(&mut i_loop, "y1", vec![n], vec!["j"])?;
    put_innermost(&mut i_loop, "x1", vec![n], vec!["i"])?;
    put_innermost(&mut m_loop, "x2", vec![n], vec!["m"])?;
    put_innermost(&mut m_loop, "a2", vec![n, n], vec!["k", "m"])?;
    put_innermost(&mut m_loop, "y2", vec![n], vec!["k"])?;
    put_innermost(&mut m_loop, "x2", vec![n], vec!["m"])?;
    Ok({
        let mut v = no_nodes();
        push_child(&mut v, i_loop);
        push_child(&mut v, m_loop);
        block(v)
    })
}

/// Triangular solver.
pub fn trisolv(n: usize) -> (r: Result<Node, BuildError>)
    ensures
        r is Ok ==> size(r.unwrap()@) == 11,
{
    let ubound = n as i32;
    let mut i_loop = fixed_loop("i", 0, ubound);
    let j_loop = bounded_loop("j", LoopBound::Fixed(0), LoopBound::Dynamic(iv(0)));
    put(&mut i_loop, "b", vec![n], vec!["i"], "i")?;
    put(&mut i_loop, "x", vec![n], vec!["i"], "i")?;
    put_node(&mut i_loop, &j_loop, "i")?;
    put(&mut i_loop, "L", vec![n, n], vec!["i", "j"], "j")?;
    put(&mut i_loop, "x", vec![n], vec!["j"], "j")?;
    put(&mut i_loop, "x", vec![n], vec!["i"], "j")?;
    put(&mut i_loop, "x", vec![n], vec!["i"], "j")?;
    put(&mut i_loop, "x", vec![n], vec!["i"], "i")?;
    put(&mut i_loop, "L", vec![n, n], vec!["i", "i"], "i")?;
    put(&mut i_loop, "x", vec![n], vec!["i"], "i")?;
    Ok(i_loop)
}

/// Symmetric rank-k update.
pub fn syrk(n: usize, m: usize) -> (r: Result<Node, BuildError>)
    ensures
        r is Ok ==> size(r.unwrap()@) == 12,
{
    let ubound1 = n as i32;
    let ubound2 = m as i32;
    let mut i_loop = nest2("i", "j", ubound1)?;
    let mut k_loop = nest2("k", "l", ubound1)?;
    let m_loop = fixed_loop("m", 0, ubound2);
    put_innermost(&mut i_loop, "c", vec![n, n], vec!["i", "j"])?;
    put_innermost(&mut i_loop, "c", vec![n, n], vec!["i", "j"])?;
    put_node_innermost(&mut k_loop, &m_loop)?;
    put(&mut k_loop, "a1", vec![n, m], vec!["k", "m"], "m")?;
    put(&mut k_loop, "a2", vec![n, m], vec!["l", "m"], "m")?;
    put(&mut k_loop, "c", vec![n, n], vec!["k", "l"], "m")?;
    put(&mut k_loop, "c", vec![n, n], vec!["k", "l"], "m")?;
    Ok({
        let mut v = no_nodes();
        push_child(&mut v, i_loop);
        push_child(&mut v, k_loop);
        block(v)
    })
}

/// Symmetric rank-2k update.
pub fn syr2d(n: usize, m: usize) -> (r: Result<Node, BuildError>)
    ensures
        r is Ok ==> size(r.unwrap()@) == 12,
{
    let ubound1 = n as i32;
    let ubound2 = m as i32;
    let mut i_loop = fixed_loop("i", 0, ubound1);
    let j_loop = bounded_loop("j", LoopBound::Fixed(0), LoopBound::Dynamic(iv(0)));
    let mut k_loop = fixed_loop("k", 0, ubound2);
    let mut l_loop = bounded_loop("l", LoopBound::Fixed(0), LoopBound::Dynamic(iv(0)));
    child(&mut i_loop, j_loop);
    put(&mut i_loop, "c", vec![n, n], vec!["i", "j"], "j")?;
    put(&mut i_loop, "c", vec![n, n], vec!["i", "j"], "j")?;
    append_ref(&mut l_loop, "a1", vec![n, m], vec![iv(3), iv(2)]);
    append_ref(&mut l_loop, "b1", vec![n, m], vec![iv(0), iv(2)]);
    append_ref(&mut l_loop, "b2", vec![n, m], vec![iv(3), iv(2)]);
    append_ref(&mut l_loop, "a2", vec![n, m], vec![iv(0), iv(2)]);
    append_ref(&mut l_loop, "c1", vec![n, n], vec![iv(0), iv(3)]);
    append_ref(&mut l_loop, "c2", vec![n, n], vec![iv(0), iv(3)]);
    child(&mut k_loop, l_loop);
    child(&mut i_loop, k_loop);
    Ok(i_loop)
}

/// General matrix multiply.
pub fn gemm(n: usize) -> (r: Result<Node, BuildError>)
    ensures
        r is Ok ==> size(r.unwrap()@) == 9,
{
    let ubound = n as i32;
    let mut i_loop = fixed_loop("i", 0, ubound);
    let mut j_loop = fixed_loop("j", 0, ubound);
    let mut k_loop = fixed_loop("k", 0, ubound);
    append_ref(&mut k_loop, "A", vec![n, n], vec![iv(0), iv(2)]);
    append_ref(&mut k_loop, "B", vec![n, n], vec![iv(2), iv(1)]);
    append_ref(&mut k_loop, "C", vec![n, n], vec![iv(0), iv(1)]);
    append_ref(&mut k_loop, "C", vec![n, n], vec![iv(0), iv(1)]);
    append_ref(&mut j_loop, "C", vec![n, n], vec![iv(0), iv(1)]);
    append_ref(&mut j_loop, "C", vec![n, n], vec![iv(0), iv(1)]);
    child(&mut j_loop, k_loop);
    child(&mut i_loop, j_loop);
    Ok(i_loop)
}

/// Two chained matrix multiplies, as two nests in one block.
pub fn _2mm(ni: usize, nj: usize, nk: usize, nl: usize) -> (r: Result<Node, BuildError>)
    ensures
        r is Ok ==> size(r.unwrap()@) == 15,
{
    let mut i_loop1 = fixed_loop("i", 0, ni as i32);
    child(&mut i_loop1, fixed_loop("j", 0, nj as i32));
    put(&mut i_loop1, "tmp", vec![ni, nj], vec!["i", "j"], "j")?;
    put_node(&mut i_loop1, &fixed_loop("k", 0, nk as i32), "j")?;
    put(&mut i_loop1, "a", vec![ni, nk], vec!["i", "k"], "k")?;
    put(&mut i_loop1, "b", vec![nk, nj], vec!["k", "j"], "k")?;
    put(&mut i_loop1, "tmp", vec![ni, nj], vec!["i", "j"], "k")?;
    let mut i_loop2 = fixed_loop("i", 0, ni as i32);
    child(&mut i_loop2, fixed_loop("j", 0, nl as i32));
    put(&mut i_loop2, "d", vec![ni, nl], vec!["i", "j"], "j")?;
    put_node(&mut i_loop2, &fixed_loop("k", 0, nj as i32), "j")?;
    put(&mut i_loop2, "tmp", vec![ni, nj], vec!["i", "j"], "k")?;
    put(&mut i_loop2, "c", vec![nl, nj], vec!["k", "j"], "k")?;
    put(&mut i_loop2, "d", vec![ni, nl], vec!["i", "j"], "k")?;
    Ok({
        let mut v = no_nodes();
        push_child(&mut v, i_loop1);
        push_child(&mut v, i_loop2);
        block(v)
    })
}

/// One matrix multiply `out[i,j] += l[i,k] * r[k,j]` over `i < ni`,
/// `j < nj`, `k < nk`, with `out` also written before the `k` loop.
fn matmul(out: &str, l: &str, rt: &str, ni: usize, nj: usize, nk: usize, ld: Vec<usize>, rd: Vec<usize>) -> (r: Result<Node, BuildError>)
    ensures
        r is Ok ==> r.unwrap()@ is Loop && size(r.unwrap()@) == 7,
{
    let mut i_loop = fixed_loop("i", 0, ni as i32);
    child(&mut i_loop, fixed_loop("j", 0, nj as i32));
    put(&mut i_loop, out, vec![ni, nj], vec!["i", "j"], "j")?;
    put_node(&mut i_loop, &fixed_loop("k", 0, nk as i32), "j")?;
    put(&mut i_loop, l, ld, vec!["i", "k"], "k")?;
    put(&mut i_loop, rt, rd, vec!["k", "j"], "k")?;
    put(&mut i_loop, out, vec![ni, nj], vec!["i", "j"], "k")?;
    Ok(i_loop)
}

/// Three matrix multiplies, `e = a b`, `f = c d`, `g = e f`, as three nests
/// in one block.
pub fn _3mm(ni: usize, nj: usize, nk: usize, nl: usize, nm: usize) -> (r: Result<Node, BuildError>)
    ensures
        r is Ok ==> size(r.unwrap()@) == 22,
{
    let e = matmul("e", "a", "b", ni, nj, nk, vec![ni, nk], vec![nk, nj])?;
    let f = matmul("f", "c", "d", nj, nl, nm, vec![nj, nm], vec![nm, nl])?;
    let g = matmul("g", "e", "f", ni, nl, nj, vec![ni, nj], vec![nj, nl])?;
    Ok({
        let mut v = no_nodes();
        push_child(&mut v, e);
        push_child(&mut v, f);
        push_child(&mut v, g);
        block(v)
    })
}

/// Cholesky decomposition.
pub fn cholesky(n: usize) -> (r: Result<Node, BuildError>)
    ensures
        r is Ok ==> size(r.unwrap()@) == 17,
{
    let ubound = n as i32;
    let mut i_loop = fixed_loop("i", 0, ubound);
    let mut j_loop = bounded_loop("j", LoopBound::Fixed(0), LoopBound::Dynamic(iv(0)));
    let k1_loop = bounded_loop("k", LoopBound::Fixed(0), LoopBound::Dynamic(iv(0)));
    let mut k2_loop = bounded_loop("k", LoopBound::Fixed(0), LoopBound::Dynamic(iv(0)));
    child(&mut j_loop, k1_loop);
    child(&mut i_loop, j_loop);
    put(&mut i_loop, "a", vec![n, n], vec!["i", "k"], "k")?;
    put(&mut i_loop, "a", vec![n, n], vec!["j", "k"], "k")?;
    put(&mut i_loop, "a", vec![n, n], vec!["i", "j"], "k")?;
    put(&mut i_loop, "a", vec![n, n], vec!["i", "j"], "k")?;
    put(&mut i_loop, "a", vec![n], vec!["j"], "j")?;
    put(&mut i_loop, "a", vec![n, n], vec!["i", "j"], "j")?;
    put(&mut i_loop, "a", vec![n, n], vec!["i", "j"], "j")?;
    append_ref(&mut k2_loop, "a", vec![n, n], vec![iv(0), iv(2)]);
    append_ref(&mut k2_loop, "a", vec![n, n], vec![iv(0), iv(2)]);
    append_ref(&mut k2_loop, "a", vec![n], vec![iv(0)]);
    append_ref(&mut k2_loop, "a", vec![n], vec![iv(0)]);
    child(&mut i_loop, k2_loop);
    put(&mut i_loop, "a", vec![n], vec!["i"], "i")?;
    put(&mut i_loop, "a", vec![n], vec!["i"], "i")?;
    Ok(i_loop)
}

/// Gram-Schmidt orthogonalisation.
pub fn gramschmidt_trace(n: usize, m: usize) -> (r: Result<Node, BuildError>)
    ensures
        r is Ok ==> size(r.unwrap()@) == 21,
{
    let mut k_loop = fixed_loop("k", 0, n as i32);
    let mut i_loop1 = fixed_loop("i", 0, m as i32);
    let mut i_loop2 = fixed_loop("i", 0, m as i32);
    let mut i_loop3 = fixed_loop("i", 0, m as i32);
    let mut i_loop4 = fixed_loop("i", 0, m as i32);
    let mut j_loop = bounded_loop("j", LoopBound::Dynamic(plus(0, 1)), LoopBound::Fixed(n as i32));
    append_ref(&mut i_loop1, "a1", vec![n], vec![lin(1, n, 0)]);
    append_ref(&mut i_loop1, "a1", vec![n], vec![lin(1, n, 0)]);
    child(&mut k_loop, i_loop1);
    append_ref(&mut k_loop, "r1", vec![n], vec![lin(0, n, 0)]);
    append_ref(&mut i_loop2, "a2", vec![n], vec![lin(1, n, 0)]);
    append_ref(&mut i_loop2, "r1", vec![n], vec![lin(0, n, 0)]);
    append_ref(&mut i_loop2, "q1", vec![n], vec![lin(1, n, 0)]);
    child(&mut k_loop, i_loop2);
    append_ref(&mut j_loop, "r2", vec![n], vec![lin(0, n, 1)]);
    append_ref(&mut i_loop3, "q2", vec![n], vec![lin(2, n, 0)]);
    append_ref(&mut i_loop3, "a3", vec![n], vec![lin(2, n, 1)]);
    append_ref(&mut i_loop3, "r3", vec![n], vec![lin(0, n, 1)]);
    append_ref(&mut i_loop3, "r3", vec![n], vec![lin(0, n, 1)]);
    child(&mut j_loop, i_loop3);
    append_ref(&mut i_loop4, "a3", vec![n], vec![lin(2, n, 1)]);
    append_ref(&mut i_loop4, "q2", vec![n], vec![lin(2, n, 0)]);
    append_ref(&mut i_loop4, "r3", vec![n], vec![lin(0, n, 1)]);
    append_ref(&mut i_loop4, "a3", vec![n], vec![lin(2, n, 1)]);
    child(&mut j_loop, i_loop4);
    child(&mut k_loop, j_loop);
    Ok(k_loop)
}

/// One sweep of the 3-D heat stencil into `dst`, reading `src`.
fn heat_sweep(src: &str, dst: &str, n: usize, names: &[&str]) -> (r: Node)
    requires
        names@.len() == 3,
    ensures
        r@ is Loop && size(r@) == 14,
{
    let ubound = n as i32;
    let mut i_loop = fixed_loop(names[0], 0, ubound);
    let mut j_loop = fixed_loop(names[1], 0, ubound);
    let mut k_loop = fixed_loop(names[2], 0, ubound);
    let d = vec![n, n, n];
    append_ref(&mut k_loop, src, d.clone(), vec![plus(0, 1), iv(1), iv(2)]);
    append_ref(&mut k_loop, src, d.clone(), vec![iv(0), iv(1), iv(2)]);
    append_ref(&mut k_loop, src, d.clone(), vec![minus(0, 1), iv(1), iv(2)]);
    append_ref(&mut k_loop, src, d.clone(), vec![iv(0), plus(1, 1), iv(2)]);
    append_ref(&mut k_loop, src, d.clone(), vec![iv(0), iv(1), iv(2)]);
    append_ref(&mut k_loop, src, d.clone(), vec![iv(0), minus(1, 1), iv(2)]);
    append_ref(&mut k_loop, src, d.clone(), vec![iv(0), iv(1), plus(2, 1)]);
    append_ref(&mut k_loop, src, d.clone(), vec![iv(0), iv(1), iv(2)]);
    append_ref(&mut k_loop, src, d.clone(), vec![iv(0), iv(1), minus(2, 1)]);
    append_ref(&mut k_loop, src, d.clone(), vec![iv(0), iv(1), iv(2)]);
    append_ref(&mut k_loop, dst, d, vec![iv(0), iv(1), iv(2)]);
    child(&mut j_loop, k_loop);
    child(&mut i_loop, j_loop);
    i_loop
}

/// Heat equation over a 3-D grid: two sweeps per time step.
pub fn heat_3d(m: usize, n: usize) -> (r: Result<Node, BuildError>)
    ensures
        r is Ok ==> size(r.unwrap()@) == 29,
{
    let mut t_loop = fixed_loop("t", 0, m as i32);
    child(&mut t_loop, heat_sweep("A", "B", n, &["i_1", "j_1", "k_1"]));
    child(&mut t_loop, heat_sweep("B", "A", n, &["i_2", "j_2", "k_2"]));
    Ok(t_loop)
}

/// 2-D convolution over the interior of an `ni` by `nj` grid.
pub fn convolution_2d(ni: usize, nj: usize) -> (r: Result<Node, BuildError>)
    requires
        1 <= ni,
        1 <= nj,
    ensures
        r is Ok ==> size(r.unwrap()@) == 5,
{
    let mut i_loop = fixed_loop("i", 1, (ni - 1) as i32);
    child(&mut i_loop, fixed_loop("j", 1, (nj - 1) as i32));
    put(&mut i_loop, "A", vec![ni, nj], vec!["i", "j"], "j")?;
    put(&mut i_loop, "B", vec![ni, nj], vec!["i", "j"], "j")?;
    Ok({
        let mut v = no_nodes();
        push_child(&mut v, i_loop);
        block(v)
    })
}

/// Symmetric matrix multiply.
pub fn symm(n: usize, m: usize) -> (r: Result<Node, BuildError>)
    ensures
        r is Ok ==> size(r.unwrap()@) == 13,
{
    let ubound1 = n as i32;
    let ubound2 = m as i32;
    let mut i_loop = fixed_loop("i", 0, ubound2);
    let mut j_loop = fixed_loop("j", 0, ubound1);
    child(&mut j_loop, bounded_loop("k", LoopBound::Fixed(0), LoopBound::Dynamic(iv(0))));
    child(&mut i_loop, j_loop);
    put(&mut i_loop, "b1", vec![m, n], vec!["i", "j"], "k")?;
    put(&mut i_loop, "a1", vec![m, m], vec!["i", "k"], "k")?;
    put(&mut i_loop, "c1", vec![m, n], vec!["k", "j"], "k")?;
    put(&mut i_loop, "c2", vec![m, n], vec!["k", "j"], "k")?;
    put(&mut i_loop, "b2", vec![m, n], vec!["k", "j"], "k")?;
    put(&mut i_loop, "a2", vec![m, m], vec!["i", "k"], "k")?;
    put(&mut i_loop, "c3", vec![m, n], vec!["i", "j"], "j")?;
    put(&mut i_loop, "b3", vec![m, n], vec!["i", "j"], "j")?;
    put(&mut i_loop, "a3", vec![m, m], vec!["i", "i"], "j")?;
    put(&mut i_loop, "c4", vec![m, n], vec!["i", "j"], "j")?;
    Ok(i_loop)
}

/// A five-point stencil into `b`.
pub fn stencil(n: usize) -> (r: Result<Node, BuildError>)
    requires
        n < i32::MAX,
    ensures
        r is Ok ==> size(r.unwrap()@) == 8,
{
    let ubound = n as i32;
    let mut i_loop = nest2("i", "j", ubound + 1)?;
    put_innermost(&mut i_loop, "a1", vec![n, n], vec!["i", "j"])?;
    put_innermost(&mut i_loop, "a2", vec![n, n], vec!["i", "j"])?;
    put_innermost(&mut i_loop, "a3", vec![n, n], vec!["i", "j"])?;
    put_innermost(&mut i_loop, "a4", vec![n, n], vec!["i", "j"])?;
    put_innermost(&mut i_loop, "a5", vec![n, n], vec!["i", "j"])?;
    put_innermost(&mut i_loop, "b", vec![n, n], vec!["i", "j"])?;
    Ok(i_loop)
}

/// Gauss-Seidel sweeps over a 2-D grid.
pub fn seidel_2d(m: usize, n: usize) -> (r: Result<Node, BuildError>)
    requires
        1 <= m <= i32::MAX,
        2 <= n <= i32::MAX,
    ensures
        r is Ok ==> size(r.unwrap()@) == 13,
{
    let ubound = n as i32;
    let tsteps = m as i32;
    let mut i_loop = fixed_loop("i", 0, tsteps - 1);
    child(&mut i_loop, nest2("j", "k", ubound - 2)?);
    put_innermost(&mut i_loop, "a1", vec![n, n], vec!["j", "k"])?;
    put_innermost(&mut i_loop, "a2", vec![n, n], vec!["j", "k"])?;
    put_innermost(&mut i_loop, "a3", vec![n, n], vec!["j", "k"])?;
    put_innermost(&mut i_loop, "a4", vec![n, n], vec!["j", "k"])?;
    put_innermost(&mut i_loop, "a5", vec![n, n], vec!["j", "k"])?;
    put_innermost(&mut i_loop, "a6", vec![n, n], vec!["j", "k"])?;
    put_innermost(&mut i_loop, "a7", vec![n, n], vec!["j", "k"])?;
    put_innermost(&mut i_loop, "a8", vec![n, n], vec!["j", "k"])?;
    put_innermost(&mut i_loop, "a9", vec![n, n], vec!["j", "k"])?;
    put_innermost(&mut i_loop, "a0", vec![n, n], vec!["j", "k"])?;
    Ok(i_loop)
}

/// 1-D Jacobi iteration.
pub fn jacobi_1d(m: usize, n: usize) -> (r: Result<Node, BuildError>)
    requires
        1 <= n <= i32::MAX,
    ensures
        r is Ok ==> size(r.unwrap()@) == 11,
{
    let ubound = n as i32;
    let tsteps = m as i32;
    let mut t_loop = fixed_loop("t", 0, tsteps);
    let mut i_loop1 = fixed_loop("i", 1, ubound - 1);
    let mut i_loop2 = fixed_loop("i", 1, ubound - 1);
    append_ref(&mut i_loop1, "a1", vec![n], vec![minus(1, 1)]);
    append_ref(&mut i_loop1, "a2", vec![n], vec![iv(1)]);
    append_ref(&mut i_loop1, "a3", vec![n], vec![plus(1, 1)]);
    append_ref(&mut i_loop1, "b1", vec![n], vec![iv(1)]);
    append_ref(&mut i_loop2, "b2", vec![n], vec![minus(1, 1)]);
    append_ref(&mut i_loop2, "b3", vec![n], vec![iv(1)]);
    append_ref(&mut i_loop2, "b4", vec![n], vec![plus(1, 1)]);
    append_ref(&mut i_loop2, "a4", vec![n], vec![iv(1)]);
    child(&mut t_loop, i_loop1);
    child(&mut t_loop, i_loop2);
    Ok(t_loop)
}

/// One sweep of the 2-D Jacobi stencil into `dst`, reading `src`.
fn jacobi_sweep(src: &[&str], dst: &str, n: usize, ubound: i32) -> (r: Node)
    requires
        src@.len() == 5,
    ensures
        r@ is Loop && size(r@) == 8,
{
    let mut i_loop = fixed_loop("j", 1, ubound);
    let mut j_loop = fixed_loop("j", 1, ubound);
    let d = vec![n, n];
    append_ref(&mut j_loop, src[0], d.clone(), vec![iv(1), iv(2)]);
    append_ref(&mut j_loop, src[1], d.clone(), vec![iv(1), minus(2, 1)]);
    append_ref(&mut j_loop, src[2], d.clone(), vec![iv(1), plus(2, 1)]);
    append_ref(&mut j_loop, src[3], d.clone(), vec![plus(1, 1), iv(2)]);
    append_ref(&mut j_loop, src[4], d.clone(), vec![minus(1, 1), iv(2)]);
    append_ref(&mut j_loop, dst, d, vec![iv(1), iv(2)]);
    child(&mut i_loop, j_loop);
    i_loop
}

/// 2-D Jacobi iteration.
pub fn jacobi_2d(m: usize, n: usize) -> (r: Result<Node, BuildError>)
    requires
        1 <= n <= i32::MAX,
    ensures
        r is Ok ==> size(r.unwrap()@) == 17,
{
    let ubound = n as i32;
    let mut t_loop = fixed_loop("t", 0, m as i32);
    child(&mut t_loop, jacobi_sweep(&["a1", "a2", "a3", "a4", "a5"], "b1", n, ubound - 1));
    child(&mut t_loop, jacobi_sweep(&["b2", "b3", "b4", "b5", "b6"], "a6", n, ubound - 1));
    Ok(t_loop)
}

/// Scalar, vector and matrix multiplication.
pub fn gesummv(n: usize) -> (r: Result<Node, BuildError>)
    ensures
        r is Ok ==> size(r.unwrap()@) == 15,
{
    let ubound = n as i32;
    let mut i_loop = fixed_loop("i", 0, ubound);
    put(&mut i_loop, "tmp1", vec![n], vec!["i"], "i")?;
    put(&mut i_loop, "y1", vec![n], vec!["i"], "i")?;
    put_node(&mut i_loop, &fixed_loop("j", 0, ubound), "i")?;
    put(&mut i_loop, "a", vec![n, n], vec!["i", "j"], "j")?;
    put(&mut i_loop, "x1", vec![n], vec!["j"], "j")?;
    put(&mut i_loop, "tmp2", vec![n], vec!["i"], "j")?;
    put(&mut i_loop, "tmp3", vec![n], vec!["i"], "j")?;
    put(&mut i_loop, "b", vec![n, n], vec!["i", "j"], "j")?;
    put(&mut i_loop, "x2", vec![n], vec!["j"], "j")?;
    put(&mut i_loop, "y2", vec![n], vec!["i"], "j")?;
    put(&mut i_loop, "y3", vec![n], vec!["i"], "j")?;
    put(&mut i_loop, "tmp4", vec![n], vec!["i"], "i")?;
    put(&mut i_loop, "y4", vec![n], vec!["i"], "i")?;
    put(&mut i_loop, "y5", vec![n], vec!["i"], "i")?;
    Ok(i_loop)
}

/// Vector multiplication and matrix addition, as four nests in one block.
pub fn gemver(n: usize) -> (r: Result<Node, BuildError>)
    ensures
        r is Ok ==> size(r.unwrap()@) == 25,
{
    let ubound = n as i32;
    let mut i_loop1 = nest2("i", "j", ubound)?;
    put_innermost(&mut i_loop1, "a1", vec![n, n], vec!["i", "j"])?;
    put_innermost(&mut i_loop1, "u1", vec![n], vec!["i"])?;
    put_innermost(&mut i_loop1, "v1", vec![n], vec!["j"])?;
    put_innermost(&mut i_loop1, "u2", vec![n], vec!["i"])?;
    put_innermost(&mut i_loop1, "v2", vec![n, n], vec!["j"])?;
    put_innermost(&mut i_loop1, "a2", vec![n, n], vec!["i", "j"])?;
    let mut i_loop2 = nest2("i", "j", ubound)?;
    put_innermost(&mut i_loop2, "x1", vec![n], vec!["i"])?;
    put_innermost(&mut i_loop2, "a3", vec![n, n], vec!["j", "i"])?;
    put_innermost(&mut i_loop2, "y", vec![n], vec!["j"])?;
    put_innermost(&mut i_loop2, "x2", vec![n], vec!["i"])?;
    let mut i_loop3 = fixed_loop("i", 0, ubound);
    put(&mut i_loop3, "x3", vec![n], vec!["i"], "i")?;
    put(&mut i_loop3, "z", vec![n], vec!["i"], "i")?;
    put(&mut i_loop3, "x4", vec![n], vec!["i"], "i")?;
    let mut i_loop4 = nest2("i", "j", ubound)?;
    put_innermost(&mut i_loop4, "w1", vec![n], vec!["i"])?;
    put_innermost(&mut i_loop4, "a4", vec![n, n], vec!["i", "j"])?;
    put_innermost(&mut i_loop4, "x5", vec![n], vec!["j"])?;
    put_innermost(&mut i_loop4, "w2", vec![n, n], vec!["i"])?;
    Ok({
        let mut v = no_nodes();
        push_child(&mut v, i_loop1);
        push_child(&mut v, i_loop2);
        push_child(&mut v, i_loop3);
        push_child(&mut v, i_loop4);
        block(v)
    })
}

/// A block of accesses, each to an array of extent `n` per subscript.
fn block_of_refs(refs: &[(&str, Vec<IdxExpr>)], n: usize) -> (r: Node)
    ensures
        size(r@) == 1 + refs@.len(),
{
    let mut v = no_nodes();
    let mut k: usize = 0;
    while k < refs.len()
        invariant
            k <= refs@.len(),
            preorder_list(nodes_view(v@)).len() == k,
        decreases refs@.len() - k,
    {
        let (name, sub) = &refs[k];
        let mut dims: Vec<usize> = Vec::new();
        let mut d: usize = 0;
        while d < sub.len()
            decreases sub@.len() - d,
        {
            dims.push(n);
            d = d + 1;
        }
        push_child(&mut v, Node::new_ref(name, dims, crate::ast::copy_exprs(sub)));
        k = k + 1;
    }
    block(v)
}

/// A branch on `cond`.
fn guarded(cond: Cond, then_body: Node, else_body: Option<Node>) -> (r: Node)
    ensures
        size(r@) == 1 + size(then_body@) + match else_body {
            Some(e) => size(e@),
            None => 0,
        },
{
    Node::new_branch(cond, then_body, else_body)
}

/// `lhs op rhs`.
fn cmp(lhs: IdxExpr, op: CmpOp, rhs: IdxExpr) -> Cond {
    Cond { lhs, op, rhs, and: None }
}

/// LU decomposition followed by forward and backward substitution, as
/// three nests in one block; the backward one counts down.
pub fn ludcmp(n: usize) -> (r: Result<Node, BuildError>)
    requires
        1 <= n <= i32::MAX,
    ensures
        r is Ok ==> size(r.unwrap()@) == 28,
{
    let ubound = n as i32;
    let mut i_upper = fixed_loop("i", 0, ubound);
    put_node(&mut i_upper, &bounded_loop("j", LoopBound::Fixed(0), LoopBound::Dynamic(iv(0))), "i")?;
    put(&mut i_upper, "a1", vec![n, n], vec!["i", "j"], "j")?;
    put_node(&mut i_upper, &bounded_loop("k", LoopBound::Fixed(0), LoopBound::Dynamic(iv(0))), "j")?;
    put(&mut i_upper, "a2", vec![n, n], vec!["i", "k"], "k")?;
    put(&mut i_upper, "a3", vec![n, n], vec!["k", "j"], "k")?;
    put(&mut i_upper, "a4", vec![n, n], vec!["j", "j"], "j")?;
    put(&mut i_upper, "a5", vec![n, n], vec!["i", "j"], "j")?;
    let mut j_lower = bounded_loop("j", LoopBound::Dynamic(iv(0)), LoopBound::Fixed(ubound));
    let mut k_lower = bounded_loop("k", LoopBound::Fixed(0), LoopBound::Dynamic(iv(0)));
    append_ref(&mut j_lower, "a6", vec![n, n], vec![iv(0), iv(1)]);
    append_ref(&mut k_lower, "a7", vec![n, n], vec![iv(0), iv(2)]);
    append_ref(&mut k_lower, "a8", vec![n, n], vec![iv(2), iv(1)]);
    child(&mut j_lower, k_lower);
    append_ref(&mut j_lower, "a9", vec![n, n], vec![iv(0), iv(1)]);
    child(&mut i_upper, j_lower);
    let mut i_middle = fixed_loop("i", 0, ubound);
    put(&mut i_middle, "b1", vec![n], vec!["i"], "i")?;
    put_node(&mut i_middle, &bounded_loop("j", LoopBound::Fixed(0), LoopBound::Dynamic(iv(0))), "i")?;
    put(&mut i_middle, "a10", vec![n, n], vec!["i", "j"], "j")?;
    put(&mut i_middle, "y1", vec![n], vec!["j"], "j")?;
    put(&mut i_middle, "y2", vec![n], vec!["i"], "i")?;
    let mut i_lower = down_loop("i", LoopBound::Fixed(ubound - 1), LoopBound::Fixed(-1));
    put(&mut i_lower, "y3", vec![n], vec!["i"], "i")?;
    put_node(&mut i_lower, &bounded_loop("j", LoopBound::Dynamic(plus(0, 1)), LoopBound::Fixed(ubound)), "i")?;
    put(&mut i_lower, "a11", vec![n, n], vec!["i", "j"], "j")?;
    put(&mut i_lower, "x1", vec![n], vec!["j"], "j")?;
    put(&mut i_lower, "a12", vec![n, n], vec!["i", "i"], "i")?;
    put(&mut i_lower, "x2", vec![n], vec!["i"], "i")?;
    Ok({
        let mut v = no_nodes();
        push_child(&mut v, i_upper);
        push_child(&mut v, i_middle);
        push_child(&mut v, i_lower);
        block(v)
    })
}

/// Nussinov's RNA folding recurrence: a descending `i`, triangular `j` and
/// `k`, and guarded updates.
pub fn nussinov(n: usize) -> (r: Result<Node, BuildError>)
    requires
        1 <= n <= i32::MAX,
    ensures
        r is Ok ==> size(r.unwrap()@) == 29,
{
    let ubound = n as i32;
    let nn = vec![n, n];
    let q1 = block_of_refs(&[("if1_t1", vec![iv(0), iv(1)]), ("if1_t2", vec![iv(0), minus(1, 1)]), ("if1_t3", vec![iv(0), iv(1)])], n);
    let branch1 = guarded(cmp(IdxExpr::Lit(0), CmpOp::Lt, iv(1)), q1, None);
    let q2 = block_of_refs(&[("if2_t1", vec![iv(0), iv(1)]), ("if2_t2", vec![plus(0, 1), iv(1)]), ("if2_t3", vec![iv(0), iv(1)])], n);
    let branch2 = guarded(cmp(plus(0, 1), CmpOp::Lt, IdxExpr::Lit(ubound as i64)), q2, None);
    let q3 = block_of_refs(
        &[
            ("if3_t1", vec![iv(0), iv(1)]),
            ("if3_t2", vec![plus(0, 1), minus(1, 1)]),
            ("if3_s1", vec![iv(0)]),
            ("if3_s2", vec![iv(1)]),
            ("if3_t3", vec![iv(0), iv(1)]),
        ],
        n,
    );
    let q4 = block_of_refs(
        &[("else3_t1", vec![iv(0), iv(1)]), ("else3_t2", vec![plus(0, 1), minus(1, 1)]), ("else3_t3", vec![iv(0), iv(1)])],
        n,
    );
    let branch3 = guarded(cmp(iv(0), CmpOp::Lt, minus(1, 1)), q3, Some(q4));
    let both = Cond {
        lhs: IdxExpr::Lit(0),
        op: CmpOp::Lt,
        rhs: iv(1),
        and: Some(Box::new(cmp(plus(0, 1), CmpOp::Lt, IdxExpr::Lit(ubound as i64)))),
    };
    let branch4 = guarded(both, branch3, None);
    let mut k_loop = bounded_loop("k", LoopBound::Dynamic(plus(0, 1)), LoopBound::Dynamic(iv(1)));
    append_ref(&mut k_loop, "t1", nn.clone(), vec![iv(0), iv(1)]);
    append_ref(&mut k_loop, "t2", nn.clone(), vec![iv(0), iv(2)]);
    append_ref(&mut k_loop, "t3", nn.clone(), vec![plus(2, 1), iv(1)]);
    append_ref(&mut k_loop, "t4", nn, vec![iv(0), iv(1)]);
    let mut j_loop = bounded_loop("j", LoopBound::Dynamic(plus(0, 1)), LoopBound::Fixed(ubound));
    child(&mut j_loop, branch1);
    child(&mut j_loop, branch2);
    child(&mut j_loop, branch4);
    child(&mut j_loop, k_loop);
    let mut i_loop = down_loop("i", LoopBound::Fixed(ubound - 1), LoopBound::Fixed(-1));
    child(&mut i_loop, j_loop);
    Ok(i_loop)
}

/// Why a named kernel could not be traced.
#[derive(Debug)]
pub enum BenchError {
    /// No kernel has this name.
    UnknownBenchmark,
    /// The kernel takes more size parameters than were given.
    NotEnoughParams { required: usize, provided: usize },
    /// A kernel size is out of the range its construction accepts.
    InvalidSize,
    Build(BuildError),
    Trace(TraceError),
}

/// The number of extra size parameters the kernel `bench` takes, if it is
/// known.
pub open spec fn params_needed(bench: Seq<char>) -> Option<nat> {
    if bench == "mvt"@ || bench == "trisolv"@ || bench == "lu"@ || bench == "lu_affine"@ || bench == "gemm"@
        || bench == "cholesky"@ || bench == "gesummv"@ || bench == "gemver"@ || bench == "stencil"@ {
        Some(0)
    } else if bench == "syrk"@ || bench == "trmm_trace"@ || bench == "syr2d"@ || bench == "gramschmidt_trace"@
        || bench == "heat_3d"@ || bench == "convolution_2d"@ || bench == "symm"@ || bench == "seidel_2d"@
        || bench == "jacobi_1d"@ || bench == "jacobi_2d"@ {
        Some(1)
    } else if bench == "2mm"@ {
        Some(3)
    } else if bench == "3mm"@ {
        Some(4)
    } else {
        None
    }
}

/// `bench` is the name `name`.
fn is(bench: &String, name: &str) -> (r: bool)
    ensures
        r == (bench@ == name@),
{
    bench.eq(&String::from_str(name))
}

/// At least `required` extra sizes were given.
fn need(required: usize, params: &[usize]) -> (r: Result<(), BenchError>)
    ensures
        r is Ok <==> params@.len() >= required,
        r is Err ==> (r matches Err(BenchError::NotEnoughParams { required: q, provided: p }) && q == required
            && p == params@.len()),
{
    if params.len() < required {
        Err(BenchError::NotEnoughParams { required, provided: params.len() })
    } else {
        Ok(())
    }
}

/// A built kernel, or why it could not be built.
fn built(r: Result<Node, BuildError>) -> (b: Result<Node, BenchError>)
    ensures
        b is Ok <==> r is Ok,
        b is Err ==> b matches Err(BenchError::Build(_)),
{
    match r {
        Ok(n) => Ok(n),
        Err(e) => Err(BenchError::Build(e)),
    }
}

/// Builds the kernel named `bench` with `data_size` as its main size and
/// the extra sizes in `additional_params`, and traces it for elements of
/// `data_size` bytes on lines of `cache_line_size` bytes.
///
/// Every kernel of this module is accepted, `gesummv`, `gemver`,
/// `stencil`, `seidel_2d`, `jacobi_1d` and `jacobi_2d` included. A known
/// name with enough sizes fails only where its sizes are out of range, its
/// construction fails, or its trace fails; on success the histogram is
/// that of [`tracing_ri`] on the built kernel.
pub fn trace_polybench(bench: &str, data_size: usize, cache_line_size: usize, additional_params: &[usize]) -> (r:
    Result<Hist, BenchError>)
    requires
        cache_line_size > 0,
    ensures
        params_needed(bench@) is None ==> r matches Err(BenchError::UnknownBenchmark),
        params_needed(bench@) is Some && additional_params@.len() < params_needed(bench@).unwrap() ==> (r matches Err(
            BenchError::NotEnoughParams { required: q, provided: p },
        ) && q == params_needed(bench@).unwrap() && p == additional_params@.len()),
        params_needed(bench@) is Some && additional_params@.len() >= params_needed(bench@).unwrap() ==> (r is Ok
            || r matches Err(BenchError::InvalidSize) || r matches Err(BenchError::Build(_)) || r matches Err(
            BenchError::Trace(_),
        )),
        r is Ok ==> exists|t: Node|
            ({
                &&& #[trigger] run_node(t, Seq::empty(), data_size as nat, cache_line_size as nat, Seq::empty()) is Ok
                &&& forall|d: Option<nat>| #[trigger] r.unwrap().count(d) == hist_count(
                    run_node(t, Seq::empty(), data_size as nat, cache_line_size as nat, Seq::empty()).unwrap(),
                    d,
                )
            }),
{
    let b = String::from_str(bench);
    let p = additional_params;
    let small = data_size <= i32::MAX as usize;
    let tree = if is(&b, "mvt") {
        built(mvt(data_size))
    } else if is(&b, "trisolv") {
        built(trisolv(data_size))
    } else if is(&b, "lu") {
        built(lu(data_size))
    } else if is(&b, "lu_affine") {
        built(lu_affine(data_size))
    } else if is(&b, "gemm") {
        built(gemm(data_size))
    } else if is(&b, "cholesky") {
        built(cholesky(data_size))
    } else if is(&b, "gesummv") {
        built(gesummv(data_size))
    } else if is(&b, "gemver") {
        built(gemver(data_size))
    } else if is(&b, "stencil") {
        if data_size < i32::MAX as usize {
            built(stencil(data_size))
        } else {
            Err(BenchError::InvalidSize)
        }
    } else if is(&b, "syrk") {
        need(1, p)?;
        built(syrk(data_size, p[0]))
    } else if is(&b, "trmm_trace") {
        need(1, p)?;
        built(trmm_trace(data_size, p[0]))
    } else if is(&b, "syr2d") {
        need(1, p)?;
        built(syr2d(data_size, p[0]))
    } else if is(&b, "gramschmidt_trace") {
        need(1, p)?;
        built(gramschmidt_trace(data_size, p[0]))
    } else if is(&b, "heat_3d") {
        need(1, p)?;
        built(heat_3d(data_size, p[0]))
    } else if is(&b, "convolution_2d") {
        need(1, p)?;
        if data_size >= 1 && p[0] >= 1 {
            built(convolution_2d(data_size, p[0]))
        } else {
            Err(BenchError::InvalidSize)
        }
    } else if is(&b, "symm") {
        need(1, p)?;
        built(symm(data_size, p[0]))
    } else if is(&b, "seidel_2d") {
        need(1, p)?;
        if 1 <= data_size && small && 2 <= p[0] && p[0] <= i32::MAX as usize {
            built(seidel_2d(data_size, p[0]))
        } else {
            Err(BenchError::InvalidSize)
        }
    } else if is(&b, "jacobi_1d") {
        need(1, p)?;
        if 1 <= p[0] && p[0] <= i32::MAX as usize {
            built(jacobi_1d(data_size, p[0]))
        } else {
            Err(BenchError::InvalidSize)
        }
    } else if is(&b, "jacobi_2d") {
        need(1, p)?;
        if 1 <= p[0] && p[0] <= i32::MAX as usize {
            built(jacobi_2d(data_size, p[0]))
        } else {
            Err(BenchError::InvalidSize)
        }
    } else if is(&b, "3mm") {
        proof {
            reveal_strlit("3mm");
            reveal_strlit("2mm");
            reveal_strlit("mvt");
            assert("3mm"@[0] != "2mm"@[0]);
            assert("3mm"@[0] != "mvt"@[0]);
        }
        need(4, p)?;
        built(_3mm(data_size, p[0], p[1], p[2], p[3]))
    } else if is(&b, "2mm") {
        need(3, p)?;
        built(_2mm(data_size, p[0], p[1], p[2]))
    } else {
        Err(BenchError::UnknownBenchmark)
    };
    let mut tree = tree?;
    match tracing_ri(&mut tree, data_size, cache_line_size) {
        Ok(h) => Ok(h),
        Err(e) => Err(BenchError::Trace(e)),
    }
}

} // verus!
