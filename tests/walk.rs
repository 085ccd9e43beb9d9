use reuse_trace::ast::{CmpOp, Cond, IdxExpr, Node};
use reuse_trace::iter::Walk;

fn count(root: &Node) -> usize {
    let mut w = Walk::new(root);
    let mut cnt = 0;
    while w.next().is_some() {
        cnt += 1;
    }
    cnt
}

#[test]
fn loop_a_0() {
    // i = 0, n { a[0] }
    let aref = Node::new_ref("A", vec![1], vec![IdxExpr::Lit(0)]);
    let mut aloop = Node::new_single_loop("i", 0, 10);
    assert!(Node::extend_loop_body(&mut aloop, aref));
    assert_eq!(count(&aloop), 2);
}

#[test]
fn loop_ij() {
    // i = 0, 1, {j = 0, 0 n { a[0] }; b[0]
    let aref = Node::new_ref("A", vec![1], vec![IdxExpr::Lit(0)]);
    let mut jloop = Node::new_single_loop("j", 0, 10);
    Node::extend_loop_body(&mut jloop, aref);
    let bref = Node::new_ref("B", vec![1], vec![IdxExpr::Lit(0)]);
    let mut iloop = Node::new_single_loop("i", 0, 1);
    Node::extend_loop_body(&mut iloop, jloop);
    Node::extend_loop_body(&mut iloop, bref);
    assert_eq!(count(&iloop), 4);
}

#[test]
fn simple_node() {
    let node = Node::new_ref("A", vec![1], vec![IdxExpr::Lit(0)]);
    assert_eq!(count(&node), 1);
}

#[test]
fn nested_loops() {
    // i { j { k { a[0] } } }
    let aref = Node::new_ref("A", vec![1], vec![IdxExpr::Lit(0)]);
    let mut kloop = Node::new_single_loop("k", 0, 1);
    Node::extend_loop_body(&mut kloop, aref);
    let mut jloop = Node::new_single_loop("j", 0, 1);
    Node::extend_loop_body(&mut jloop, kloop);
    let mut iloop = Node::new_single_loop("i", 0, 1);
    Node::extend_loop_body(&mut iloop, jloop);
    assert_eq!(count(&iloop), 4);
}

#[test]
fn walk_visits_branch_arms_and_block_children() {
    let a = Node::new_ref("A", vec![4], vec![IdxExpr::Lit(0)]);
    let b = Node::new_ref("B", vec![4], vec![IdxExpr::Lit(0)]);
    let cond = Cond { lhs: IdxExpr::Iv(0), op: CmpOp::Lt, rhs: IdxExpr::Lit(2), and: None };
    let br = Node::new_branch(cond, a, Some(b));
    let c = Node::new_ref("C", vec![4], vec![IdxExpr::Lit(0)]);
    let mut lp = Node::new_single_loop("i", 0, 4);
    Node::extend_loop_body(&mut lp, br);
    let blk = Node::new_block(vec![lp, c]);
    // block, loop, branch, A, B, C
    assert_eq!(count(&blk), 6);
    assert_eq!(blk.node_count(), 6);
}

#[test]
fn walk_filters_to_accesses() {
    let a = Node::new_ref("A", vec![4], vec![IdxExpr::Lit(0)]);
    let b = Node::new_ref("B", vec![4], vec![IdxExpr::Lit(0)]);
    let mut inner = Node::new_single_loop("j", 0, 2);
    Node::extend_loop_body(&mut inner, a);
    let mut outer = Node::new_single_loop("i", 0, 2);
    Node::extend_loop_body(&mut outer, inner);
    Node::extend_loop_body(&mut outer, b);
    let mut w = Walk::new(&outer);
    let mut names = Vec::new();
    while let Some(n) = w.next_ref() {
        match &n.stmt {
            reuse_trace::ast::Stmt::Ref(r) => names.push(r.name.clone()),
            _ => panic!("not an access"),
        }
    }
    assert_eq!(names, vec!["A", "B"]);
}
