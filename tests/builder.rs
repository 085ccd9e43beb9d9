use reuse_trace::ast::{CmpOp, Cond, IdxExpr, LoopBound, Node, Stmt};
use reuse_trace::construct::{
    a_ref, assign_ranks, assign_ranks_reverse, create_loops, insert_node, generate_sub, generate_subscript, get_loops_indices, insert_at,
    insert_at_innermost, nest_the_loops, nested_loops, squ_ref, BuildError,
};
use reuse_trace::trace::tracing_ri;

fn body(n: &Node) -> &Vec<Node> {
    match &n.stmt {
        Stmt::Loop(l) => &l.body,
        Stmt::Block(b) => b,
        _ => panic!("not a loop"),
    }
}

fn sub_of(n: &Node) -> Vec<String> {
    match &n.stmt {
        Stmt::Ref(r) => r.sub.iter().map(|e| format!("{:?}", e)).collect(),
        _ => panic!("not an access"),
    }
}

#[test]
fn create_and_nest() {
    let loops = create_loops(&["i", "j", "k"], 0, 4);
    assert_eq!(loops.len(), 3);
    let top = nest_the_loops(loops).unwrap();
    assert_eq!(top.node_count(), 3);
    assert_eq!(get_loops_indices(&top, "k").unwrap(), vec!["i", "j", "k"]);
    assert!(nest_the_loops(Vec::new()).is_none());
}

#[test]
fn nest_fails_below_an_access() {
    let r = a_ref("A", vec![2], vec!["i"]);
    let lp = Node::new_single_loop("i", 0, 2);
    assert!(nest_the_loops(vec![r, lp]).is_none());
}

#[test]
fn subscripts_follow_loop_positions() {
    let idx = vec!["k".to_string(), "i".to_string()];
    let loops = vec!["i".to_string(), "j".to_string(), "k".to_string()];
    let sub = generate_sub(&idx, &loops).unwrap();
    assert_eq!(format!("{:?}", sub), "[Iv(2), Iv(0)]");
    match generate_sub(&["z".to_string()], &loops) {
        Err(BuildError::UnresolvedIndex { index, loops: ls }) => {
            assert_eq!(index, "z");
            assert_eq!(ls, loops);
        }
        other => panic!("unexpected {:?}", other),
    }
    assert_eq!(format!("{:?}", generate_subscript(&["i", "j", "k"], "j")), "Some(Iv(1))");
    assert!(generate_subscript(&["i"], "q").is_none());
}

#[test]
fn insert_at_missing_variable_leaves_tree_unchanged() {
    let mut nest = nested_loops(&["i", "j"], 4).unwrap();
    let before = format!("{:?}", nest);
    let res = insert_at(&a_ref("A", vec![4], vec!["i"]), &mut nest, "q");
    assert!(matches!(res, Err(BuildError::InsertionFailure { .. })));
    assert_eq!(format!("{:?}", nest), before);
}

#[test]
fn insert_at_unresolved_index_leaves_tree_unchanged() {
    let mut nest = nested_loops(&["i", "j"], 4).unwrap();
    let before = format!("{:?}", nest);
    let res = insert_at(&a_ref("A", vec![4], vec!["k"]), &mut nest, "j");
    assert!(matches!(res, Err(BuildError::UnresolvedIndex { .. })));
    assert_eq!(format!("{:?}", nest), before);
}

#[test]
fn insert_at_rejects_branches() {
    let cond = Cond { lhs: IdxExpr::Iv(0), op: CmpOp::Eq, rhs: IdxExpr::Lit(0), and: None };
    let br = Node::new_branch(cond, Node::new_single_loop("j", 0, 2), None);
    let mut lp = Node::new_single_loop("i", 0, 2);
    Node::extend_loop_body(&mut lp, br);
    let res = insert_at(&a_ref("A", vec![2], vec!["i"]), &mut lp, "j");
    assert!(matches!(res, Err(BuildError::UnsupportedControl)));
    assert!(matches!(get_loops_indices(&lp, "j"), Err(BuildError::UnsupportedControl)));
    assert!(matches!(get_loops_indices(&Node::new_single_loop("i", 0, 2), "q"), Err(BuildError::InsertionFailure { .. })));
}

#[test]
fn innermost_insertion_and_ranks() {
    let mut nest = nested_loops(&["c", "i", "j", "k"], 3).unwrap();
    let name = insert_at_innermost(&squ_ref("c", 3, vec!["k", "j"]), &mut nest).unwrap();
    assert_eq!(name, "k");
    let inner = &body(&body(&body(&nest)[0])[0])[0];
    assert_eq!(sub_of(&body(inner)[0]), vec!["Iv(3)", "Iv(2)"]);
    match &nest.stmt {
        Stmt::Loop(l) => assert_eq!(l.rank, 0),
        _ => unreachable!(),
    }
    assert_eq!(assign_ranks(&mut nest, 5).unwrap(), "k");
}

#[test]
fn ranks_across_a_block_pick_the_first_deepest() {
    let a = nested_loops(&["i", "j"], 2).unwrap();
    let b = nested_loops(&["p", "q"], 2).unwrap();
    let mut blk = Node::new_block(vec![a, b]);
    assert_eq!(assign_ranks(&mut blk, 0).unwrap(), "j");
}

#[test]
fn same_reference_inserted_twice_is_independent() {
    let mut outer = nested_loops(&["i", "j"], 3).unwrap();
    let inner = Node::new_single_loop("k", 0, 3);
    insert_at(&inner, &mut outer, "i").unwrap();
    let r = a_ref("A", vec![3, 3], vec!["i", "j"]);
    insert_at(&r, &mut outer, "j").unwrap();
    let r2 = a_ref("A", vec![3, 3], vec!["i", "k"]);
    insert_at(&r2, &mut outer, "k").unwrap();
    insert_at(&r, &mut outer, "k").unwrap_err();
    let j = &body(&outer)[0];
    let k = &body(&outer)[1];
    assert_eq!(sub_of(&body(j)[0]), vec!["Iv(0)", "Iv(1)"]);
    assert_eq!(sub_of(&body(k)[0]), vec!["Iv(0)", "Iv(1)"]);
}

#[test]
fn test_100b0() {
    let n = 5;
    let mut nested = nested_loops(&["i", "j", "k", "l", "m"], n).unwrap();
    let ref_c = squ_ref("c", n, vec!["i", "l"]);
    insert_at_innermost(&ref_c, &mut nested).unwrap();
    let h = tracing_ri(&mut nested, 8, 40).unwrap();
    assert_eq!(h.to_vec().iter().map(|b| b.1).sum::<usize>(), 5 * 5 * 5 * 5 * 5);
}

#[test]
fn test_10b01() {
    let n = 4;
    let mut nested = nested_loops(&["i", "j", "k", "l", "m"], n).unwrap();
    let ref_c = squ_ref("c", n, vec!["i", "m", "k"]);
    insert_at_innermost(&ref_c, &mut nested).unwrap();
    tracing_ri(&mut nested, 8, 16).unwrap();
}

#[test]
fn test_p_b10() {
    let n = 8;
    let mut nested = nested_loops(&["c", "i", "j", "k"], n).unwrap();
    let ref_c = squ_ref("c", n, vec!["k", "j"]);
    insert_at_innermost(&ref_c, &mut nested).unwrap();
    tracing_ri(&mut nested, 8, 16).unwrap();
}

#[test]
fn test_1b0() {
    let n = 10;
    let mut nested = nested_loops(&["c", "i", "j", "k"], n).unwrap();
    let ref_c = squ_ref("c", n, vec!["i", "j"]);
    insert_at_innermost(&ref_c, &mut nested).unwrap();
    tracing_ri(&mut nested, 8, 40).unwrap();
}

#[test]
fn test_b10() {
    let n = 10;
    let mut nested = nested_loops(&["j", "k", "i"], n).unwrap();
    let ref_c = squ_ref("c", n, vec!["k", "j"]);
    insert_at_innermost(&ref_c, &mut nested).unwrap();
    tracing_ri(&mut nested, 8, 8).unwrap();
}

#[test]
fn test_111() {
    let n: usize = 8;
    let mut nested = nested_loops(&["j", "i"], n as i32).unwrap();
    let ref_c = a_ref("c", vec![n, n], vec!["j", "i"]);
    insert_at(&ref_c, &mut nested, "i").unwrap();
    let h = tracing_ri(&mut nested, 8, 8).unwrap();
    // every element touched once
    assert_eq!(h.to_vec(), vec![(None, 64)]);
}

#[test]
fn test_combined() {
    let n: usize = 8;
    let ubound = n as i32;
    let i_loop = Node::new_single_loop("i", 0, ubound);
    let mut j_loop = Node::new_single_loop("j", 0, ubound);
    let half = |p: usize| IdxExpr::Div(Box::new(IdxExpr::Iv(p)), 2);
    let ref_a = Node::new_ref("C", vec![n], vec![IdxExpr::Add(Box::new(half(0)), Box::new(half(1)))]);
    Node::extend_loop_body(&mut j_loop, ref_a);
    let mut top = nest_the_loops(vec![i_loop, j_loop]).unwrap();
    tracing_ri(&mut top.clone(), 8, 8).unwrap();
}

#[test]
fn test_test_access3addr_and_tracing() {
    let n: usize = 10;
    let ubound = n as i32;
    let mut top = nested_loops(&["i", "j", "k"], ubound).unwrap();
    let refs = [
        a_ref("C", vec![n, n], vec!["i", "j"]),
        a_ref("A", vec![n, n], vec!["i", "k"]),
        a_ref("B", vec![n, n], vec!["k", "j"]),
    ];
    for r in &refs {
        insert_at(r, &mut top, "k").unwrap();
    }
    tracing_ri(&mut top.clone(), 8, 40).unwrap();
    let mut top2 = nested_loops(&["j", "k", "i"], ubound).unwrap();
    for r in &refs {
        insert_at(r, &mut top2, "i").unwrap();
    }
    tracing_ri(&mut top2.clone(), 8, 40).unwrap();
}

#[test]
fn test_tracing_101() {
    let n = 10;
    let mut nest = nested_loops(&["i", "j", "k"], n as i32).unwrap();
    insert_at(&a_ref("ref_c", vec![n, n], vec!["i", "j"]), &mut nest, "k").unwrap();
    insert_at(&a_ref("ref_a", vec![n, n], vec!["i", "k"]), &mut nest, "k").unwrap();
    insert_at(&a_ref("ref_b", vec![n, n], vec!["k", "j"]), &mut nest, "k").unwrap();
    tracing_ri(&mut nest.clone(), 1, 4).unwrap();
}

#[test]
fn test_tracing_ri_1010b_imperfect() {
    let n: usize = 2;
    let ubound = n as i32;
    let loops = create_loops(&["i", "j", "k", "l"], 0, ubound);
    let mut m_loop = Node::new_single_loop("m", 0, ubound);
    let refo = Node::new_ref("Refo", vec![n, n, n], vec![IdxExpr::Iv(0), IdxExpr::Iv(2), IdxExpr::Iv(3)]);
    Node::extend_loop_body(&mut m_loop, refo);
    let refi = Node::new_ref("Refi", vec![n, n, n], vec![IdxExpr::Iv(0), IdxExpr::Iv(2), IdxExpr::Iv(4)]);
    Node::extend_loop_body(&mut m_loop, refi);
    let mut order = loops;
    order.push(m_loop);
    let top = nest_the_loops(order).unwrap();
    let h = tracing_ri(&mut top.clone(), 8, 8).unwrap();
    assert_eq!(h.to_vec().iter().map(|b| b.1).sum::<usize>(), 64);
}

#[test]
fn dynamic_bounds_are_kept_in_the_tree() {
    let lp = Node::new_loop("j", LoopBound::Fixed(0), LoopBound::Dynamic(IdxExpr::Iv(0)));
    match &lp.stmt {
        Stmt::Loop(l) => assert!(matches!(l.ub, LoopBound::Dynamic(IdxExpr::Iv(0)))),
        _ => unreachable!(),
    }
}

#[test]
fn reverse_ranks_count_from_the_deepest_leaf() {
    let mut nest = nested_loops(&["i", "j", "k"], 2).unwrap();
    insert_at(&a_ref("A", vec![2], vec!["k"]), &mut nest, "k").unwrap();
    let mut blk = Node::new_block(vec![nest, Node::new_single_loop("p", 0, 2)]);
    assert_eq!(assign_ranks_reverse(&mut blk), 3);
    let ranks: Vec<usize> = {
        let mut out = Vec::new();
        let mut cur = &body(&blk)[0];
        loop {
            match &cur.stmt {
                Stmt::Loop(l) => {
                    out.push(l.rank);
                    match l.body.iter().find(|c| matches!(c.stmt, Stmt::Loop(_))) {
                        Some(c) => cur = c,
                        None => break,
                    }
                }
                _ => break,
            }
        }
        out
    };
    assert_eq!(ranks, vec![2, 1, 0]);
}

#[test]
fn insert_node_places_into_the_loop_itself() {
    let mut lp = Node::new_single_loop("i", 0, 3);
    insert_node(&mut lp, &a_ref("A", vec![3], vec!["i"])).unwrap();
    assert_eq!(sub_of(&body(&lp)[0]), vec!["Iv(0)"]);
    let mut r = a_ref("B", vec![3], vec!["i"]);
    assert!(matches!(insert_node(&mut r, &a_ref("C", vec![1], vec!["i"])), Err(BuildError::NotALoop)));
}

/// A perfect nest over `0..ub` with `refs` in its innermost loop.
fn nest_with(names: &[&str], ub: i32, refs: Vec<Node>) -> Node {
    let mut loops = create_loops(names, 0, ub);
    let last = loops.len() - 1;
    for r in refs {
        Node::extend_loop_body(&mut loops[last], r);
    }
    nest_the_loops(loops).unwrap()
}

fn ivs(ps: &[usize]) -> Vec<IdxExpr> {
    ps.iter().map(|&p| IdxExpr::Iv(p)).collect()
}

#[test]
fn test_tracing_ri2() {
    let n: usize = 16;
    let ref_a = Node::new_ref("A", vec![n, n], ivs(&[0, 2]));
    let top = nest_with(&["i", "j", "k"], n as i32, vec![ref_a]);
    tracing_ri(&mut top.clone(), 8, 64).unwrap();
}

#[test]
fn test_higer_dim_loop_test() {
    let n = 6;
    let mut nest = nested_loops(&["i", "j", "k", "l", "m", "n"], n as i32).unwrap();
    let ref_c = a_ref("ref_c", vec![n, n], vec!["i", "j"]);
    insert_at(&ref_c, &mut nest, "n").unwrap();
    let ref_a = a_ref("ref_a", vec![n, n], vec!["i", "k"]);
    insert_at(&ref_a, &mut nest, "n").unwrap();
    let ref_b = a_ref("ref_b", vec![n, n], vec!["k", "j"]);
    insert_at(&ref_b, &mut nest, "n").unwrap();
    insert_at(&ref_c, &mut nest, "n").unwrap();
    insert_at(&ref_a, &mut nest, "n").unwrap();
    insert_at(&ref_b, &mut nest, "n").unwrap();
    tracing_ri(&mut nest.clone(), 4, 8).unwrap();
}

#[test]
fn test_tracing_101_2() {
    let n = 10;
    let mut nest = nested_loops(&["i", "j", "k"], n as i32).unwrap();
    for s in [
        a_ref("ref_c", vec![n, n], vec!["i", "j"]),
        a_ref("ref_a", vec![n, n], vec!["i", "k"]),
        a_ref("ref_b", vec![n, n], vec!["k", "j"]),
    ] {
        insert_at(&s, &mut nest, "k").unwrap();
    }
    tracing_ri(&mut nest.clone(), 8, 40).unwrap();
}

#[test]
fn test_tracing_ri_101_imp() {
    let n: usize = 8;
    let half = IdxExpr::Div(Box::new(IdxExpr::Add(Box::new(IdxExpr::Iv(1)), Box::new(IdxExpr::Iv(2)))), 2);
    let ref_a = Node::new_ref("C", vec![n, n], vec![half, IdxExpr::Iv(3)]);
    let top = nest_with(&["h", "i", "j", "k"], n as i32, vec![ref_a]);
    tracing_ri(&mut top.clone(), 8, 8).unwrap();
}

#[test]
fn test_tracing_ri_1010b() {
    let n: usize = 5;
    let ref_3 = Node::new_ref("Ref3", vec![n, n, n], ivs(&[0, 2, 4]));
    let top = nest_with(&["i", "j", "k", "l", "m"], n as i32, vec![ref_3]);
    tracing_ri(&mut top.clone(), 8, 40).unwrap();
}

#[test]
fn test_tracing_ri_10b01() {
    let n: usize = 5;
    let ref_3 = Node::new_ref("Ref3", vec![n, n, n], ivs(&[0, 4, 2]));
    let top = nest_with(&["i", "j", "k", "l", "m"], n as i32, vec![ref_3]);
    tracing_ri(&mut top.clone(), 8, 8).unwrap();
}

#[test]
fn test_tracing_ri_b0101() {
    let n: usize = 5;
    let ref_3 = Node::new_ref("Ref3", vec![n, n, n], ivs(&[2, 4, 0]));
    let top = nest_with(&["i", "j", "k", "l", "m"], n as i32, vec![ref_3]);
    tracing_ri(&mut top.clone(), 8, 40).unwrap();
}

#[test]
fn test_tracing_ri4() {
    let n: usize = 3;
    let ref_3 = Node::new_ref("Ref3", vec![n, n, n, n], ivs(&[0, 2, 4, 6]));
    let top = nest_with(&["i", "j", "k", "l", "m", "n", "o"], n as i32, vec![ref_3]);
    let h = tracing_ri(&mut top.clone(), 8, 24).unwrap();
    assert_eq!(h.to_vec().iter().map(|b| b.1).sum::<usize>(), 3usize.pow(7));
}

#[test]
fn test_tracing_ri_100101() {
    let n: usize = 8;
    let ref_3 = Node::new_ref("Ref3", vec![n, n, n], ivs(&[0, 3, 5]));
    let top = nest_with(&["i", "j", "k", "l", "m", "n"], n as i32, vec![ref_3]);
    tracing_ri(&mut top.clone(), 8, 16).unwrap();
}
