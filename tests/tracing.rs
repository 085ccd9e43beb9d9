use reuse_trace::arybase::set_arybase;
use reuse_trace::ast::{AryRef, CmpOp, Cond, IdxExpr, LoopBound, Node, Stmt};
use reuse_trace::polybench::{trace_polybench, BenchError};
use reuse_trace::construct;
use reuse_trace::trace::{access3addr, assign_ref_id, tracing_ri, TraceError};

/// The body of the loop or block `n`.
fn body(n: &Node) -> &Vec<Node> {
    match &n.stmt {
        Stmt::Loop(l) => &l.body,
        Stmt::Block(b) => b,
        _ => panic!("not a loop"),
    }
}

fn aref(n: &Node) -> &AryRef {
    match &n.stmt {
        Stmt::Ref(r) => r,
        _ => panic!("not an access"),
    }
}

/// The innermost loop of a perfect nest.
fn innermost(n: &Node) -> &Node {
    let mut cur = n;
    loop {
        match body(cur).iter().find(|c| matches!(c.stmt, Stmt::Loop(_))) {
            Some(c) => cur = c,
            None => return cur,
        }
    }
}

#[test]
fn ary3() {
    let n: usize = 100;
    let ubound = n as i32;
    // A[i] B[i,i+1] C[i,i+1,i+2]
    let plus = |k: i64| IdxExpr::Add(Box::new(IdxExpr::Iv(0)), Box::new(IdxExpr::Lit(k)));
    let ref_a = Node::new_ref("A", vec![n], vec![IdxExpr::Iv(0)]);
    let ref_b = Node::new_ref("B", vec![n, n], vec![IdxExpr::Iv(0), plus(1)]);
    let ref_c = Node::new_ref("C", vec![n, n, n], vec![IdxExpr::Iv(0), plus(1), plus(2)]);
    let mut iloop = Node::new_single_loop("i", 0, ubound);
    for r in [ref_a, ref_b, ref_c] {
        Node::extend_loop_body(&mut iloop, r);
    }
    let (tbl, size) = set_arybase(&mut iloop).unwrap();
    assert_eq!(tbl.len(), 3);
    assert_eq!(size, n + n * n + n * n * n);
    assert_eq!(aref(&body(&iloop)[0]).base, Some(0));
    assert_eq!(aref(&body(&iloop)[1]).base, Some(n));
    assert_eq!(aref(&body(&iloop)[2]).base, Some(n + n * n));
}

#[test]
fn same_array_shares_base() {
    let n: usize = 10;
    let mut nest = construct::nested_loops(&["i", "j"], n as i32).unwrap();
    for (name, ind) in [("A", vec!["i", "j"]), ("B", vec!["j"]), ("A", vec!["j", "i"])] {
        let dims = vec![n; ind.len()];
        construct::insert_at(&construct::a_ref(name, dims, ind), &mut nest, "j").unwrap();
    }
    let (tbl, size) = set_arybase(&mut nest).unwrap();
    assert_eq!(tbl.len(), 2);
    assert_eq!(size, n * n + n);
    let inner = innermost(&nest);
    assert_eq!(aref(&body(inner)[0]).base, Some(0));
    assert_eq!(aref(&body(inner)[1]).base, Some(n * n));
    assert_eq!(aref(&body(inner)[2]).base, Some(0));
}

#[test]
fn row_major_offset() {
    // a 2-D array [R, C] at (r, c): offset r*C + c
    let mut r = Node::new_ref("M", vec![7, 5], vec![IdxExpr::Iv(0), IdxExpr::Iv(1)]);
    let mut lp = Node::new_single_loop("i", 0, 1);
    Node::extend_loop_body(&mut lp, r);
    set_arybase(&mut lp).unwrap();
    r = match &lp.stmt {
        Stmt::Loop(l) => l.body[0].clone(),
        _ => unreachable!(),
    };
    assert_eq!(access3addr(aref(&r), &[3, 4], 1, 1).unwrap(), 3 * 5 + 4);
    // quantised to 8-byte elements on 64-byte lines
    assert_eq!(access3addr(aref(&r), &[3, 4], 8, 64).unwrap(), (3 * 5 + 4) * 8 / 64);
}

#[test]
fn structural_mismatch() {
    let mut lp = Node::new_single_loop("i", 0, 2);
    let r = Node::new_ref("M", vec![4, 4], vec![IdxExpr::Iv(0), IdxExpr::Iv(0), IdxExpr::Iv(0)]);
    Node::extend_loop_body(&mut lp, r);
    set_arybase(&mut lp).unwrap();
    let res = access3addr(aref(&body(&lp)[0]), &[1], 8, 8);
    assert!(matches!(res, Err(TraceError::StructuralMismatch { .. })));
    let res = tracing_ri(&mut lp, 8, 8);
    assert!(matches!(res, Err(TraceError::StructuralMismatch { .. })));
}

#[test]
fn missing_base_offset() {
    let r = Node::new_ref("M", vec![4], vec![IdxExpr::Iv(0)]);
    let res = access3addr(aref(&r), &[1], 8, 8);
    assert!(matches!(res, Err(TraceError::MissingBaseOffset { .. })));
}

#[test]
fn invalid_subscript() {
    let mut r = Node::new_ref("M", vec![4], vec![IdxExpr::Iv(3)]);
    let mut lp = Node::new_single_loop("i", 0, 2);
    Node::extend_loop_body(&mut lp, r);
    set_arybase(&mut lp).unwrap();
    r = body(&lp)[0].clone();
    let res = access3addr(aref(&r), &[1], 8, 8);
    assert!(matches!(res, Err(TraceError::InvalidSubscript { .. })));
}

#[test]
fn dynamic_bound_is_rejected() {
    let mut outer = Node::new_single_loop("i", 0, 4);
    let inner = Node::new_loop("j", LoopBound::Fixed(0), LoopBound::Dynamic(IdxExpr::Iv(0)));
    Node::extend_loop_body(&mut outer, inner);
    construct::insert_at(&construct::a_ref("A", vec![4, 4], vec!["i", "j"]), &mut outer, "j").unwrap();
    let res = tracing_ri(&mut outer, 8, 8);
    match res {
        Err(TraceError::UnsupportedBound { iv }) => assert_eq!(iv, "j"),
        other => panic!("unexpected {:?}", other),
    }
}

#[test]
fn cold_then_reuse() {
    // i = 0..3 { A[0]; A[0] }: first access cold, then distance 1 each time
    let mut lp = Node::new_single_loop("i", 0, 3);
    Node::extend_loop_body(&mut lp, Node::new_ref("A", vec![1], vec![IdxExpr::Lit(0)]));
    Node::extend_loop_body(&mut lp, Node::new_ref("A", vec![1], vec![IdxExpr::Lit(0)]));
    let h = tracing_ri(&mut lp, 8, 8).unwrap();
    assert_eq!(h.get(None), Some(1));
    assert_eq!(h.get(Some(1)), Some(5));
    assert_eq!(h.to_vec(), vec![(Some(1), 5), (None, 1)]);
}

#[test]
fn ref_ids_are_assigned_once() {
    let mut nest = construct::nested_loops(&["i", "j"], 3).unwrap();
    construct::insert_at(&construct::a_ref("A", vec![3], vec!["i"]), &mut nest, "j").unwrap();
    construct::insert_at(&construct::a_ref("B", vec![3], vec!["j"]), &mut nest, "j").unwrap();
    assign_ref_id(&mut nest);
    let first: Vec<Option<usize>> = body(innermost(&nest)).iter().map(|c| aref(c).ref_id).collect();
    assert_eq!(first, vec![Some(0), Some(1)]);
    assign_ref_id(&mut nest);
    let second: Vec<Option<usize>> = body(innermost(&nest)).iter().map(|c| aref(c).ref_id).collect();
    assert_eq!(first, second);
}

#[test]
fn lib_test_access3addr_and_tracing() {
    let n: usize = 10;
    let ubound = n as i32;
    let mut nested_loops_top = construct::nested_loops(&["i", "j", "k"], ubound).unwrap();

    let ref_c = construct::a_ref("C", vec![n, n], vec!["i", "j"]);
    let ref_a = construct::a_ref("A", vec![n, n], vec!["i", "k"]);
    let ref_b = construct::a_ref("B", vec![n, n], vec!["k", "j"]);
    for a_ref in [&ref_c, &ref_a, &ref_b] {
        construct::insert_at(a_ref, &mut nested_loops_top, "k").unwrap();
    }
    set_arybase(&mut nested_loops_top).unwrap();

    let ivec = vec![1, 2, 3];
    let data_size = 8;
    let cache_line_size = 8;
    let refs = body(innermost(&nested_loops_top));
    let expected = [12, 113, 232];
    for (index, node) in refs.iter().enumerate() {
        let result = access3addr(aref(node), &ivec, data_size, cache_line_size).unwrap();
        assert_eq!(result, expected[index]);
    }

    let hist = tracing_ri(&mut nested_loops_top.clone(), 8, 8).unwrap();
    assert_eq!(hist.get(Some(3)), Some(900));
    assert_eq!(hist.get(Some(30)), Some(900));
    assert_eq!(hist.get(Some(300)), Some(900));
    assert_eq!(hist.get(None), Some(300));

    let hist2 = tracing_ri(&mut nested_loops_top.clone(), 8, 40).unwrap();
    assert_eq!(hist2.get(Some(3)), Some(1780));
    assert_eq!(hist2.get(Some(18)), Some(180));
    assert_eq!(hist2.get(Some(30)), Some(800));
    assert_eq!(hist2.get(Some(180)), Some(180));
    assert_eq!(hist2.get(None), Some(60));

    let hist3 = tracing_ri(&mut nested_loops_top.clone(), 8, 80).unwrap();
    assert_eq!(hist3.get(Some(3)), Some(1980));
    assert_eq!(hist3.get(Some(30)), Some(990));
    assert_eq!(hist3.get(None), Some(30));
}

#[test]
fn test_10010001() {
    let n: usize = 4;
    let ubound = n as i32;
    let mut nested_loops = construct::nested_loops(&["i", "j", "k", "l", "m", "n", "o", "p"], ubound).unwrap();
    let ref_c = construct::a_ref("c", vec![n, n, n], vec!["i", "l", "p"]);
    construct::insert_at(&ref_c, &mut nested_loops, "p").unwrap();
    let hist = tracing_ri(&mut nested_loops, 8, 8).unwrap();
    assert_eq!(hist.get(Some(4)), Some(64512));
    assert_eq!(hist.get(Some(772)), Some(960));
    assert_eq!(hist.get(None), Some(64));
}

#[test]
fn branch_arms_follow_the_condition() {
    // i = 0..4 { if i < 2 { A[0] } else { B[0] } }
    let cond = Cond { lhs: IdxExpr::Iv(0), op: CmpOp::Lt, rhs: IdxExpr::Lit(2), and: None };
    let a = Node::new_ref("A", vec![1], vec![IdxExpr::Lit(0)]);
    let b = Node::new_ref("B", vec![1], vec![IdxExpr::Lit(0)]);
    let mut lp = Node::new_single_loop("i", 0, 4);
    Node::extend_loop_body(&mut lp, Node::new_branch(cond, a, Some(b)));
    let h = tracing_ri(&mut lp, 8, 8).unwrap();
    assert_eq!(h.to_vec(), vec![(Some(1), 2), (None, 2)]);
}

#[test]
fn invalid_condition() {
    let cond = Cond { lhs: IdxExpr::Iv(5), op: CmpOp::Le, rhs: IdxExpr::Lit(2), and: None };
    let a = Node::new_ref("A", vec![1], vec![IdxExpr::Lit(0)]);
    let mut lp = Node::new_single_loop("i", 0, 4);
    Node::extend_loop_body(&mut lp, Node::new_branch(cond, a, None));
    assert!(matches!(tracing_ri(&mut lp, 8, 8), Err(TraceError::InvalidCondition)));
}

#[test]
fn address_overflow() {
    let r = AryRef {
        name: "M".to_string(),
        dim: vec![2, usize::MAX],
        indices: None,
        sub: vec![IdxExpr::Lit(1), IdxExpr::Lit(1)],
        base: Some(0),
        ref_id: None,
    };
    assert!(matches!(access3addr(&r, &[], 1, 1), Err(TraceError::AddressOverflow { .. })));
    let r2 = AryRef {
        name: "N".to_string(),
        dim: vec![4],
        indices: None,
        sub: vec![IdxExpr::Lit(1)],
        base: Some(usize::MAX / 2),
        ref_id: None,
    };
    assert!(matches!(access3addr(&r2, &[], 8, 8), Err(TraceError::AddressOverflow { .. })));
}

#[test]
fn space_overflow() {
    let mut lp = Node::new_single_loop("i", 0, 1);
    Node::extend_loop_body(&mut lp, Node::new_ref("A", vec![usize::MAX, 2], vec![IdxExpr::Lit(0), IdxExpr::Lit(0)]));
    assert!(set_arybase(&mut lp.clone()).is_none());
    assert!(matches!(tracing_ri(&mut lp, 8, 8), Err(TraceError::SpaceOverflow)));
}

#[test]
fn distances_are_positive_and_accesses_all_counted() {
    let mut nest = construct::nested_loops(&["i", "j"], 6).unwrap();
    construct::insert_at(&construct::a_ref("A", vec![6], vec!["j"]), &mut nest, "j").unwrap();
    construct::insert_at(&construct::a_ref("B", vec![6], vec!["i"]), &mut nest, "j").unwrap();
    let h = tracing_ri(&mut nest, 8, 16).unwrap();
    let v = h.to_vec();
    assert!(v.iter().all(|(d, _)| d.map_or(true, |x| x >= 1)));
    assert_eq!(v.iter().map(|b| b.1).sum::<usize>(), 72);
}

#[test]
fn innermost_needs_a_loop() {
    let mut head = Node::new_ref("A", vec![1], vec![IdxExpr::Lit(0)]);
    let res = construct::insert_at_innermost(&construct::a_ref("B", vec![1], vec!["i"]), &mut head);
    assert!(matches!(res, Err(construct::BuildError::NotALoop)));
}

#[test]
fn kernel_driver() {
    assert!(matches!(trace_polybench("nope", 8, 8, &[]), Err(BenchError::UnknownBenchmark)));
    match trace_polybench("syrk", 8, 8, &[]) {
        Err(BenchError::NotEnoughParams { required, provided }) => {
            assert_eq!(required, 1);
            assert_eq!(provided, 0);
        }
        other => panic!("unexpected {:?}", other),
    }
    let h = trace_polybench("mvt", 8, 8, &[]).unwrap();
    assert_eq!(h.to_vec().iter().map(|b| b.1).sum::<usize>(), 800);
    assert!(matches!(trace_polybench("lu", 8, 8, &[]), Err(BenchError::Trace(TraceError::UnsupportedBound { .. }))));
}

#[test]
fn access_log_follows_execution_order() {
    let mut nest = construct::nested_loops(&["i"], 2).unwrap();
    construct::insert_at(&construct::a_ref("A", vec![2], vec!["i"]), &mut nest, "i").unwrap();
    construct::insert_at(&construct::a_ref("B", vec![2], vec!["i"]), &mut nest, "i").unwrap();
    let (h, log) = reuse_trace::trace::tracing_ri_logged(&mut nest, 8, 8).unwrap();
    assert_eq!(h.get(None), Some(4));
    let expected = vec![
        ("A".to_string(), Some(0), 0),
        ("B".to_string(), Some(1), 2),
        ("A".to_string(), Some(0), 1),
        ("B".to_string(), Some(1), 3),
    ];
    assert_eq!(log, expected);
}

#[test]
fn scalar_access_gets_an_empty_subscript() {
    let mut lp = construct::nested_loops(&["i"], 3).unwrap();
    construct::insert_at(&construct::a_ref("x", vec![], vec![]), &mut lp, "i").unwrap();
    assert!(aref(&body(&lp)[0]).sub.is_empty());
    let h = tracing_ri(&mut lp, 8, 8).unwrap();
    assert_eq!(h.to_vec(), vec![(Some(1), 2), (None, 1)]);
}

#[test]
fn negative_loop_values() {
    // i = -5..5 { A[i + 5]; if i < 0 { B[0] } }
    let mut lp = Node::new_single_loop("i", -5, 5);
    let shifted = IdxExpr::Add(Box::new(IdxExpr::Iv(0)), Box::new(IdxExpr::Lit(5)));
    Node::extend_loop_body(&mut lp, Node::new_ref("A", vec![10], vec![shifted]));
    let cond = Cond { lhs: IdxExpr::Iv(0), op: CmpOp::Lt, rhs: IdxExpr::Lit(0), and: None };
    Node::extend_loop_body(&mut lp, Node::new_branch(cond, Node::new_ref("B", vec![1], vec![IdxExpr::Lit(0)]), None));
    let h = tracing_ri(&mut lp, 8, 8).unwrap();
    // 10 cold accesses to A, B cold once then reused every 2 ticks 4 times
    assert_eq!(h.to_vec(), vec![(Some(2), 4), (None, 11)]);
    // a negative final subscript is rejected
    let mut lp2 = Node::new_single_loop("i", -1, 1);
    Node::extend_loop_body(&mut lp2, Node::new_ref("A", vec![4], vec![IdxExpr::Iv(0)]));
    assert!(matches!(tracing_ri(&mut lp2, 8, 8), Err(TraceError::InvalidSubscript { .. })));
    // division rounds down
    let e = IdxExpr::Div(Box::new(IdxExpr::Iv(0)), 2);
    assert_eq!(e.eval(&[-3]), Some(-2));
    assert_eq!(e.eval(&[3]), Some(1));
}

#[test]
fn descending_loop_runs_downward() {
    // i = 3 down to 0 { A[i] }, logged in execution order
    let mut down = Node::new_loop_down("i", LoopBound::Fixed(3), LoopBound::Fixed(-1));
    Node::extend_loop_body(&mut down, Node::new_ref("A", vec![4], vec![IdxExpr::Iv(0)]));
    let (h, log) = reuse_trace::trace::tracing_ri_logged(&mut down, 8, 8).unwrap();
    let lines: Vec<usize> = log.iter().map(|e| e.2).collect();
    assert_eq!(lines, vec![3, 2, 1, 0]);
    assert_eq!(h.to_vec(), vec![(None, 4)]);
}

#[test]
fn conjunction_in_a_condition() {
    // i = 0..6 { if 1 < i && i < 4 { A[0] } }: A touched at i = 2, 3
    let both = Cond {
        lhs: IdxExpr::Lit(1),
        op: CmpOp::Lt,
        rhs: IdxExpr::Iv(0),
        and: Some(Box::new(Cond { lhs: IdxExpr::Iv(0), op: CmpOp::Lt, rhs: IdxExpr::Lit(4), and: None })),
    };
    let mut lp = Node::new_single_loop("i", 0, 6);
    Node::extend_loop_body(&mut lp, Node::new_branch(both, Node::new_ref("A", vec![1], vec![IdxExpr::Lit(0)]), None));
    let h = tracing_ri(&mut lp, 8, 8).unwrap();
    assert_eq!(h.to_vec(), vec![(Some(1), 1), (None, 1)]);
}
