use mun_ids::intrinsics::{
    collect_fn_body, collect_wrapper_body, Body, CallableDef, Expr, InferenceResult, Resolution,
};
use mun_ids::prototype::{
    compare_bytes, FunctionPrototype, FunctionType, Intrinsic, IntrinsicsMap, IrType, TargetData,
};

const TARGET: TargetData = TargetData { pointer_bits: 64 };

fn infer_for(n: usize) -> InferenceResult {
    InferenceResult { callables: vec![None; n], resolutions: vec![None; n] }
}

fn names(map: &IntrinsicsMap) -> Vec<Vec<u8>> {
    (0..map.len()).map(|i| map.entry(i).0.name.clone()).collect()
}

fn collect(body: &Body, infer: &InferenceResult) -> (IntrinsicsMap, bool) {
    let mut map = IntrinsicsMap::new();
    let mut needs_alloc = false;
    collect_fn_body(&TARGET, &mut map, &mut needs_alloc, body, infer);
    (map, needs_alloc)
}

fn assert_only_new(map: &IntrinsicsMap, bits: u32) {
    assert_eq!(map.len(), 1);
    let (proto, ty) = map.entry(0);
    assert_eq!(proto.name, b"new".to_vec());
    assert_eq!(ty.params, vec![IrType::Pointer(bits), IrType::Pointer(bits)]);
    assert_eq!(ty.ret, IrType::Pointer(bits));
}

/// `{ let x = Point { x: 1, y: 2 }; foo(x) }`
fn point_then_call() -> (Body, InferenceResult) {
    let exprs = vec![
        Expr::Literal(1),
        Expr::Literal(2),
        Expr::RecordLit { fields: vec![0, 1], spread: None },
        Expr::Path,
        Expr::Path,
        Expr::Call { callee: 3, args: vec![4] },
        Expr::Block { statements: vec![2], tail: Some(5) },
    ];
    let mut infer = infer_for(exprs.len());
    infer.callables[3] = Some(CallableDef::Function(7));
    infer.resolutions[3] = Some(Resolution::Function(7));
    infer.resolutions[4] = Some(Resolution::Local(0));
    (Body { exprs, body_expr: 6 }, infer)
}

#[test]
fn struct_literal_then_function_call() {
    let (body, infer) = point_then_call();
    let (map, needs_alloc) = collect(&body, &infer);
    assert!(needs_alloc);
    assert_only_new(&map, 64);
}

#[test]
fn empty_body_needs_nothing() {
    let body = Body { exprs: vec![Expr::Block { statements: vec![], tail: None }], body_expr: 0 };
    let (map, needs_alloc) = collect(&body, &infer_for(1));
    assert!(!needs_alloc);
    assert_eq!(map.len(), 0);
}

#[test]
fn arithmetic_and_function_calls_need_nothing() {
    // { let a = 1 + 2; if a { f(a) } else { return } }
    let exprs = vec![
        Expr::Literal(1),
        Expr::Literal(2),
        Expr::BinaryOp { lhs: 0, rhs: 1 },
        Expr::Path,
        Expr::Path,
        Expr::Path,
        Expr::Call { callee: 4, args: vec![5] },
        Expr::Return { expr: None },
        Expr::If { condition: 3, then_branch: 6, else_branch: Some(7) },
        Expr::UnaryOp { expr: 8 },
        Expr::Block { statements: vec![2], tail: Some(9) },
    ];
    let mut infer = infer_for(exprs.len());
    infer.resolutions[3] = Some(Resolution::Local(0));
    infer.resolutions[4] = Some(Resolution::Function(1));
    infer.resolutions[5] = Some(Resolution::Local(0));
    infer.callables[4] = Some(CallableDef::Function(1));
    let (map, needs_alloc) = collect(&Body { exprs, body_expr: 10 }, &infer);
    assert!(!needs_alloc);
    assert_eq!(map.len(), 0);
}

#[test]
fn wrapper_body_always_allocates() {
    let mut map = IntrinsicsMap::new();
    let mut needs_alloc = false;
    collect_wrapper_body(&TARGET, &mut map, &mut needs_alloc);
    assert!(needs_alloc);
    assert_only_new(&map, 64);
}

#[test]
fn two_struct_literals_give_one_entry() {
    let exprs = vec![
        Expr::RecordLit { fields: vec![], spread: None },
        Expr::RecordLit { fields: vec![], spread: None },
        Expr::Block { statements: vec![0], tail: Some(1) },
    ];
    let (map, needs_alloc) = collect(&Body { exprs, body_expr: 2 }, &infer_for(3));
    assert!(needs_alloc);
    assert_only_new(&map, 64);
}

#[test]
fn struct_constructor_call_allocates() {
    let exprs = vec![Expr::Path, Expr::Literal(3), Expr::Call { callee: 0, args: vec![1] }];
    let mut infer = infer_for(3);
    infer.callables[0] = Some(CallableDef::Struct(2));
    infer.resolutions[0] = Some(Resolution::Function(2));
    let (map, needs_alloc) = collect(&Body { exprs, body_expr: 2 }, &infer);
    assert!(needs_alloc);
    assert_only_new(&map, 64);
}

#[test]
fn unit_struct_path_allocates() {
    let exprs = vec![Expr::Path, Expr::UnaryOp { expr: 0 }];
    let mut infer = infer_for(2);
    infer.resolutions[0] = Some(Resolution::Struct(4));
    let (map, needs_alloc) = collect(&Body { exprs, body_expr: 1 }, &infer);
    assert!(needs_alloc);
    assert_only_new(&map, 64);
}

#[test]
fn deeply_nested_literal_is_found() {
    let exprs = vec![
        Expr::RecordLit { fields: vec![], spread: None },
        Expr::UnaryOp { expr: 0 },
        Expr::Block { statements: vec![], tail: Some(1) },
        Expr::Return { expr: Some(2) },
        Expr::Block { statements: vec![3], tail: None },
    ];
    let (_, needs_alloc) = collect(&Body { exprs, body_expr: 4 }, &infer_for(5));
    assert!(needs_alloc);
}

#[test]
fn flag_once_set_stays_set() {
    let body = Body { exprs: vec![Expr::Literal(0)], body_expr: 0 };
    let mut map = IntrinsicsMap::new();
    let mut needs_alloc = true;
    collect_fn_body(&TARGET, &mut map, &mut needs_alloc, &body, &infer_for(1));
    assert!(needs_alloc);
    assert_eq!(map.len(), 0);
}

#[test]
fn first_type_for_a_prototype_wins() {
    let mut map = IntrinsicsMap::new();
    let mut needs_alloc = false;
    collect_wrapper_body(&TargetData { pointer_bits: 32 }, &mut map, &mut needs_alloc);
    collect_wrapper_body(&TARGET, &mut map, &mut needs_alloc);
    assert_only_new(&map, 32);
}

#[test]
fn same_body_collected_twice_gives_same_order() {
    let (body, infer) = point_then_call();
    let (a, _) = collect(&body, &infer);
    let (b, _) = collect(&body, &infer);
    assert_eq!(names(&a), names(&b));
}

#[test]
fn map_order_does_not_depend_on_insertion_order() {
    let ty = || FunctionType { params: vec![], ret: IrType::Int(8) };
    let proto = |s: &[u8]| FunctionPrototype { name: s.to_vec() };
    let mut a = IntrinsicsMap::new();
    for n in [b"new".as_slice(), b"drop", b"alloc", b"ne"] {
        a.insert_new(proto(n), ty());
    }
    let mut b = IntrinsicsMap::new();
    for n in [b"ne".as_slice(), b"alloc", b"new", b"drop"] {
        b.insert_new(proto(n), ty());
    }
    let expected: Vec<Vec<u8>> =
        vec![b"alloc".to_vec(), b"drop".to_vec(), b"ne".to_vec(), b"new".to_vec()];
    assert_eq!(names(&a), expected);
    assert_eq!(names(&b), expected);
    assert!(a.contains_key(&proto(b"drop")));
    assert!(!a.contains_key(&proto(b"dro")));
}

#[test]
fn byte_order_is_lexicographic() {
    assert_eq!(compare_bytes(&b"abc".to_vec(), &b"abd".to_vec()), -1);
    assert_eq!(compare_bytes(&b"abd".to_vec(), &b"abc".to_vec()), 1);
    assert_eq!(compare_bytes(&b"ab".to_vec(), &b"abc".to_vec()), -1);
    assert_eq!(compare_bytes(&b"abc".to_vec(), &b"ab".to_vec()), 1);
    assert_eq!(compare_bytes(&b"abc".to_vec(), &b"abc".to_vec()), 0);
    assert_eq!(compare_bytes(&vec![], &vec![]), 0);
}

#[test]
fn new_intrinsic_descriptor() {
    let target = TargetData { pointer_bits: 32 };
    assert_eq!(Intrinsic::New.prototype(&target).name, b"new".to_vec());
    let ty = Intrinsic::New.ir_type(&target);
    assert_eq!(ty.params, vec![IrType::Pointer(32), IrType::Pointer(32)]);
    assert_eq!(ty.ret, IrType::Pointer(32));
}
