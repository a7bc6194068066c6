//! Collection of the intrinsics that a typed body needs at run time.
use vstd::prelude::*;
use crate::prototype::{
    bytes_lt, has_key, intrinsic_name, intrinsic_type, lemma_bytes_lt_irreflexive,
    lemma_order_determined_by_contents, strictly_sorted, EntryView, Intrinsic, IntrinsicsMap,
    TargetData,
};

verus! {

/// What the callee of a call expression was inferred to be.
#[derive(Clone, Copy, Debug, PartialEq, Eq, Structural)]
pub enum CallableDef {
    /// An ordinary function, by its definition id.
    Function(u32),
    /// The constructor of a tuple-like struct, by its definition id.
    Struct(u32),
}

/// What a path expression resolves to in the value namespace, associated
/// items left aside.
#[derive(Clone, Copy, Debug, PartialEq, Eq, Structural)]
pub enum Resolution {
    /// A struct definition used as a value (a unit-like construction).
    Struct(u32),
    /// A function definition.
    Function(u32),
    /// A local binding.
    Local(u32),
}

/// An expression of a body. Sub-expressions are ids into the same body.
#[allow(inconsistent_fields)]
#[derive(Clone, Debug)]
pub enum Expr {
    Missing,
    Literal(i64),
    Path,
    Call { callee: usize, args: Vec<usize> },
    RecordLit { fields: Vec<usize>, spread: Option<usize> },
    Block { statements: Vec<usize>, tail: Option<usize> },
    BinaryOp { lhs: usize, rhs: usize },
    UnaryOp { expr: usize },
    If { condition: usize, then_branch: usize, else_branch: Option<usize> },
    Return { expr: Option<usize> },
}

pub open spec fn opt_seq(o: Option<usize>) -> Seq<usize> {
    match o {
        Some(e) => seq![e],
        None => Seq::empty(),
    }
}

/// The direct sub-expressions of an expression, in source order.
pub open spec fn child_exprs(e: Expr) -> Seq<usize> {
    match e {
        Expr::Missing => Seq::empty(),
        Expr::Literal(_) => Seq::empty(),
        Expr::Path => Seq::empty(),
        Expr::Call { callee, args } => seq![callee] + args@,
        Expr::RecordLit { fields, spread } => fields@ + opt_seq(spread),
        Expr::Block { statements, tail } => statements@ + opt_seq(tail),
        Expr::BinaryOp { lhs, rhs } => seq![lhs, rhs],
        Expr::UnaryOp { expr } => seq![expr],
        Expr::If { condition, then_branch, else_branch } => seq![condition, then_branch] + opt_seq(else_branch),
        Expr::Return { expr } => opt_seq(expr),
    }
}

fn push_opt(v: &mut Vec<usize>, o: Option<usize>)
    ensures
        final(v)@ == old(v)@ + opt_seq(o),
{
    match o {
        Some(e) => {
            v.push(e);
        },
        None => {
            assert(old(v)@ + opt_seq(o) =~= old(v)@);
        },
    }
}

impl Expr {
    /// The direct sub-expressions of this expression, in source order.
    pub fn children(&self) -> (r: Vec<usize>)
        ensures
            r@ == child_exprs(*self),
    {
        let mut v: Vec<usize> = Vec::new();
        match self {
            Expr::Missing | Expr::Literal(_) | Expr::Path => {},
            Expr::Call { callee, args } => {
                v.push(*callee);
                let mut a = args.clone();
                v.append(&mut a);
            },
            Expr::RecordLit { fields, spread } => {
                v = fields.clone();
                push_opt(&mut v, *spread);
            },
            Expr::Block { statements, tail } => {
                v = statements.clone();
                push_opt(&mut v, *tail);
            },
            Expr::BinaryOp { lhs, rhs } => {
                v.push(*lhs);
                v.push(*rhs);
            },
            Expr::UnaryOp { expr } => {
                v.push(*expr);
            },
            Expr::If { condition, then_branch, else_branch } => {
                v.push(*condition);
                v.push(*then_branch);
                push_opt(&mut v, *else_branch);
            },
            Expr::Return { expr } => {
                push_opt(&mut v, *expr);
            },
        }
        assert(v@ =~= child_exprs(*self));
        v
    }
}

/// A typed function body: an arena of expressions and its root expression.
#[derive(Clone, Debug)]
pub struct Body {
    pub exprs: Vec<Expr>,
    pub body_expr: usize,
}

/// What name resolution and type inference found for a body, by expression id:
/// the callable that an expression denotes, and the value a path resolves to.
#[derive(Clone, Debug)]
pub struct InferenceResult {
    pub callables: Vec<Option<CallableDef>>,
    pub resolutions: Vec<Option<Resolution>>,
}

impl Body {
    /// Every sub-expression was allocated before its parent, the root exists.
    pub open spec fn wf(&self) -> bool {
        &&& self.body_expr < self.exprs@.len()
        &&& forall|e: int, j: int|
            0 <= e < self.exprs@.len() && 0 <= j < child_exprs(self.exprs@[e]).len()
                ==> 0 <= #[trigger] child_exprs(self.exprs@[e])[j] < e
    }
}

impl InferenceResult {
    /// The result has an entry for every expression of `body`.
    pub open spec fn covers(&self, body: &Body) -> bool {
        &&& self.callables@.len() == body.exprs@.len()
        &&& self.resolutions@.len() == body.exprs@.len()
    }
}

/// Expression `e` itself allocates: a struct literal, a call of a struct
/// constructor, or a path that names a struct as a value.
pub open spec fn allocates_here(b: Body, inf: InferenceResult, e: int) -> bool {
    match b.exprs@[e] {
        Expr::Call { callee, .. } => inf.callables@[callee as int] matches Some(CallableDef::Struct(_)),
        Expr::RecordLit { .. } => true,
        Expr::Path => inf.resolutions@[e] matches Some(Resolution::Struct(_)),
        _ => false,
    }
}

/// Expression `e` is fully resolved itself: a call's callee is callable and a
/// path resolves to a value.
pub open spec fn resolved_here(b: Body, inf: InferenceResult, e: int) -> bool {
    match b.exprs@[e] {
        Expr::Call { callee, .. } => inf.callables@[callee as int] is Some,
        Expr::Path => inf.resolutions@[e] is Some,
        _ => true,
    }
}

/// Some expression in the tree rooted at `e` allocates.
pub open spec fn allocates(b: Body, inf: InferenceResult, e: int) -> bool
    decreases e, 1int, 0int,
{
    if 0 <= e < b.exprs@.len() {
        allocates_here(b, inf, e) || children_allocate(b, inf, e, child_exprs(b.exprs@[e]).len() as int)
    } else {
        false
    }
}

/// Some tree rooted at one of the first `k` children of `e` allocates.
pub open spec fn children_allocate(b: Body, inf: InferenceResult, e: int, k: int) -> bool
    decreases e, 0int, k,
{
    if k <= 0 || e < 0 || e >= b.exprs@.len() || k > child_exprs(b.exprs@[e]).len() {
        false
    } else {
        let c = child_exprs(b.exprs@[e])[k - 1];
        children_allocate(b, inf, e, k - 1) || (if 0 <= c < e { allocates(b, inf, c as int) } else { false })
    }
}

/// Every expression in the tree rooted at `e` is resolved.
pub open spec fn resolved(b: Body, inf: InferenceResult, e: int) -> bool
    decreases e, 1int, 0int,
{
    if 0 <= e < b.exprs@.len() {
        resolved_here(b, inf, e) && children_resolved(b, inf, e, child_exprs(b.exprs@[e]).len() as int)
    } else {
        false
    }
}

/// The trees rooted at the first `k` children of `e` are resolved.
pub open spec fn children_resolved(b: Body, inf: InferenceResult, e: int, k: int) -> bool
    decreases e, 0int, k,
{
    if k <= 0 || e < 0 || e >= b.exprs@.len() || k > child_exprs(b.exprs@[e]).len() {
        true
    } else {
        let c = child_exprs(b.exprs@[e])[k - 1];
        children_resolved(b, inf, e, k - 1) && (if 0 <= c < e { resolved(b, inf, c as int) } else { false })
    }
}

/// `t` is `s` with the entry of intrinsic `i` added when `triggered` and `s`
/// has no entry for its prototype yet; an existing entry is kept.
pub open spec fn with_intrinsic(s: Seq<EntryView>, t: Seq<EntryView>, i: Intrinsic, target: TargetData, triggered: bool) -> bool {
    forall|x: EntryView| #[trigger] t.contains(x) <==> (s.contains(x) || (triggered && !has_key(s, intrinsic_name(i)) && x == (intrinsic_name(i), intrinsic_type(i, target))))
}

proof fn lemma_with_intrinsic_chain(s: Seq<EntryView>, t: Seq<EntryView>, u: Seq<EntryView>, i: Intrinsic, target: TargetData, f1: bool, f2: bool)
    requires
        with_intrinsic(s, t, i, target, f1),
        with_intrinsic(t, u, i, target, f2),
    ensures
        with_intrinsic(s, u, i, target, f1 || f2),
{
    let n = intrinsic_name(i);
    let e = (n, intrinsic_type(i, target));
    if has_key(s, n) {
        let k = choose|k: int| 0 <= k < s.len() && s[k].0 == n;
        assert(s.contains(s[k]));
        assert(t.contains(s[k]));
        let m = choose|m: int| 0 <= m < t.len() && t[m] == s[k];
        assert(has_key(t, n));
    } else if f1 {
        assert(t.contains(e));
        let m = choose|m: int| 0 <= m < t.len() && t[m] == e;
        assert(has_key(t, n));
    } else if has_key(t, n) {
        let k = choose|k: int| 0 <= k < t.len() && t[k].0 == n;
        assert(t.contains(t[k]));
        let m = choose|m: int| 0 <= m < s.len() && s[m] == t[k];
        assert(has_key(s, n));
    }
    assert forall|x: EntryView| #[trigger] u.contains(x) <==> (s.contains(x) || ((f1 || f2) && !has_key(s, n) && x == e)) by {
        assert(u.contains(x) <==> (t.contains(x) || (f2 && !has_key(t, n) && x == e)));
        assert(t.contains(x) <==> (s.contains(x) || (f1 && !has_key(s, n) && x == e)));
    }
}

proof fn lemma_with_intrinsic_refl(s: Seq<EntryView>, i: Intrinsic, target: TargetData)
    ensures
        with_intrinsic(s, s, i, target, false),
{
}

/// Records that the body needs intrinsic `i`; a prototype that is already in
/// the map keeps its first function type.
fn collect_intrinsic(target: &TargetData, entries: &mut IntrinsicsMap, intrinsic: &Intrinsic)
    requires
        old(entries).wf(),
    ensures
        final(entries).wf(),
        with_intrinsic(old(entries)@, final(entries)@, *intrinsic, *target, true),
{
    let prototype = intrinsic.prototype(target);
    if !entries.contains_key(&prototype) {
        let ty = intrinsic.ir_type(target);
        entries.insert_new(prototype, ty);
    }
}

proof fn lemma_child_resolved(b: Body, inf: InferenceResult, e: int, k: int, j: int)
    requires
        b.wf(),
        0 <= e < b.exprs@.len(),
        0 <= j < k <= child_exprs(b.exprs@[e]).len(),
        children_resolved(b, inf, e, k),
    ensures
        resolved(b, inf, child_exprs(b.exprs@[e])[j] as int),
    decreases k,
{
    let c = child_exprs(b.exprs@[e])[k - 1];
    assert(0 <= c < e);
    if j < k - 1 {
        lemma_child_resolved(b, inf, e, k - 1, j);
    }
}

/// Walks the tree rooted at `expr_id`, recording the allocation intrinsic for
/// every struct literal, struct constructor call and struct-valued path.
fn collect_expr(
    target: &TargetData,
    entries: &mut IntrinsicsMap,
    needs_alloc: &mut bool,
    expr_id: usize,
    body: &Body,
    infer: &InferenceResult,
)
    requires
        old(entries).wf(),
        body.wf(),
        infer.covers(body),
        expr_id < body.exprs@.len(),
        resolved(*body, *infer, expr_id as int),
    ensures
        final(entries).wf(),
        *final(needs_alloc) == (*old(needs_alloc) || allocates(*body, *infer, expr_id as int)),
        with_intrinsic(old(entries)@, final(entries)@, Intrinsic::New, *target, allocates(*body, *infer, expr_id as int)),
    decreases expr_id,
{
    let ghost b = *body;
    let ghost inf = *infer;
    let ghost e = expr_id as int;
    let ghost s0 = entries@;
    let ghost a0 = *needs_alloc;
    let ghost here = allocates_here(b, inf, e);
    let expr = &body.exprs[expr_id];
    match expr {
        Expr::Call { callee, .. } => {
            assert(child_exprs(b.exprs@[e])[0] == *callee);
            match infer.callables[*callee] {
                Some(CallableDef::Struct(_)) => {
                    collect_intrinsic(target, entries, &Intrinsic::New);
                    *needs_alloc = true;
                },
                Some(CallableDef::Function(_)) => {},
                None => {
                    proof {
                        assert(false);
                    }
                },
            }
        },
        Expr::RecordLit { .. } => {
            collect_intrinsic(target, entries, &Intrinsic::New);
            *needs_alloc = true;
        },
        Expr::Path => {
            match infer.resolutions[expr_id] {
                Some(Resolution::Struct(_)) => {
                    collect_intrinsic(target, entries, &Intrinsic::New);
                    *needs_alloc = true;
                },
                _ => {},
            }
        },
        _ => {},
    }
    proof {
        if !here {
            lemma_with_intrinsic_refl(s0, Intrinsic::New, *target);
        }
    }
    let children = expr.children();
    let mut i: usize = 0;
    while i < children.len()
        invariant
            entries.wf(),
            body.wf(),
            infer.covers(body),
            b == *body,
            inf == *infer,
            e == expr_id as int,
            0 <= e < b.exprs@.len(),
            resolved(b, inf, e),
            children@ == child_exprs(b.exprs@[e]),
            i <= children@.len(),
            *needs_alloc == (a0 || here || children_allocate(b, inf, e, i as int)),
            with_intrinsic(s0, entries@, Intrinsic::New, *target, here || children_allocate(b, inf, e, i as int)),
        decreases children@.len() - i,
    {
        let c = children[i];
        assert(0 <= c < e);
        proof {
            lemma_child_resolved(b, inf, e, children@.len() as int, i as int);
        }
        let ghost s1 = entries@;
        collect_expr(target, entries, needs_alloc, c, body, infer);
        proof {
            lemma_with_intrinsic_chain(
                s0,
                s1,
                entries@,
                Intrinsic::New,
                *target,
                here || children_allocate(b, inf, e, i as int),
                allocates(b, inf, c as int),
            );
        }
        i = i + 1;
    }
}

/// Collects the intrinsics that a function body needs into `entries`, and sets
/// `needs_alloc` when the body allocates anywhere.
pub fn collect_fn_body(
    target: &TargetData,
    entries: &mut IntrinsicsMap,
    needs_alloc: &mut bool,
    body: &Body,
    infer: &InferenceResult,
)
    requires
        old(entries).wf(),
        body.wf(),
        infer.covers(body),
        resolved(*body, *infer, body.body_expr as int),
    ensures
        final(entries).wf(),
        *final(needs_alloc) == (*old(needs_alloc) || allocates(*body, *infer, body.body_expr as int)),
        with_intrinsic(old(entries)@, final(entries)@, Intrinsic::New, *target, allocates(*body, *infer, body.body_expr as int)),
{
    collect_expr(target, entries, needs_alloc, body.body_expr, body, infer);
}

/// Collects the intrinsics of a synthesized wrapper, which always constructs
/// its result and so always needs allocation.
pub fn collect_wrapper_body(target: &TargetData, entries: &mut IntrinsicsMap, needs_alloc: &mut bool)
    requires
        old(entries).wf(),
    ensures
        final(entries).wf(),
        *final(needs_alloc),
        with_intrinsic(old(entries)@, final(entries)@, Intrinsic::New, *target, true),
{
    collect_intrinsic(target, entries, &Intrinsic::New);
    *needs_alloc = true;
}

/// Two collections that start from the same map and agree on whether the
/// intrinsic was triggered end with the same entries in the same order,
/// whatever path each walk took.
pub proof fn lemma_collection_deterministic(
    s: Seq<EntryView>,
    t1: Seq<EntryView>,
    t2: Seq<EntryView>,
    i: Intrinsic,
    target: TargetData,
    triggered: bool,
)
    requires
        strictly_sorted(t1),
        strictly_sorted(t2),
        with_intrinsic(s, t1, i, target, triggered),
        with_intrinsic(s, t2, i, target, triggered),
    ensures
        t1 == t2,
{
    assert forall|x: EntryView| t1.contains(x) <==> t2.contains(x) by {
        assert(t1.contains(x) == t2.contains(x));
    }
    lemma_order_determined_by_contents(t1, t2);
}

/// A well-formed map holds at most one entry for each prototype, however
/// often the intrinsic behind it was requested.
pub proof fn lemma_one_entry_per_prototype(s: Seq<EntryView>, j: int, k: int)
    requires
        strictly_sorted(s),
        0 <= j < s.len(),
        0 <= k < s.len(),
        s[j].0 == s[k].0,
    ensures
        j == k,
{
    if j < k {
        assert(bytes_lt(s[j].0, s[k].0));
        lemma_bytes_lt_irreflexive(s[j].0);
    } else if k < j {
        assert(bytes_lt(s[k].0, s[j].0));
        lemma_bytes_lt_irreflexive(s[j].0);
    }
}

} // verus!
