//! Call prototypes, their total order, and the ordered intrinsic dependency map.
use vstd::prelude::*;

verus! {

/// Strict lexicographic order on byte strings.
pub open spec fn bytes_lt(a: Seq<u8>, b: Seq<u8>) -> bool
    decreases a.len(),
{
    if a.len() == 0 {
        b.len() > 0
    } else if b.len() == 0 {
        false
    } else if a[0] != b[0] {
        a[0] < b[0]
    } else {
        bytes_lt(a.subrange(1, a.len() as int), b.subrange(1, b.len() as int))
    }
}

pub proof fn lemma_bytes_lt_irreflexive(a: Seq<u8>)
    ensures
        !bytes_lt(a, a),
    decreases a.len(),
{
    if a.len() > 0 {
        lemma_bytes_lt_irreflexive(a.subrange(1, a.len() as int));
    }
}

pub proof fn lemma_bytes_lt_transitive(a: Seq<u8>, b: Seq<u8>, c: Seq<u8>)
    requires
        bytes_lt(a, b),
        bytes_lt(b, c),
    ensures
        bytes_lt(a, c),
    decreases a.len(),
{
    if a.len() > 0 && b.len() > 0 && c.len() > 0 && a[0] == b[0] && b[0] == c[0] {
        lemma_bytes_lt_transitive(
            a.subrange(1, a.len() as int),
            b.subrange(1, b.len() as int),
            c.subrange(1, c.len() as int),
        );
    }
}

pub proof fn lemma_bytes_lt_total(a: Seq<u8>, b: Seq<u8>)
    ensures
        a == b || bytes_lt(a, b) || bytes_lt(b, a),
    decreases a.len(),
{
    if a.len() > 0 && b.len() > 0 && a[0] == b[0] {
        let ta = a.subrange(1, a.len() as int);
        let tb = b.subrange(1, b.len() as int);
        lemma_bytes_lt_total(ta, tb);
        if ta == tb {
            assert(a =~= seq![a[0]] + ta);
            assert(b =~= seq![b[0]] + tb);
        }
    } else if a.len() == 0 && b.len() == 0 {
        assert(a =~= b);
    }
}

pub proof fn lemma_bytes_lt_asymmetric(a: Seq<u8>, b: Seq<u8>)
    requires
        bytes_lt(a, b),
    ensures
        !bytes_lt(b, a),
{
    if bytes_lt(b, a) {
        lemma_bytes_lt_transitive(a, b, a);
        lemma_bytes_lt_irreflexive(a);
    }
}

/// Three-way comparison of two byte strings: negative, zero or positive as
/// `a` sorts before, equal to, or after `b`.
pub fn compare_bytes(a: &Vec<u8>, b: &Vec<u8>) -> (r: i8)
    ensures
        r < 0 <==> bytes_lt(a@, b@),
        r == 0 <==> a@ == b@,
        r > 0 <==> bytes_lt(b@, a@),
{
    let mut i: usize = 0;
    assert(a@.subrange(0, a.len() as int) =~= a@);
    assert(b@.subrange(0, b.len() as int) =~= b@);
    while i < a.len() && i < b.len()
        invariant
            i <= a.len(),
            i <= b.len(),
            a@.subrange(0, i as int) == b@.subrange(0, i as int),
            bytes_lt(a@, b@) == bytes_lt(a@.subrange(i as int, a.len() as int), b@.subrange(i as int, b.len() as int)),
            bytes_lt(b@, a@) == bytes_lt(b@.subrange(i as int, b.len() as int), a@.subrange(i as int, a.len() as int)),
        decreases a.len() - i,
    {
        let x = a[i];
        let y = b[i];
        let ghost ta = a@.subrange(i as int, a.len() as int);
        let ghost tb = b@.subrange(i as int, b.len() as int);
        assert(ta.subrange(1, ta.len() as int) =~= a@.subrange(i + 1, a.len() as int));
        assert(tb.subrange(1, tb.len() as int) =~= b@.subrange(i + 1, b.len() as int));
        if x < y {
            proof { lemma_bytes_lt_asymmetric(ta, tb); assert(a@[i as int] != b@[i as int]); }
            return -1;
        }
        if x > y {
            proof { lemma_bytes_lt_asymmetric(tb, ta); assert(a@[i as int] != b@[i as int]); }
            return 1;
        }
        assert(a@.subrange(0, i + 1) =~= a@.subrange(0, i as int).push(x));
        assert(b@.subrange(0, i + 1) =~= b@.subrange(0, i as int).push(y));
        i = i + 1;
    }
    let ghost ta = a@.subrange(i as int, a.len() as int);
    let ghost tb = b@.subrange(i as int, b.len() as int);
    if a.len() < b.len() {
        assert(a@ =~= b@.subrange(0, i as int));
        assert(a@.len() != b@.len());
        proof { lemma_bytes_lt_asymmetric(ta, tb); }
        -1
    } else if a.len() > b.len() {
        assert(b@ =~= a@.subrange(0, i as int));
        assert(a@.len() != b@.len());
        proof { lemma_bytes_lt_asymmetric(tb, ta); }
        1
    } else {
        assert(a@ =~= a@.subrange(0, i as int));
        assert(b@ =~= b@.subrange(0, i as int));
        proof { lemma_bytes_lt_irreflexive(a@); }
        0
    }
}

/// A low-level value type of the compilation target.
#[derive(Clone, Copy, Debug, PartialEq, Eq, Structural)]
pub enum IrType {
    /// An integer of the given width in bits.
    Int(u32),
    /// An opaque pointer of the given width in bits.
    Pointer(u32),
}

/// A concrete low-level function type: parameter types and return type.
#[derive(Clone, Debug)]
pub struct FunctionType {
    pub params: Vec<IrType>,
    pub ret: IrType,
}

impl View for FunctionType {
    type V = (Seq<IrType>, IrType);

    open spec fn view(&self) -> (Seq<IrType>, IrType) {
        (self.params@, self.ret)
    }
}

/// The canonical, ordered description of a call target: its symbolic name.
#[derive(Clone, Debug)]
pub struct FunctionPrototype {
    pub name: Vec<u8>,
}

impl View for FunctionPrototype {
    type V = Seq<u8>;

    open spec fn view(&self) -> Seq<u8> {
        self.name@
    }
}

/// Addressing parameters of the compilation target.
#[derive(Clone, Copy, Debug, PartialEq, Eq, Structural)]
pub struct TargetData {
    pub pointer_bits: u32,
}

/// A runtime support function that compiled code may call.
///
/// Only allocation of a new instance is collected today; a deallocation
/// intrinsic would be added here as a further variant.
#[derive(Clone, Copy, Debug, PartialEq, Eq, Structural)]
pub enum Intrinsic {
    /// Constructs a new heap-allocated instance of a struct.
    New,
}

/// The symbolic name of an intrinsic; independent of the target.
pub open spec fn intrinsic_name(i: Intrinsic) -> Seq<u8> {
    match i {
        Intrinsic::New => seq![110u8, 101u8, 119u8],
    }
}

/// The function type of an intrinsic on a target: `new` takes a type handle
/// and an allocator handle and returns a handle to the object.
pub open spec fn intrinsic_type(i: Intrinsic, target: TargetData) -> (Seq<IrType>, IrType) {
    match i {
        Intrinsic::New => (
            seq![IrType::Pointer(target.pointer_bits), IrType::Pointer(target.pointer_bits)],
            IrType::Pointer(target.pointer_bits),
        ),
    }
}

impl Intrinsic {
    /// The canonical call prototype of this intrinsic.
    pub fn prototype(&self, target: &TargetData) -> (r: FunctionPrototype)
        ensures
            r@ == intrinsic_name(*self),
    {
        match self {
            Intrinsic::New => {
                let name: Vec<u8> = vec![110u8, 101u8, 119u8];
                assert(name@ =~= intrinsic_name(*self));
                FunctionPrototype { name }
            },
        }
    }

    /// The concrete function type of this intrinsic on `target`.
    pub fn ir_type(&self, target: &TargetData) -> (r: FunctionType)
        ensures
            r@ == intrinsic_type(*self, *target),
    {
        match self {
            Intrinsic::New => {
                let ptr = IrType::Pointer(target.pointer_bits);
                let params: Vec<IrType> = vec![ptr, ptr];
                assert(params@ =~= intrinsic_type(*self, *target).0);
                FunctionType { params, ret: ptr }
            },
        }
    }
}

/// An entry of the dependency map, as seen by contracts.
pub type EntryView = (Seq<u8>, (Seq<IrType>, IrType));

/// Whether some entry of `s` has the key `k`.
pub open spec fn has_key(s: Seq<EntryView>, k: Seq<u8>) -> bool {
    exists|i: int| 0 <= i < s.len() && s[i].0 == k
}

/// Keys strictly increase along the sequence.
pub open spec fn strictly_sorted(s: Seq<EntryView>) -> bool {
    forall|i: int, j: int| 0 <= i < j < s.len() ==> bytes_lt(#[trigger] s[i].0, #[trigger] s[j].0)
}

/// An ordered map from call prototype to function type.
///
/// Entries are kept sorted by prototype, so the iteration order depends on
/// the contents alone and not on the order of insertion.
pub struct IntrinsicsMap {
    entries: Vec<(FunctionPrototype, FunctionType)>,
}

impl View for IntrinsicsMap {
    type V = Seq<EntryView>;

    closed spec fn view(&self) -> Seq<EntryView> {
        self.entries@.map_values(|e: (FunctionPrototype, FunctionType)| (e.0@, e.1@))
    }
}

impl IntrinsicsMap {
    pub open spec fn wf(&self) -> bool {
        strictly_sorted(self@)
    }

    /// An empty map.
    pub fn new() -> (r: IntrinsicsMap)
        ensures
            r.wf(),
            r@.len() == 0,
    {
        IntrinsicsMap { entries: Vec::new() }
    }

    /// The number of entries.
    pub fn len(&self) -> (r: usize)
        ensures
            r == self@.len(),
    {
        self.entries.len()
    }

    /// The prototype and function type at position `i` in key order.
    pub fn entry(&self, i: usize) -> (r: (&FunctionPrototype, &FunctionType))
        requires
            i < self@.len(),
        ensures
            (r.0@, r.1@) == self@[i as int],
    {
        let e = &self.entries[i];
        (&e.0, &e.1)
    }

    /// Whether the map has an entry for `key`.
    pub fn contains_key(&self, key: &FunctionPrototype) -> (r: bool)
        ensures
            r == has_key(self@, key@),
    {
        let mut i: usize = 0;
        while i < self.entries.len()
            invariant
                i <= self.entries@.len(),
                self@.len() == self.entries@.len(),
                forall|j: int| 0 <= j < i ==> self@[j].0 != key@,
            decreases self.entries@.len() - i,
        {
            if compare_bytes(&self.entries[i].0.name, &key.name) == 0 {
                assert(self@[i as int].0 == key@);
                return true;
            }
            i = i + 1;
        }
        false
    }

    /// Adds an entry for a prototype that has none, at its place in key order.
    pub fn insert_new(&mut self, key: FunctionPrototype, value: FunctionType)
        requires
            old(self).wf(),
            !has_key(old(self)@, key@),
        ensures
            final(self).wf(),
            final(self)@.len() == old(self)@.len() + 1,
            forall|x: EntryView| #[trigger] final(self)@.contains(x) <==> (old(self)@.contains(x) || x == (key@, value@)),
    {
        let ghost s = self@;
        let mut i: usize = 0;
        while i < self.entries.len() && compare_bytes(&self.entries[i].0.name, &key.name) < 0
            invariant
                i <= self.entries@.len(),
                self@ == s,
                s.len() == self.entries@.len(),
                forall|j: int| 0 <= j < i ==> bytes_lt(#[trigger] s[j].0, key@),
            decreases self.entries@.len() - i,
        {
            assert(s[i as int].0 == self.entries@[i as int].0@);
            i = i + 1;
        }
        let ghost e = (key@, value@);
        proof {
            if i < s.len() {
                assert(s[i as int].0 == self.entries@[i as int].0@);
                lemma_bytes_lt_total(s[i as int].0, key@);
                assert(s[i as int].0 != key@);
                assert(bytes_lt(key@, s[i as int].0));
            }
        }
        self.entries.insert(i, (key, value));
        proof {
            let t = self@;
            assert(t =~= s.insert(i as int, e));
            assert forall|a: int, b: int| 0 <= a < b < t.len() implies bytes_lt(#[trigger] t[a].0, #[trigger] t[b].0) by {
                if b == i {
                } else if a == i {
                    if b > i + 1 {
                        lemma_bytes_lt_transitive(key@, s[i as int].0, s[b - 1].0);
                    }
                } else {
                    let a0 = if a < i { a } else { a - 1 };
                    let b0 = if b < i { b } else { b - 1 };
                    assert(t[a] == s[a0] && t[b] == s[b0]);
                }
            }
            assert forall|x: EntryView| #[trigger] t.contains(x) <==> (s.contains(x) || x == e) by {
                if t.contains(x) {
                    let k = choose|k: int| 0 <= k < t.len() && t[k] == x;
                    if k < i {
                        assert(s[k] == x);
                    } else if k > i {
                        assert(s[k - 1] == x);
                    }
                }
                if s.contains(x) {
                    let k = choose|k: int| 0 <= k < s.len() && s[k] == x;
                    if k < i {
                        assert(t[k] == x);
                    } else {
                        assert(t[k + 1] == x);
                    }
                }
                if x == e {
                    assert(t[i as int] == x);
                }
            }
        }
    }
}

/// Two well-formed maps that hold the same entries list them in the same
/// order: the order of a map is a function of its contents.
pub proof fn lemma_order_determined_by_contents(a: Seq<EntryView>, b: Seq<EntryView>)
    requires
        strictly_sorted(a),
        strictly_sorted(b),
        forall|x: EntryView| a.contains(x) <==> b.contains(x),
    ensures
        a == b,
    decreases a.len(),
{
    if a.len() == 0 {
        if b.len() > 0 {
            assert(b.contains(b[0]));
        }
        assert(a =~= b);
    } else {
        assert(a.contains(a[0]));
        let j = choose|j: int| 0 <= j < b.len() && b[j] == a[0];
        assert(b.contains(b[0]));
        let i = choose|i: int| 0 <= i < a.len() && a[i] == b[0];
        if j > 0 {
            assert(bytes_lt(b[0].0, b[j].0));
            if i > 0 {
                assert(bytes_lt(a[0].0, a[i].0));
                lemma_bytes_lt_asymmetric(a[0].0, b[0].0);
            } else {
                lemma_bytes_lt_irreflexive(a[0].0);
            }
        }
        assert(a[0] == b[0]);
        let ta = a.subrange(1, a.len() as int);
        let tb = b.subrange(1, b.len() as int);
        assert forall|x: EntryView| ta.contains(x) <==> tb.contains(x) by {
            if ta.contains(x) {
                let k = choose|k: int| 0 <= k < ta.len() && ta[k] == x;
                assert(a.contains(x) && a[k + 1] == x);
                assert(bytes_lt(a[0].0, a[k + 1].0));
                lemma_bytes_lt_irreflexive(a[0].0);
                let m = choose|m: int| 0 <= m < b.len() && b[m] == x;
                assert(m != 0);
                assert(tb[m - 1] == x);
            }
            if tb.contains(x) {
                let k = choose|k: int| 0 <= k < tb.len() && tb[k] == x;
                assert(b.contains(x) && b[k + 1] == x);
                assert(bytes_lt(b[0].0, b[k + 1].0));
                lemma_bytes_lt_irreflexive(b[0].0);
                let m = choose|m: int| 0 <= m < a.len() && a[m] == x;
                assert(m != 0);
                assert(ta[m - 1] == x);
            }
        }
        lemma_order_determined_by_contents(ta, tb);
        assert(a =~= seq![a[0]] + ta);
        assert(b =~= seq![b[0]] + tb);
    }
}

} // verus!
