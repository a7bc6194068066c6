//! Stable identities for the module items of a syntax tree.
use vstd::prelude::*;
use core::marker::PhantomData;

verus! {

/// Where a node lives in one parsed tree: its kind and its text range.
#[derive(Clone, Copy, Debug, PartialEq, Eq, Hash, Structural)]
pub struct SyntaxNodePtr {
    pub kind: u16,
    pub start: u32,
    pub end: u32,
}

/// A node of a parsed tree, in an arena of nodes.
#[derive(Clone, Debug)]
pub struct SyntaxNode {
    pub ptr: SyntaxNodePtr,
    /// Whether the node is a module item (a function, struct, impl, ...).
    pub is_module_item: bool,
    pub parent: Option<usize>,
    pub children: Vec<usize>,
}

/// A parsed tree. Node 0 is the root; every other node comes after its parent.
#[derive(Clone, Debug)]
pub struct SyntaxTree {
    pub nodes: Vec<SyntaxNode>,
}

impl SyntaxTree {
    pub open spec fn wf(&self) -> bool {
        let n = self.nodes@.len();
        &&& n > 0
        &&& self.nodes@[0].parent is None
        &&& forall|i: int| #![trigger self.nodes@[i].parent]
            0 < i < n ==> {
                &&& self.nodes@[i].parent matches Some(p)
                &&& p < i
                &&& self.nodes@[p as int].children@.contains(i as usize)
            }
        &&& forall|p: int, j: int|
            0 <= p < n && 0 <= j < self.nodes@[p].children@.len() ==> {
                let c = #[trigger] self.nodes@[p].children@[j];
                &&& p < c < n
                &&& self.nodes@[c as int].parent == Some(p as usize)
            }
        &&& forall|i: int, j: int|
            0 <= i < n && 0 <= j < n && i != j ==> #[trigger] self.nodes@[i].ptr != #[trigger] self.nodes@[j].ptr
    }
}

/// The children of the nodes of `s`, in order: the layer below `s`.
pub open spec fn next_layer(t: SyntaxTree, s: Seq<usize>) -> Seq<usize>
    decreases s.len(),
{
    if s.len() == 0 {
        Seq::empty()
    } else {
        let last = s.last();
        next_layer(t, s.drop_last()) + (if last < t.nodes@.len() { t.nodes@[last as int].children@ } else { Seq::empty() })
    }
}

/// The nodes at depth `k`, in breadth-first order.
pub open spec fn layer(t: SyntaxTree, k: nat) -> Seq<usize>
    decreases k,
{
    if k == 0 {
        seq![0usize]
    } else {
        next_layer(t, layer(t, (k - 1) as nat))
    }
}

/// The nodes at depths below `k`, level by level.
pub open spec fn visit_order(t: SyntaxTree, k: nat) -> Seq<usize>
    decreases k,
{
    if k == 0 {
        Seq::empty()
    } else {
        visit_order(t, (k - 1) as nat) + layer(t, (k - 1) as nat)
    }
}

/// The locators of the module items among the nodes `s`, in order.
pub open spec fn item_ptrs(t: SyntaxTree, s: Seq<usize>) -> Seq<SyntaxNodePtr>
    decreases s.len(),
{
    if s.len() == 0 {
        Seq::empty()
    } else {
        let n = s.last();
        item_ptrs(t, s.drop_last()) + (if n < t.nodes@.len() && t.nodes@[n as int].is_module_item {
            seq![t.nodes@[n as int].ptr]
        } else {
            Seq::empty()
        })
    }
}

/// The identities assigned to a tree: the locators of its module items in
/// breadth-first order, the identity of each being its position.
pub open spec fn assign(t: SyntaxTree) -> Seq<SyntaxNodePtr> {
    item_ptrs(t, visit_order(t, t.nodes@.len() as nat))
}

proof fn lemma_next_layer_bound(t: SyntaxTree, s: Seq<usize>, lo: int)
    requires
        t.wf(),
        forall|i: int| 0 <= i < s.len() ==> lo <= #[trigger] s[i] < t.nodes@.len(),
    ensures
        forall|i: int| 0 <= i < next_layer(t, s).len() ==> lo < #[trigger] next_layer(t, s)[i] < t.nodes@.len(),
    decreases s.len(),
{
    if s.len() > 0 {
        let init = s.drop_last();
        lemma_next_layer_bound(t, init, lo);
        let last = s.last();
        let ch = t.nodes@[last as int].children@;
        let a = next_layer(t, init);
        assert forall|i: int| 0 <= i < next_layer(t, s).len() implies lo < #[trigger] next_layer(t, s)[i] < t.nodes@.len() by {
            if i >= a.len() {
                assert(next_layer(t, s)[i] == ch[i - a.len()]);
                assert(last < ch[i - a.len()]);
            } else {
                assert(next_layer(t, s)[i] == a[i]);
            }
        }
    }
}

proof fn lemma_layer_bound(t: SyntaxTree, k: nat)
    requires
        t.wf(),
    ensures
        forall|i: int| 0 <= i < layer(t, k).len() ==> k <= #[trigger] layer(t, k)[i] < t.nodes@.len(),
    decreases k,
{
    if k > 0 {
        lemma_layer_bound(t, (k - 1) as nat);
        lemma_next_layer_bound(t, layer(t, (k - 1) as nat), k - 1);
    }
}

proof fn lemma_empty_layers_stay_empty(t: SyntaxTree, k: nat, m: nat)
    requires
        layer(t, k).len() == 0,
        k <= m,
    ensures
        layer(t, m).len() == 0,
        visit_order(t, m) == visit_order(t, k),
    decreases m,
{
    if m > k {
        lemma_empty_layers_stay_empty(t, k, (m - 1) as nat);
        assert(visit_order(t, m) =~= visit_order(t, (m - 1) as nat));
    }
}

/// The nodes of the tree in breadth-first order: each layer is visited whole
/// before the next one, so every node comes after all shallower nodes.
fn bfs(tree: &SyntaxTree) -> (r: Vec<usize>)
    requires
        tree.wf(),
    ensures
        r@ == visit_order(*tree, tree.nodes@.len() as nat),
        forall|i: int| 0 <= i < r@.len() ==> #[trigger] r@[i] < tree.nodes@.len(),
{
    let ghost t = *tree;
    let ghost n = tree.nodes@.len();
    let mut curr_layer: Vec<usize> = vec![0usize];
    let mut order: Vec<usize> = Vec::new();
    let ghost mut k: nat = 0;
    assert(curr_layer@ =~= layer(t, 0));
    assert(order@ =~= visit_order(t, 0));
    while curr_layer.len() > 0
        invariant
            t == *tree,
            t.wf(),
            n == t.nodes@.len(),
            curr_layer@ == layer(t, k),
            order@ == visit_order(t, k),
            k <= n,
            forall|i: int| 0 <= i < order@.len() ==> #[trigger] order@[i] < n,
        decreases n - k,
    {
        proof {
            lemma_layer_bound(t, k);
            assert(k <= curr_layer@[0] < n);
        }
        let mut next_layer_nodes: Vec<usize> = Vec::new();
        let mut j: usize = 0;
        assert(next_layer_nodes@ =~= next_layer(t, curr_layer@.subrange(0, 0)));
        assert(order@ =~= visit_order(t, k) + curr_layer@.subrange(0, 0));
        while j < curr_layer.len()
            invariant
                t == *tree,
                t.wf(),
                n == t.nodes@.len(),
                curr_layer@ == layer(t, k),
                forall|i: int| 0 <= i < curr_layer@.len() ==> k <= #[trigger] curr_layer@[i] < n,
                j <= curr_layer@.len(),
                next_layer_nodes@ == next_layer(t, curr_layer@.subrange(0, j as int)),
                order@ == visit_order(t, k) + curr_layer@.subrange(0, j as int),
                forall|i: int| 0 <= i < order@.len() ==> #[trigger] order@[i] < n,
            decreases curr_layer@.len() - j,
        {
            let node = curr_layer[j];
            let mut children = tree.nodes[node].children.clone();
            next_layer_nodes.append(&mut children);
            order.push(node);
            assert(curr_layer@.subrange(0, j + 1).drop_last() =~= curr_layer@.subrange(0, j as int));
            assert(order@ =~= visit_order(t, k) + curr_layer@.subrange(0, j + 1));
            j = j + 1;
        }
        assert(curr_layer@.subrange(0, j as int) =~= curr_layer@);
        curr_layer = next_layer_nodes;
        proof {
            k = k + 1;
        }
    }
    proof {
        lemma_empty_layers_stay_empty(t, k, n as nat);
    }
    order
}

/// A kind of syntax node that a typed handle can stand for.
pub trait AstNode {
    /// Whether a node of syntax kind `kind` is of this kind.
    spec fn spec_can_cast(kind: u16) -> bool;

    fn can_cast(kind: u16) -> (r: bool)
        ensures
            r == Self::spec_can_cast(kind),
    ;
}

/// Every node is a syntax node: the untyped kind.
impl AstNode for SyntaxNode {
    open spec fn spec_can_cast(kind: u16) -> bool {
        true
    }

    fn can_cast(kind: u16) -> (r: bool) {
        true
    }
}

/// An identity of a module item within one file's arena.
#[derive(Clone, Copy, Debug, PartialEq, Eq, PartialOrd, Ord, Hash, Structural)]
pub struct ErasedFileAstId(pub usize);

/// An identity tagged with the kind of node it stands for. The tag exists at
/// compile time only: two handles are equal when their identities are.
#[derive(Debug)]
pub struct FileAstId<N> {
    raw: ErasedFileAstId,
    _ty: PhantomData<N>,
}

impl<N> FileAstId<N> {
    pub closed spec fn id(&self) -> usize {
        self.raw.0
    }

    /// The identity without its tag.
    pub fn raw(&self) -> (r: ErasedFileAstId)
        ensures
            r.0 == self.id(),
    {
        self.raw
    }

    /// Places this handle in the file `file_id`.
    pub fn with_file_id(self, file_id: FileId) -> (r: AstId<N>)
        ensures
            r.file_id == file_id,
            r.value.id() == self.id(),
    {
        InFile { file_id, value: self }
    }
}

impl<N> Clone for FileAstId<N> {
    fn clone(&self) -> (r: Self)
        ensures
            r.id() == self.id(),
    {
        FileAstId { raw: self.raw, _ty: PhantomData }
    }
}

impl<N> Copy for FileAstId<N> {
}

impl<N> PartialEq for FileAstId<N> {
    fn eq(&self, other: &Self) -> (r: bool)
        ensures
            r == (self.id() == other.id()),
    {
        self.raw.0 == other.raw.0
    }
}

impl<N> vstd::std_specs::cmp::PartialEqSpecImpl for FileAstId<N> {
    open spec fn obeys_eq_spec() -> bool {
        true
    }

    open spec fn eq_spec(&self, other: &Self) -> bool {
        self.id() == other.id()
    }
}

impl<N> Eq for FileAstId<N> {
}

impl<N> core::hash::Hash for FileAstId<N> {
    /// Relies on `usize`'s `Hash`: only the identity is fed to the hasher, so
    /// the tag takes no part.
    #[verifier::external_body]
    fn hash<H: core::hash::Hasher>(&self, state: &mut H) {
        self.raw.0.hash(state);
    }
}

/// Identifies a source file.
#[derive(Clone, Copy, Debug, PartialEq, Eq, PartialOrd, Ord, Hash, Structural)]
pub struct FileId(pub u32);

/// A value together with the file it belongs to.
#[derive(Clone, Copy, Debug, PartialEq, Eq, Hash)]
pub struct InFile<T> {
    pub file_id: FileId,
    pub value: T,
}

/// A handle to a node of a given kind in any file. It stays valid across
/// reparses that leave the node's ancestors and shallower items alone.
pub type AstId<N> = InFile<FileAstId<N>>;

/// `r` is the first position of `p` in `s`.
pub open spec fn is_first_index(s: Seq<SyntaxNodePtr>, p: SyntaxNodePtr, r: int) -> bool {
    &&& 0 <= r < s.len()
    &&& s[r] == p
    &&& forall|j: int| 0 <= j < r ==> s[j] != p
}

/// Maps the module items of one file to their identities and back.
#[derive(Debug, PartialEq, Eq, Default)]
pub struct AstIdMap {
    arena: Vec<SyntaxNodePtr>,
}

impl View for AstIdMap {
    type V = Seq<SyntaxNodePtr>;

    closed spec fn view(&self) -> Seq<SyntaxNodePtr> {
        self.arena@
    }
}

impl AstIdMap {
    /// Builds the map of a tree from its root, which must have no parent.
    /// Module items get identities 0, 1, ... in breadth-first order.
    pub fn from_source(tree: &SyntaxTree, root: usize) -> (r: AstIdMap)
        requires
            tree.wf(),
            root < tree.nodes@.len(),
            tree.nodes@[root as int].parent is None,
        ensures
            r@ == assign(*tree),
    {
        let ghost t = *tree;
        assert(root == 0) by {
            if root > 0 {
                assert(tree.nodes@[root as int].parent is Some);
            }
        }
        let order = bfs(tree);
        let mut res = AstIdMap { arena: Vec::new() };
        let mut i: usize = 0;
        assert(res@ =~= item_ptrs(t, order@.subrange(0, 0)));
        while i < order.len()
            invariant
                t == *tree,
                i <= order@.len(),
                forall|k: int| 0 <= k < order@.len() ==> #[trigger] order@[k] < tree.nodes@.len(),
                res@ == item_ptrs(t, order@.subrange(0, i as int)),
            decreases order@.len() - i,
        {
            let node = order[i];
            assert(order@.subrange(0, i + 1).drop_last() =~= order@.subrange(0, i as int));
            if tree.nodes[node].is_module_item {
                res.alloc_id(&tree.nodes[node].ptr);
                assert(res@ =~= item_ptrs(t, order@.subrange(0, i + 1)));
            } else {
                assert(res@ =~= item_ptrs(t, order@.subrange(0, i + 1)));
            }
            i = i + 1;
        }
        assert(order@.subrange(0, i as int) =~= order@);
        res
    }

    /// Appends a locator and returns its new identity.
    fn alloc_id(&mut self, item: &SyntaxNodePtr) -> (r: ErasedFileAstId)
        ensures
            final(self)@ == old(self)@.push(*item),
            r.0 == old(self)@.len(),
    {
        let id = ErasedFileAstId(self.arena.len());
        self.arena.push(*item);
        id
    }

    /// The number of identities.
    pub fn len(&self) -> (r: usize)
        ensures
            r == self@.len(),
    {
        self.arena.len()
    }

    /// The identity of a module item of kind `N`, found by its locator. The
    /// item must have been in the tree the map was built from.
    pub fn ast_id<N: AstNode>(&self, item: &SyntaxNode) -> (r: FileAstId<N>)
        requires
            N::spec_can_cast(item.ptr.kind),
            self@.contains(item.ptr),
        ensures
            is_first_index(self@, item.ptr, r.id() as int),
    {
        let mut i: usize = 0;
        while i < self.arena.len()
            invariant
                i <= self@.len(),
                self@.contains(item.ptr),
                forall|j: int| 0 <= j < i ==> self@[j] != item.ptr,
            decreases self@.len() - i,
        {
            if self.arena[i] == item.ptr {
                return FileAstId { raw: ErasedFileAstId(i), _ty: PhantomData };
            }
            i = i + 1;
        }
        proof {
            let k = choose|k: int| 0 <= k < self@.len() && self@[k] == item.ptr;
            assert(false);
        }
        FileAstId { raw: ErasedFileAstId(0), _ty: PhantomData }
    }

    /// The locator that an identity stands for. The entry must be of the kind
    /// that the handle is tagged with.
    pub fn get<N: AstNode>(&self, id: FileAstId<N>) -> (r: SyntaxNodePtr)
        requires
            id.id() < self@.len(),
            N::spec_can_cast(self@[id.id() as int].kind),
        ensures
            r == self@[id.id() as int],
    {
        self.arena[id.raw.0]
    }
}

proof fn lemma_item_ptrs_are_nodes(t: SyntaxTree, s: Seq<usize>, x: SyntaxNodePtr)
    requires
        item_ptrs(t, s).contains(x),
    ensures
        exists|i: int| 0 <= i < t.nodes@.len() && t.nodes@[i].ptr == x,
    decreases s.len(),
{
    let a = item_ptrs(t, s.drop_last());
    let k = choose|k: int| 0 <= k < item_ptrs(t, s).len() && item_ptrs(t, s)[k] == x;
    if k < a.len() {
        assert(a[k] == x);
        lemma_item_ptrs_are_nodes(t, s.drop_last(), x);
    } else {
        assert(t.nodes@[s.last() as int].ptr == x);
    }
}

impl SyntaxTree {
    /// The node with locator `ptr`, if the tree has one.
    pub fn find(&self, ptr: &SyntaxNodePtr) -> (r: Option<usize>)
        ensures
            r matches Some(i) ==> i < self.nodes@.len() && self.nodes@[i as int].ptr == *ptr,
            r is None ==> forall|i: int| 0 <= i < self.nodes@.len() ==> self.nodes@[i].ptr != *ptr,
    {
        let mut i: usize = 0;
        while i < self.nodes.len()
            invariant
                i <= self.nodes@.len(),
                forall|j: int| 0 <= j < i ==> self.nodes@[j].ptr != *ptr,
            decreases self.nodes@.len() - i,
        {
            if self.nodes[i].ptr == *ptr {
                return Some(i);
            }
            i = i + 1;
        }
        None
    }
}

impl<N: AstNode> InFile<FileAstId<N>> {
    /// The live node that this handle stands for, found through the arena
    /// built from the file's current tree.
    pub fn to_node(&self, map: &AstIdMap, tree: &SyntaxTree) -> (r: usize)
        requires
            map@ == assign(*tree),
            self.value.id() < map@.len(),
            N::spec_can_cast(map@[self.value.id() as int].kind),
        ensures
            r < tree.nodes@.len(),
            tree.nodes@[r as int].ptr == map@[self.value.id() as int],
    {
        let ptr = map.get(self.value);
        match tree.find(&ptr) {
            Some(i) => i,
            None => {
                proof {
                    assert(assign(*tree).contains(ptr));
                    lemma_item_ptrs_are_nodes(*tree, visit_order(*tree, tree.nodes@.len() as nat), ptr);
                }
                0
            },
        }
    }
}

/// The depth of node `i`: the number of parent steps up to the root.
pub open spec fn depth(t: SyntaxTree, i: int) -> nat
    decreases i,
{
    if 0 < i < t.nodes@.len() {
        match t.nodes@[i].parent {
            Some(p) => if p < i { depth(t, p as int) + 1 } else { 0 },
            None => 0,
        }
    } else {
        0
    }
}

proof fn lemma_next_layer_contains(t: SyntaxTree, s: Seq<usize>, p: usize, x: usize)
    requires
        s.contains(p),
        p < t.nodes@.len(),
        t.nodes@[p as int].children@.contains(x),
    ensures
        next_layer(t, s).contains(x),
    decreases s.len(),
{
    let init = s.drop_last();
    let a = next_layer(t, init);
    if s.last() == p {
        let j = choose|j: int| 0 <= j < t.nodes@[p as int].children@.len() && t.nodes@[p as int].children@[j] == x;
        assert(next_layer(t, s)[a.len() + j] == x);
    } else {
        let k = choose|k: int| 0 <= k < s.len() && s[k] == p;
        assert(init[k] == p);
        lemma_next_layer_contains(t, init, p, x);
        let m = choose|m: int| 0 <= m < a.len() && a[m] == x;
        assert(next_layer(t, s)[m] == x);
    }
}

proof fn lemma_in_layer(t: SyntaxTree, i: int)
    requires
        t.wf(),
        0 <= i < t.nodes@.len(),
    ensures
        layer(t, depth(t, i)).contains(i as usize),
        depth(t, i) <= i,
    decreases i,
{
    if i == 0 {
        assert(layer(t, 0)[0] == 0);
    } else {
        let p = t.nodes@[i].parent->0;
        lemma_in_layer(t, p as int);
        lemma_next_layer_contains(t, layer(t, depth(t, p as int)), p, i as usize);
    }
}

proof fn lemma_visit_order_contains(t: SyntaxTree, k: nat, d: nat, x: usize)
    requires
        d < k,
        layer(t, d).contains(x),
    ensures
        visit_order(t, k).contains(x),
    decreases k,
{
    let v = visit_order(t, (k - 1) as nat);
    if d == k - 1 {
        let j = choose|j: int| 0 <= j < layer(t, d).len() && layer(t, d)[j] == x;
        assert(visit_order(t, k)[v.len() + j] == x);
    } else {
        lemma_visit_order_contains(t, (k - 1) as nat, d, x);
        let j = choose|j: int| 0 <= j < v.len() && v[j] == x;
        assert(visit_order(t, k)[j] == x);
    }
}

proof fn lemma_item_ptrs_contains(t: SyntaxTree, s: Seq<usize>, x: usize)
    requires
        s.contains(x),
        x < t.nodes@.len(),
        t.nodes@[x as int].is_module_item,
    ensures
        item_ptrs(t, s).contains(t.nodes@[x as int].ptr),
    decreases s.len(),
{
    let init = s.drop_last();
    let a = item_ptrs(t, init);
    if s.last() == x {
        assert(item_ptrs(t, s)[a.len() as int] == t.nodes@[x as int].ptr);
    } else {
        let k = choose|k: int| 0 <= k < s.len() && s[k] == x;
        assert(init[k] == x);
        lemma_item_ptrs_contains(t, init, x);
        let m = choose|m: int| 0 <= m < a.len() && a[m] == t.nodes@[x as int].ptr;
        assert(item_ptrs(t, s)[m] == t.nodes@[x as int].ptr);
    }
}

/// Every module item of a tree gets an identity, and resolving that identity
/// against the same tree gives back exactly that item: looking an item up and
/// resolving the result is the identity on items.
pub proof fn lemma_round_trip(t: SyntaxTree, i: usize)
    requires
        t.wf(),
        i < t.nodes@.len(),
        t.nodes@[i as int].is_module_item,
    ensures
        assign(t).contains(t.nodes@[i as int].ptr),
        forall|r: int| #[trigger] is_first_index(assign(t), t.nodes@[i as int].ptr, r) ==> {
            &&& assign(t)[r] == t.nodes@[i as int].ptr
            &&& forall|m: int| 0 <= m < t.nodes@.len() && #[trigger] t.nodes@[m].ptr == assign(t)[r] ==> m == i as int
        },
{
    lemma_in_layer(t, i as int);
    lemma_visit_order_contains(t, t.nodes@.len() as nat, depth(t, i as int), i);
    lemma_item_ptrs_contains(t, visit_order(t, t.nodes@.len() as nat), i);
}

/// Node `a` is a proper ancestor of node `b`.
pub open spec fn is_ancestor(t: SyntaxTree, a: int, b: int) -> bool
    decreases b,
{
    if 0 <= b < t.nodes@.len() {
        match t.nodes@[b].parent {
            Some(p) => p < b && (p == a || is_ancestor(t, a, p as int)),
            None => false,
        }
    } else {
        false
    }
}

proof fn lemma_next_layer_parent(t: SyntaxTree, s: Seq<usize>, x: usize)
    requires
        next_layer(t, s).contains(x),
    ensures
        exists|p: usize| s.contains(p) && p < t.nodes@.len() && #[trigger] t.nodes@[p as int].children@.contains(x),
    decreases s.len(),
{
    let init = s.drop_last();
    let a = next_layer(t, init);
    let last = s.last();
    let m = choose|m: int| 0 <= m < next_layer(t, s).len() && next_layer(t, s)[m] == x;
    assert(s[s.len() - 1] == last);
    if m < a.len() {
        assert(a[m] == x);
        lemma_next_layer_parent(t, init, x);
        let p = choose|p: usize| init.contains(p) && p < t.nodes@.len() && #[trigger] t.nodes@[p as int].children@.contains(x);
        let k = choose|k: int| 0 <= k < init.len() && init[k] == p;
        assert(s[k] == p);
    } else {
        assert(t.nodes@[last as int].children@[m - a.len()] == x);
        assert(t.nodes@[last as int].children@.contains(x));
    }
}

proof fn lemma_layer_depth(t: SyntaxTree, k: nat, x: usize)
    requires
        t.wf(),
        layer(t, k).contains(x),
    ensures
        depth(t, x as int) == k,
        x < t.nodes@.len(),
    decreases k,
{
    if k == 0 {
        assert(layer(t, 0) =~= seq![0usize]);
    } else {
        lemma_next_layer_parent(t, layer(t, (k - 1) as nat), x);
        let p = choose|p: usize| layer(t, (k - 1) as nat).contains(p) && p < t.nodes@.len() && #[trigger] t.nodes@[p as int].children@.contains(x);
        lemma_layer_depth(t, (k - 1) as nat, p);
        let j = choose|j: int| 0 <= j < t.nodes@[p as int].children@.len() && t.nodes@[p as int].children@[j] == x;
        assert(t.nodes@[p as int].children@[j] == x);
    }
}

proof fn lemma_visit_order_depth(t: SyntaxTree, k: nat, x: usize)
    requires
        t.wf(),
        visit_order(t, k).contains(x),
    ensures
        depth(t, x as int) < k,
    decreases k,
{
    let v = visit_order(t, (k - 1) as nat);
    let m = choose|m: int| 0 <= m < visit_order(t, k).len() && visit_order(t, k)[m] == x;
    if m < v.len() {
        assert(v[m] == x);
        lemma_visit_order_depth(t, (k - 1) as nat, x);
    } else {
        assert(layer(t, (k - 1) as nat)[m - v.len()] == x);
        lemma_layer_depth(t, (k - 1) as nat, x);
    }
}

proof fn lemma_visit_order_prefix(t: SyntaxTree, k: nat, m: nat)
    requires
        k <= m,
    ensures
        visit_order(t, m) == visit_order(t, k) + visit_order(t, m).subrange(visit_order(t, k).len() as int, visit_order(t, m).len() as int),
    decreases m,
{
    if k < m {
        lemma_visit_order_prefix(t, k, (m - 1) as nat);
    }
    assert(visit_order(t, m) =~= visit_order(t, k) + visit_order(t, m).subrange(visit_order(t, k).len() as int, visit_order(t, m).len() as int));
}

proof fn lemma_item_ptrs_concat(t: SyntaxTree, a: Seq<usize>, b: Seq<usize>)
    ensures
        item_ptrs(t, a + b) == item_ptrs(t, a) + item_ptrs(t, b),
    decreases b.len(),
{
    if b.len() == 0 {
        assert(a + b =~= a);
        assert(item_ptrs(t, a) + item_ptrs(t, b) =~= item_ptrs(t, a));
    } else {
        lemma_item_ptrs_concat(t, a, b.drop_last());
        assert((a + b).drop_last() =~= a + b.drop_last());
        assert(item_ptrs(t, a + b) =~= item_ptrs(t, a) + item_ptrs(t, b));
    }
}

proof fn lemma_item_ptrs_absent(t: SyntaxTree, s: Seq<usize>, b: usize)
    requires
        t.wf(),
        b < t.nodes@.len(),
        !s.contains(b),
    ensures
        !item_ptrs(t, s).contains(t.nodes@[b as int].ptr),
    decreases s.len(),
{
    if s.len() > 0 {
        let init = s.drop_last();
        if init.contains(b) {
            let k = choose|k: int| 0 <= k < init.len() && init[k] == b;
            assert(s[k] == b);
        }
        lemma_item_ptrs_absent(t, init, b);
        assert(s[s.len() - 1] != b);
        let a = item_ptrs(t, init);
        if item_ptrs(t, s).contains(t.nodes@[b as int].ptr) {
            let m = choose|m: int| 0 <= m < item_ptrs(t, s).len() && item_ptrs(t, s)[m] == t.nodes@[b as int].ptr;
            if m < a.len() {
                assert(a[m] == t.nodes@[b as int].ptr);
            } else {
                assert(t.nodes@[s.last() as int].ptr == t.nodes@[b as int].ptr);
            }
        }
    }
}

proof fn lemma_ancestor_depth(t: SyntaxTree, a: int, b: int)
    requires
        t.wf(),
        is_ancestor(t, a, b),
    ensures
        depth(t, a) < depth(t, b),
        0 <= a < b,
    decreases b,
{
    let p = t.nodes@[b].parent->0;
    if p as int != a {
        lemma_ancestor_depth(t, a, p as int);
    }
}

/// An item nested inside another item gets a larger identity than it: the
/// first position of the ancestor's locator comes before the descendant's.
pub proof fn lemma_ancestor_first(t: SyntaxTree, a: usize, b: usize, ra: int, rb: int)
    requires
        t.wf(),
        a < t.nodes@.len(),
        b < t.nodes@.len(),
        t.nodes@[a as int].is_module_item,
        t.nodes@[b as int].is_module_item,
        is_ancestor(t, a as int, b as int),
        is_first_index(assign(t), t.nodes@[a as int].ptr, ra),
        is_first_index(assign(t), t.nodes@[b as int].ptr, rb),
    ensures
        ra < rb,
{
    let n = t.nodes@.len() as nat;
    lemma_ancestor_depth(t, a as int, b as int);
    lemma_in_layer(t, a as int);
    lemma_in_layer(t, b as int);
    let da = depth(t, a as int);
    let db = depth(t, b as int);
    lemma_visit_order_contains(t, da + 1, da, a);
    lemma_visit_order_prefix(t, da + 1, db);
    lemma_visit_order_prefix(t, db, n);
    let q = visit_order(t, da + 1);
    let p = visit_order(t, db);
    let v = visit_order(t, n);
    let p_rest = p.subrange(q.len() as int, p.len() as int);
    let v_rest = v.subrange(p.len() as int, v.len() as int);
    lemma_item_ptrs_concat(t, q, p_rest);
    lemma_item_ptrs_concat(t, p, v_rest);
    lemma_item_ptrs_contains(t, q, a);
    if p.contains(b) {
        lemma_visit_order_depth(t, db, b);
    }
    lemma_item_ptrs_absent(t, p, b);
    let ip = item_ptrs(t, p);
    let iq = item_ptrs(t, q);
    let qa = choose|j: int| 0 <= j < iq.len() && iq[j] == t.nodes@[a as int].ptr;
    assert(ip[qa] == iq[qa]);
    assert(assign(t)[qa] == ip[qa]);
    if rb < ip.len() {
        assert(assign(t)[rb] == ip[rb]);
        assert(ip.contains(ip[rb]));
    }
}

/// What the assignment reads of a node: its locator and whether it is an item.
pub open spec fn node_view(t: SyntaxTree, x: usize) -> Option<(SyntaxNodePtr, bool)> {
    if x < t.nodes@.len() {
        Some((t.nodes@[x as int].ptr, t.nodes@[x as int].is_module_item))
    } else {
        None
    }
}

/// What the assignment reads of the nodes at depth `k`.
pub open spec fn layer_view(t: SyntaxTree, k: nat) -> Seq<Option<(SyntaxNodePtr, bool)>> {
    layer(t, k).map_values(|x: usize| node_view(t, x))
}

proof fn lemma_item_ptrs_by_view(t1: SyntaxTree, s1: Seq<usize>, t2: SyntaxTree, s2: Seq<usize>)
    requires
        s1.map_values(|x: usize| node_view(t1, x)) == s2.map_values(|x: usize| node_view(t2, x)),
    ensures
        item_ptrs(t1, s1) == item_ptrs(t2, s2),
    decreases s1.len(),
{
    let v1 = s1.map_values(|x: usize| node_view(t1, x));
    let v2 = s2.map_values(|x: usize| node_view(t2, x));
    assert(v1.len() == s1.len() && v2.len() == s2.len());
    if s1.len() > 0 {
        let i1 = s1.drop_last();
        let i2 = s2.drop_last();
        assert(i1.map_values(|x: usize| node_view(t1, x)) =~= i2.map_values(|x: usize| node_view(t2, x))) by {
            assert forall|j: int| 0 <= j < i1.len() implies node_view(t1, i1[j]) == node_view(t2, i2[j]) by {
                assert(v1[j] == v2[j]);
            }
        }
        lemma_item_ptrs_by_view(t1, i1, t2, i2);
        assert(v1[s1.len() - 1] == v2[s2.len() - 1]);
    }
}

proof fn lemma_visit_order_by_view(t1: SyntaxTree, t2: SyntaxTree, k: nat)
    requires
        forall|j: nat| j < k ==> #[trigger] layer_view(t1, j) == layer_view(t2, j),
    ensures
        item_ptrs(t1, visit_order(t1, k)) == item_ptrs(t2, visit_order(t2, k)),
    decreases k,
{
    if k > 0 {
        let j = (k - 1) as nat;
        lemma_visit_order_by_view(t1, t2, j);
        assert(layer_view(t1, j) == layer_view(t2, j));
        lemma_item_ptrs_by_view(t1, layer(t1, j), t2, layer(t2, j));
        lemma_item_ptrs_concat(t1, visit_order(t1, j), layer(t1, j));
        lemma_item_ptrs_concat(t2, visit_order(t2, j), layer(t2, j));
    }
}

/// Identities are stable under edits below a given depth: when two trees have
/// the same nodes at every depth up to `d` (an edit confined to the subtrees
/// of items at depth `d`), the identities of all items at those depths agree,
/// and they are the first identities of both assignments.
pub proof fn lemma_stable_under_deep_edits(t1: SyntaxTree, t2: SyntaxTree, d: nat)
    requires
        t1.wf(),
        t2.wf(),
        d < t1.nodes@.len(),
        d < t2.nodes@.len(),
        forall|j: nat| j <= d ==> #[trigger] layer_view(t1, j) == layer_view(t2, j),
    ensures
        ({
            let top = item_ptrs(t1, visit_order(t1, d + 1));
            &&& top == item_ptrs(t2, visit_order(t2, d + 1))
            &&& top.len() <= assign(t1).len()
            &&& top.len() <= assign(t2).len()
            &&& assign(t1).subrange(0, top.len() as int) == top
            &&& assign(t2).subrange(0, top.len() as int) == top
        }),
{
    lemma_visit_order_by_view(t1, t2, d + 1);
    let n1 = t1.nodes@.len() as nat;
    let n2 = t2.nodes@.len() as nat;
    lemma_visit_order_prefix(t1, d + 1, n1);
    lemma_visit_order_prefix(t2, d + 1, n2);
    let v1 = visit_order(t1, d + 1);
    let v2 = visit_order(t2, d + 1);
    lemma_item_ptrs_concat(t1, v1, visit_order(t1, n1).subrange(v1.len() as int, visit_order(t1, n1).len() as int));
    lemma_item_ptrs_concat(t2, v2, visit_order(t2, n2).subrange(v2.len() as int, visit_order(t2, n2).len() as int));
    let top = item_ptrs(t1, v1);
    assert(assign(t1).subrange(0, top.len() as int) =~= top);
    assert(assign(t2).subrange(0, top.len() as int) =~= top);
}

} // verus!
