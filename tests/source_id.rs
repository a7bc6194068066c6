use mun_ids::source_id::{
    AstIdMap, AstNode, FileAstId, FileId, SyntaxNode, SyntaxNodePtr, SyntaxTree,
};
use std::collections::HashSet;

/// Module items: syntax kinds 2 (fn) and 3 (struct) in the trees below.
struct ItemTag;

impl AstNode for ItemTag {
    fn spec_can_cast(kind: u16) -> bool {
        Self::can_cast(kind)
    }

    fn can_cast(kind: u16) -> bool {
        kind == 2 || kind == 3
    }
}

fn ptr(kind: u16, start: u32, end: u32) -> SyntaxNodePtr {
    SyntaxNodePtr { kind, start, end }
}

fn node(p: SyntaxNodePtr, item: bool, parent: Option<usize>, children: Vec<usize>) -> SyntaxNode {
    SyntaxNode { ptr: p, is_module_item: item, parent, children }
}

/// source file (0) with `fn a` (1) and `struct B` (2); `fn a` has a body (3)
/// holding a nested `fn c` (4).
fn sample() -> SyntaxTree {
    SyntaxTree {
        nodes: vec![
            node(ptr(1, 0, 100), false, None, vec![1, 2]),
            node(ptr(2, 0, 60), true, Some(0), vec![3]),
            node(ptr(3, 60, 100), true, Some(0), vec![]),
            node(ptr(4, 10, 60), false, Some(1), vec![4]),
            node(ptr(2, 20, 50), true, Some(3), vec![]),
        ],
    }
}

fn ids(map: &AstIdMap, tree: &SyntaxTree) -> Vec<usize> {
    (0..tree.nodes.len())
        .filter(|&i| tree.nodes[i].is_module_item)
        .map(|i| map.ast_id::<ItemTag>(&tree.nodes[i]).raw().0)
        .collect()
}

#[test]
fn items_get_breadth_first_ids() {
    let tree = sample();
    let map = AstIdMap::from_source(&tree, 0);
    assert_eq!(map.len(), 3);
    // nodes 1, 2, 4: the struct comes before the nested fn, which document
    // order would have put second
    assert_eq!(ids(&map, &tree), vec![0, 1, 2]);
}

#[test]
fn ancestor_item_has_smaller_id() {
    let tree = sample();
    let map = AstIdMap::from_source(&tree, 0);
    let outer = map.ast_id::<ItemTag>(&tree.nodes[1]).raw();
    let inner = map.ast_id::<ItemTag>(&tree.nodes[4]).raw();
    assert!(outer < inner);
}

#[test]
fn lookup_then_resolve_gives_the_node_back() {
    let tree = sample();
    let map = AstIdMap::from_source(&tree, 0);
    for i in [1usize, 2, 4] {
        let id = map.ast_id::<ItemTag>(&tree.nodes[i]);
        assert_eq!(map.get(id), tree.nodes[i].ptr);
        let handle = id.with_file_id(FileId(9));
        assert_eq!(handle.file_id, FileId(9));
        assert_eq!(handle.to_node(&map, &tree), i);
    }
}

#[test]
fn editing_inside_an_item_keeps_top_level_ids() {
    let before = sample();
    let mut after = sample();
    // a second nested fn inside the body of `fn a`
    after.nodes[3].children.push(5);
    after.nodes.push(node(ptr(2, 52, 58), true, Some(3), vec![]));
    let m1 = AstIdMap::from_source(&before, 0);
    let m2 = AstIdMap::from_source(&after, 0);
    assert_eq!(m2.len(), 4);
    for i in [1usize, 2, 4] {
        assert_eq!(
            m1.ast_id::<ItemTag>(&before.nodes[i]).raw(),
            m2.ast_id::<ItemTag>(&after.nodes[i]).raw()
        );
    }
    assert_eq!(m2.ast_id::<ItemTag>(&after.nodes[5]).raw().0, 3);
}

#[test]
fn tree_without_items_has_empty_map() {
    let tree = SyntaxTree { nodes: vec![node(ptr(1, 0, 0), false, None, vec![])] };
    let map = AstIdMap::from_source(&tree, 0);
    assert_eq!(map.len(), 0);
}

#[test]
fn handles_compare_by_id_alone() {
    let tree = sample();
    let map = AstIdMap::from_source(&tree, 0);
    let a: FileAstId<ItemTag> = map.ast_id(&tree.nodes[2]);
    let b: FileAstId<ItemTag> = map.ast_id(&tree.nodes[2]);
    let c: FileAstId<ItemTag> = map.ast_id(&tree.nodes[4]);
    assert!(a == b);
    assert!(a != c);
    let copied = a;
    assert!(copied.clone() == a);
}

#[test]
fn find_locates_nodes_by_locator() {
    let tree = sample();
    assert_eq!(tree.find(&ptr(4, 10, 60)), Some(3));
    assert_eq!(tree.find(&ptr(4, 10, 61)), None);
}

#[test]
fn equal_handles_hash_alike() {
    let tree = sample();
    let map = AstIdMap::from_source(&tree, 0);
    let mut set: HashSet<FileAstId<ItemTag>> = HashSet::new();
    for i in [1usize, 2, 4, 2, 1] {
        set.insert(map.ast_id(&tree.nodes[i]));
    }
    assert_eq!(set.len(), 3);
}

#[test]
fn untyped_handles_resolve_any_node() {
    let tree = sample();
    let map = AstIdMap::from_source(&tree, 0);
    assert!(SyntaxNode::can_cast(4));
    let id: FileAstId<SyntaxNode> = map.ast_id(&tree.nodes[2]);
    assert_eq!(map.get(id), ptr(3, 60, 100));
    assert!(ItemTag::can_cast(2));
    assert!(!ItemTag::can_cast(4));
}
