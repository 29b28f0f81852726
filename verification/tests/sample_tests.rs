use gramfuzz::sample::{
    apply_patch, intersect_intervals, remap_interval_to_segment, GrammarSample, Patch, PatchKind,
    ProductionApplication, TreeNode, TreeNodeItem,
};
use gramfuzz::fuzz_thread::seed_sample_from_bytes;

fn leaf(bytes: &[u8]) -> TreeNode {
    TreeNode { start: 0, size: 0, item: TreeNodeItem::Data(bytes.to_vec()) }
}

fn production(rule: &[u8], variant: usize, items: Vec<TreeNode>) -> TreeNode {
    TreeNode {
        start: 0,
        size: 0,
        item: TreeNodeItem::ProductionApplication(ProductionApplication {
            rule_name: rule.to_vec(),
            production_variant: variant,
            items,
        }),
    }
}

fn sample_tree() -> TreeNode {
    production(
        b"root",
        0,
        vec![leaf(b"GET "), production(b"path", 1, vec![leaf(b"/a"), leaf(b"/b")]), leaf(b"\n")],
    )
}

#[test]
fn fold_writes_leaves_in_order() {
    let mut buffer = Vec::new();
    let mut tree = sample_tree();
    tree.fold(&mut buffer);
    assert_eq!(buffer, b"GET /a/b\n".to_vec());
}

#[test]
fn fold_sets_root_span_to_total_length() {
    let mut buffer = Vec::new();
    let mut tree = sample_tree();
    tree.fold(&mut buffer);
    assert_eq!(tree.start, 0);
    assert_eq!(tree.size, buffer.len());
}

#[test]
fn fold_sets_child_spans_that_sum_to_parent() {
    let mut buffer = Vec::new();
    let mut tree = sample_tree();
    tree.fold(&mut buffer);
    match &tree.item {
        TreeNodeItem::ProductionApplication(pa) => {
            let sum: usize = pa.items.iter().map(|c| c.size).sum();
            assert_eq!(sum, tree.size);
            assert_eq!(pa.items[0].start, 0);
            assert_eq!(pa.items[0].size, 4);
            assert_eq!(pa.items[1].start, 4);
            assert_eq!(pa.items[1].size, 4);
            assert_eq!(pa.items[2].start, 8);
            assert_eq!(pa.items[2].size, 1);
        }
        TreeNodeItem::Data(_) => panic!("root must be a production"),
    }
}

#[test]
fn refolding_reproduces_bytes_and_spans() {
    let sample = sample_tree().fold_into_sample();
    let first = sample.get_folded().to_vec();
    let (tree, _folded) = sample.strip();
    let again = tree.fold_into_sample();
    assert_eq!(again.get_folded(), first.as_slice());
    let (tree2, _) = again.strip();
    fn spans(t: &TreeNode, out: &mut Vec<(usize, usize)>) {
        out.push((t.start, t.size));
        if let TreeNodeItem::ProductionApplication(pa) = &t.item {
            for c in &pa.items {
                spans(c, out);
            }
        }
    }
    let reference = sample_tree().fold_into_sample();
    let (tree1, _) = reference.strip();
    let mut a = Vec::new();
    let mut b = Vec::new();
    spans(&tree1, &mut a);
    spans(&tree2, &mut b);
    assert_eq!(a, b);
}

#[test]
fn intersect_intervals_overlap_and_disjoint() {
    assert_eq!(intersect_intervals((0, 4), (2, 8)), Some((2, 4)));
    assert_eq!(intersect_intervals((2, 8), (0, 4)), Some((2, 4)));
    assert_eq!(intersect_intervals((0, 4), (4, 8)), None);
    assert_eq!(intersect_intervals((0, 0), (0, 4)), None);
    assert_eq!(intersect_intervals((1, 3), (1, 3)), Some((1, 3)));
}

#[test]
fn remap_interval_shifts_to_segment() {
    assert_eq!(remap_interval_to_segment((5, 9), 3), (2, 6));
}

#[test]
fn replacement_patch_overwrites_within_span() {
    let mut data = b"abcdef".to_vec();
    let patch = Patch { position: 2, kind: PatchKind::Replacement(b"XY".to_vec()) };
    apply_patch(&mut data, 0, &patch);
    assert_eq!(data, b"abXYef".to_vec());
}

#[test]
fn replacement_patch_respects_leaf_offset() {
    // The leaf starts at absolute offset 4; a patch at absolute 5 hits
    // its second byte.
    let mut data = b"abcd".to_vec();
    let patch = Patch { position: 5, kind: PatchKind::Replacement(b"Z".to_vec()) };
    apply_patch(&mut data, 4, &patch);
    assert_eq!(data, b"aZcd".to_vec());
}

#[test]
fn erasure_patch_removes_overlap() {
    let mut data = b"abcdef".to_vec();
    let patch = Patch { position: 1, kind: PatchKind::Erasure(3) };
    apply_patch(&mut data, 0, &patch);
    assert_eq!(data, b"aef".to_vec());
}

#[test]
fn erasure_patch_can_empty_a_leaf() {
    let mut data = b"ab".to_vec();
    let patch = Patch { position: 0, kind: PatchKind::Erasure(10) };
    apply_patch(&mut data, 0, &patch);
    assert_eq!(data, Vec::<u8>::new());
}

#[test]
fn insertion_patch_lengthens_the_containing_leaf() {
    let mut data = b"abcd".to_vec();
    let patch = Patch { position: 2, kind: PatchKind::Insertion(b"++".to_vec()) };
    apply_patch(&mut data, 0, &patch);
    assert_eq!(data, b"ab++cd".to_vec());
}

#[test]
fn insertion_outside_span_is_ignored() {
    let mut data = b"abcd".to_vec();
    let patch = Patch { position: 9, kind: PatchKind::Insertion(b"++".to_vec()) };
    apply_patch(&mut data, 0, &patch);
    assert_eq!(data, b"abcd".to_vec());
}

#[test]
fn empty_leaf_is_never_patched() {
    let mut data: Vec<u8> = Vec::new();
    let patch = Patch { position: 0, kind: PatchKind::Replacement(b"xx".to_vec()) };
    apply_patch(&mut data, 0, &patch);
    assert_eq!(data, Vec::<u8>::new());
}

#[test]
fn sample_patch_keeps_tree_structure() {
    let sample = sample_tree().fold_into_sample();
    let patch = Patch { position: 4, kind: PatchKind::Replacement(b"ZZ".to_vec()) };
    let patched = sample.apply_patch(patch);
    assert_eq!(patched.get_folded(), b"GET ZZ/b\n");
    let (tree, _) = patched.strip();
    match &tree.item {
        TreeNodeItem::ProductionApplication(pa) => {
            assert_eq!(pa.rule_name, b"root".to_vec());
            assert_eq!(pa.items.len(), 3);
            match &pa.items[1].item {
                TreeNodeItem::ProductionApplication(inner) => {
                    assert_eq!(inner.rule_name, b"path".to_vec());
                    assert_eq!(inner.items.len(), 2);
                }
                TreeNodeItem::Data(_) => panic!("structure changed"),
            }
        }
        TreeNodeItem::Data(_) => panic!("structure changed"),
    }
}

#[test]
fn sample_erasure_shrinks_size_score() {
    let sample = sample_tree().fold_into_sample();
    let before = sample.get_size_score();
    let patch = Patch { position: 0, kind: PatchKind::Erasure(4) };
    let patched = sample.apply_patch(patch);
    assert_eq!(patched.get_size_score(), before - 4);
    assert_eq!(patched.get_folded(), b"/a/b\n");
}

#[test]
fn find_tree_span_sums_recorded_sizes() {
    let mut buffer = Vec::new();
    let mut tree = sample_tree();
    tree.fold(&mut buffer);
    assert_eq!(tree.item.find_tree_span(), 9);
    let item = TreeNodeItem::Data(b"xyz".to_vec());
    assert_eq!(item.find_tree_span(), 3);
    let node = item.with_offset(7);
    assert_eq!(node.start, 7);
    assert_eq!(node.size, 3);
}

#[test]
fn seed_sample_folds_to_exact_bytes() {
    let sample = seed_sample_from_bytes(b"hello".to_vec());
    assert_eq!(sample.get_folded(), b"hello");
    assert_eq!(sample.get_size_score(), 5);
}

#[test]
fn recombine_restores_a_stripped_sample() {
    let sample = sample_tree().fold_into_sample();
    let folded = sample.get_folded().to_vec();
    let (tree, bytes) = sample.strip();
    let back = GrammarSample::recombine(tree, bytes);
    assert_eq!(back.get_folded(), folded.as_slice());
}
