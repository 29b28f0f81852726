//! Parse trees, byte folding and the byte-level patch layer.
//!
//! A fuzz input is a tree of production applications whose leaves carry
//! bytes.  Folding writes the leaves left to right into a buffer and stamps
//! every node with the offset and length of its span.  A `Patch` edits the
//! folded bytes; it is applied leaf by leaf and the tree is folded again.

use vstd::prelude::*;

verus! {

/// A byte-level edit located by absolute offset in the folded buffer.
#[derive(Clone, Debug)]
pub struct Patch {
    pub position: usize,
    pub kind: PatchKind,
}

#[derive(Clone, Debug)]
pub enum PatchKind {
    Replacement(Vec<u8>),
    Erasure(usize),
    Insertion(Vec<u8>),
}

/// A concrete use of a grammar alternative: the rule, the index of the
/// chosen alternative, and the generated children.
#[derive(Debug)]
pub struct ProductionApplication {
    pub rule_name: Vec<u8>,
    pub production_variant: usize,
    pub items: Vec<TreeNode>,
}

/// A node of the parse tree together with the `(start, size)` span it
/// occupied in the folded buffer the last time the tree was folded.
#[derive(Debug)]
pub struct TreeNode {
    pub start: usize,
    pub size: usize,
    pub item: TreeNodeItem,
}

#[derive(Debug)]
pub enum TreeNodeItem {
    ProductionApplication(ProductionApplication),
    Data(Vec<u8>),
}

/// Same skeleton, same span metadata: the trees are indistinguishable to
/// every function of this crate.
pub open spec fn tree_equiv(a: TreeNode, b: TreeNode) -> bool
    decreases a,
{
    &&& a.start == b.start
    &&& a.size == b.size
    &&& match a.item {
        TreeNodeItem::Data(da) => match b.item {
            TreeNodeItem::Data(db) => da@ == db@,
            TreeNodeItem::ProductionApplication(_) => false,
        },
        TreeNodeItem::ProductionApplication(pa) => match b.item {
            TreeNodeItem::Data(_) => false,
            TreeNodeItem::ProductionApplication(pb) => {
                &&& pa.rule_name@ == pb.rule_name@
                &&& pa.production_variant == pb.production_variant
                &&& tree_equiv_items(pa.items@, pb.items@)
            },
        },
    }
}

pub open spec fn tree_equiv_items(a: Seq<TreeNode>, b: Seq<TreeNode>) -> bool
    decreases a,
{
    &&& a.len() == b.len()
    &&& if a.len() == 0 {
        true
    } else {
        tree_equiv(a.first(), b.first()) && tree_equiv_items(a.drop_first(), b.drop_first())
    }
}

impl Clone for TreeNode {
    #[verifier::loop_isolation(false)]
    fn clone(&self) -> (r: Self)
        ensures
            tree_equiv(r, *self),
        decreases *self,
    {
        match &self.item {
            TreeNodeItem::Data(d) => TreeNode {
                start: self.start,
                size: self.size,
                item: TreeNodeItem::Data(d.clone()),
            },
            TreeNodeItem::ProductionApplication(pa) => {
                let mut new_items: Vec<TreeNode> = Vec::new();
                let n = pa.items.len();
                for i in 0..n
                    invariant
                        n == pa.items@.len(),
                        tree_equiv_items(new_items@, pa.items@.take(i as int)),
                {
                    proof {
                        assert(*pa == self.item->ProductionApplication_0);
                        assert(decreases_to!(*self => self.item));
                        assert(decreases_to!(self.item => self.item->ProductionApplication_0));
                        assert(decreases_to!(*pa => pa.items));
                        assert(decreases_to!(pa.items => pa.items@));
                        assert(decreases_to!(pa.items@ => pa.items@[i as int]));
                    }
                    let child = pa.items[i].clone();
                    proof {
                        lemma_tree_equiv_items_push(
                            new_items@,
                            pa.items@.take(i as int),
                            child,
                            pa.items@[i as int],
                        );
                        assert(pa.items@.take(i + 1) =~= pa.items@.take(i as int).push(
                            pa.items@[i as int],
                        ));
                    }
                    new_items.push(child);
                }
                proof {
                    assert(pa.items@.take(n as int) =~= pa.items@);
                }
                TreeNode {
                    start: self.start,
                    size: self.size,
                    item: TreeNodeItem::ProductionApplication(
                        ProductionApplication {
                            rule_name: pa.rule_name.clone(),
                            production_variant: pa.production_variant,
                            items: new_items,
                        },
                    ),
                }
            },
        }
    }
}

proof fn lemma_tree_equiv_items_push(a: Seq<TreeNode>, b: Seq<TreeNode>, na: TreeNode, nb: TreeNode)
    requires
        tree_equiv_items(a, b),
        tree_equiv(na, nb),
    ensures
        tree_equiv_items(a.push(na), b.push(nb)),
    decreases a,
{
    reveal_with_fuel(tree_equiv_items, 3);
    if a.len() == 0 {
        assert(a.push(na).first() == na);
        assert(b.push(nb).first() == nb);
        assert(a.push(na).drop_first() =~= Seq::<TreeNode>::empty());
        assert(b.push(nb).drop_first() =~= Seq::<TreeNode>::empty());
    } else {
        assert(a.push(na).first() == a.first());
        assert(b.push(nb).first() == b.first());
        assert(a.push(na).drop_first() =~= a.drop_first().push(na));
        assert(b.push(nb).drop_first() =~= b.drop_first().push(nb));
        lemma_tree_equiv_items_push(a.drop_first(), b.drop_first(), na, nb);
    }
}

/// Equivalent trees have the same skeleton.
pub proof fn lemma_tree_equiv_skeleton(a: TreeNode, b: TreeNode)
    requires
        tree_equiv(a, b),
    ensures
        same_skeleton(a, b),
    decreases a,
{
    match a.item {
        TreeNodeItem::Data(_) => {},
        TreeNodeItem::ProductionApplication(pa) => {
            let pb = b.item->ProductionApplication_0;
            lemma_tree_equiv_items_skeleton(pa.items@, pb.items@);
        },
    }
}

proof fn lemma_tree_equiv_items_skeleton(a: Seq<TreeNode>, b: Seq<TreeNode>)
    requires
        tree_equiv_items(a, b),
    ensures
        same_skeleton_items(a, b),
    decreases a,
{
    if a.len() > 0 {
        lemma_tree_equiv_skeleton(a.first(), b.first());
        lemma_tree_equiv_items_skeleton(a.drop_first(), b.drop_first());
    }
}

/// The bytes a node folds to: leaves contribute their data, inner nodes the
/// concatenation of their children.
pub open spec fn item_bytes(item: TreeNodeItem) -> Seq<u8>
    decreases item,
{
    match item {
        TreeNodeItem::Data(d) => d@,
        TreeNodeItem::ProductionApplication(pa) => items_bytes(pa.items@),
    }
}

pub open spec fn items_bytes(items: Seq<TreeNode>) -> Seq<u8>
    decreases items,
{
    if items.len() == 0 {
        Seq::empty()
    } else {
        item_bytes(items.first().item) + items_bytes(items.drop_first())
    }
}

/// The node's span metadata is consistent with a fold that placed it at
/// byte offset `start`.
pub open spec fn well_folded_at(node: TreeNode, start: nat) -> bool
    decreases node,
{
    &&& node.start == start
    &&& node.size == item_bytes(node.item).len()
    &&& match node.item {
        TreeNodeItem::Data(_) => true,
        TreeNodeItem::ProductionApplication(pa) => items_well_folded(pa.items@, start),
    }
}

pub open spec fn items_well_folded(items: Seq<TreeNode>, start: nat) -> bool
    decreases items,
{
    if items.len() == 0 {
        true
    } else {
        &&& well_folded_at(items.first(), start)
        &&& items_well_folded(items.drop_first(), start + item_bytes(items.first().item).len())
    }
}

/// Equal shape and equal leaf data; span metadata is ignored.
pub open spec fn same_skeleton(a: TreeNode, b: TreeNode) -> bool
    decreases a,
{
    match a.item {
        TreeNodeItem::Data(da) => match b.item {
            TreeNodeItem::Data(db) => da@ == db@,
            TreeNodeItem::ProductionApplication(_) => false,
        },
        TreeNodeItem::ProductionApplication(pa) => match b.item {
            TreeNodeItem::Data(_) => false,
            TreeNodeItem::ProductionApplication(pb) => {
                &&& pa.rule_name@ == pb.rule_name@
                &&& pa.production_variant == pb.production_variant
                &&& same_skeleton_items(pa.items@, pb.items@)
            },
        },
    }
}

pub open spec fn same_skeleton_items(a: Seq<TreeNode>, b: Seq<TreeNode>) -> bool
    decreases a,
{
    &&& a.len() == b.len()
    &&& if a.len() == 0 {
        true
    } else {
        same_skeleton(a.first(), b.first()) && same_skeleton_items(a.drop_first(), b.drop_first())
    }
}

/// Equal shape; leaf data may differ.  This is what a byte-level patch
/// preserves.
pub open spec fn same_structure(a: TreeNode, b: TreeNode) -> bool
    decreases a,
{
    match a.item {
        TreeNodeItem::Data(_) => b.item is Data,
        TreeNodeItem::ProductionApplication(pa) => match b.item {
            TreeNodeItem::Data(_) => false,
            TreeNodeItem::ProductionApplication(pb) => {
                &&& pa.rule_name@ == pb.rule_name@
                &&& pa.production_variant == pb.production_variant
                &&& same_structure_items(pa.items@, pb.items@)
            },
        },
    }
}

pub open spec fn same_structure_items(a: Seq<TreeNode>, b: Seq<TreeNode>) -> bool
    decreases a,
{
    &&& a.len() == b.len()
    &&& if a.len() == 0 {
        true
    } else {
        same_structure(a.first(), b.first()) && same_structure_items(
            a.drop_first(),
            b.drop_first(),
        )
    }
}

/// Trees with the same skeleton fold to the same bytes.
pub proof fn lemma_same_skeleton_same_bytes(a: TreeNode, b: TreeNode)
    requires
        same_skeleton(a, b),
    ensures
        item_bytes(a.item) == item_bytes(b.item),
    decreases a,
{
    match a.item {
        TreeNodeItem::Data(_) => {},
        TreeNodeItem::ProductionApplication(pa) => {
            let pb = b.item->ProductionApplication_0;
            lemma_same_skeleton_items_same_bytes(pa.items@, pb.items@);
        },
    }
}

pub proof fn lemma_same_skeleton_items_same_bytes(a: Seq<TreeNode>, b: Seq<TreeNode>)
    requires
        same_skeleton_items(a, b),
    ensures
        items_bytes(a) == items_bytes(b),
    decreases a,
{
    if a.len() > 0 {
        lemma_same_skeleton_same_bytes(a.first(), b.first());
        lemma_same_skeleton_items_same_bytes(a.drop_first(), b.drop_first());
    }
}

proof fn lemma_items_bytes_push(items: Seq<TreeNode>, node: TreeNode)
    ensures
        items_bytes(items.push(node)) == items_bytes(items) + item_bytes(node.item),
    decreases items,
{
    reveal_with_fuel(items_bytes, 3);
    if items.len() == 0 {
        assert(items.push(node).drop_first() =~= Seq::<TreeNode>::empty());
        assert(items_bytes(items.push(node)) =~= item_bytes(node.item));
        assert(items_bytes(items) + item_bytes(node.item) =~= item_bytes(node.item));
    } else {
        assert(items.push(node).first() == items.first());
        assert(items.push(node).drop_first() =~= items.drop_first().push(node));
        lemma_items_bytes_push(items.drop_first(), node);
        assert(items_bytes(items.push(node)) == item_bytes(items.first().item) + (items_bytes(
            items.drop_first(),
        ) + item_bytes(node.item)));
        assert(item_bytes(items.first().item) + (items_bytes(items.drop_first()) + item_bytes(
            node.item,
        )) =~= (item_bytes(items.first().item) + items_bytes(items.drop_first())) + item_bytes(
            node.item,
        ));
    }
}

proof fn lemma_items_well_folded_push(items: Seq<TreeNode>, node: TreeNode, start: nat)
    requires
        items_well_folded(items, start),
        well_folded_at(node, start + items_bytes(items).len()),
    ensures
        items_well_folded(items.push(node), start),
    decreases items,
{
    reveal_with_fuel(items_well_folded, 3);
    reveal_with_fuel(items_bytes, 2);
    if items.len() == 0 {
        assert(items.push(node).first() == node);
        assert(items.push(node).drop_first() =~= Seq::<TreeNode>::empty());
        assert(items_bytes(items).len() == 0);
    } else {
        assert(items.push(node).first() == items.first());
        assert(items.push(node).drop_first() =~= items.drop_first().push(node));
        lemma_items_well_folded_push(
            items.drop_first(),
            node,
            start + item_bytes(items.first().item).len(),
        );
    }
}

proof fn lemma_same_skeleton_items_push(
    a: Seq<TreeNode>,
    b: Seq<TreeNode>,
    na: TreeNode,
    nb: TreeNode,
)
    requires
        same_skeleton_items(a, b),
        same_skeleton(na, nb),
    ensures
        same_skeleton_items(a.push(na), b.push(nb)),
    decreases a,
{
    reveal_with_fuel(same_skeleton_items, 3);
    if a.len() == 0 {
        assert(a.push(na).first() == na);
        assert(b.push(nb).first() == nb);
        assert(a.push(na).drop_first() =~= Seq::<TreeNode>::empty());
        assert(b.push(nb).drop_first() =~= Seq::<TreeNode>::empty());
    } else {
        assert(a.push(na).first() == a.first());
        assert(b.push(nb).first() == b.first());
        assert(a.push(na).drop_first() =~= a.drop_first().push(na));
        assert(b.push(nb).drop_first() =~= b.drop_first().push(nb));
        lemma_same_skeleton_items_push(a.drop_first(), b.drop_first(), na, nb);
    }
}

/// Folds one node: appends its bytes to `buffer` and returns the same node
/// re-stamped with correct `(start, size)` spans.
#[verifier::loop_isolation(false)]
fn fold_node(node: &TreeNode, buffer: &mut Vec<u8>) -> (r: TreeNode)
    ensures
        final(buffer)@ == old(buffer)@ + item_bytes(node.item),
        same_skeleton(r, *node),
        well_folded_at(r, old(buffer)@.len() as nat),
    decreases *node,
{
    match &node.item {
        TreeNodeItem::Data(d) => {
            let start = buffer.len();
            let mut copy = d.clone();
            assert(copy@ =~= d@);
            buffer.append(&mut copy);
            let data = d.clone();
            assert(data@ =~= d@);
            let r = TreeNode { start, size: data.len(), item: TreeNodeItem::Data(data) };
            assert(item_bytes(r.item) == d@);
            r
        },
        TreeNodeItem::ProductionApplication(pa) => {
            let start = buffer.len();
            let ghost base = buffer@.len() as nat;
            let mut new_items: Vec<TreeNode> = Vec::new();
            let n = pa.items.len();
            assert(pa.items@.take(0) =~= Seq::<TreeNode>::empty());
            for i in 0..n
                invariant
                    n == pa.items@.len(),
                    buffer@ == old(buffer)@ + items_bytes(pa.items@.take(i as int)),
                    same_skeleton_items(new_items@, pa.items@.take(i as int)),
                    items_well_folded(new_items@, base),
                    base == old(buffer)@.len(),
            {
                proof {
                    assert(*pa == node.item->ProductionApplication_0);
                    assert(decreases_to!(*node => node.item));
                    assert(decreases_to!(node.item => node.item->ProductionApplication_0));
                    assert(decreases_to!(*pa => pa.items));
                    assert(decreases_to!(pa.items => pa.items@));
                    assert(decreases_to!(pa.items@ => pa.items@[i as int]));
                }
                let child = fold_node(&pa.items[i], buffer);
                proof {
                    lemma_items_bytes_push(pa.items@.take(i as int), pa.items@[i as int]);
                    assert(pa.items@.take(i + 1) =~= pa.items@.take(i as int).push(
                        pa.items@[i as int],
                    ));
                    lemma_same_skeleton_same_bytes(child, pa.items@[i as int]);
                    lemma_same_skeleton_items_same_bytes(new_items@, pa.items@.take(i as int));
                    lemma_items_well_folded_push(new_items@, child, base);
                    lemma_same_skeleton_items_push(
                        new_items@,
                        pa.items@.take(i as int),
                        child,
                        pa.items@[i as int],
                    );
                }
                new_items.push(child);
            }
            proof {
                assert(pa.items@.take(n as int) =~= pa.items@);
            }
            let size = buffer.len() - start;
            let r = TreeNode {
                start,
                size,
                item: TreeNodeItem::ProductionApplication(
                    ProductionApplication {
                        rule_name: pa.rule_name.clone(),
                        production_variant: pa.production_variant,
                        items: new_items,
                    },
                ),
            };
            proof {
                assert(r.item->ProductionApplication_0.rule_name@ =~= pa.rule_name@);
                lemma_same_skeleton_items_same_bytes(new_items@, pa.items@);
            }
            r
        },
    }
}

impl TreeNode {
    /// Writes this tree to the buffer, setting the span indices in the
    /// process.
    pub fn fold(&mut self, buffer: &mut Vec<u8>)
        ensures
            final(buffer)@ == old(buffer)@ + item_bytes(old(self).item),
            same_skeleton(*final(self), *old(self)),
            well_folded_at(*final(self), old(buffer)@.len() as nat),
    {
        let folded = fold_node(self, buffer);
        proof {
            lemma_skeleton_symmetric(folded, *self);
        }
        *self = folded;
    }

    /// Folds the tree into a fresh buffer and pairs the two up as a sample.
    pub fn fold_into_sample(self) -> (r: GrammarSample)
        ensures
            r.wf(),
            same_skeleton(r.tree(), self),
            r.folded() == item_bytes(self.item),
    {
        let mut buf: Vec<u8> = Vec::new();
        let mut tree = self;
        tree.fold(&mut buf);
        proof {
            lemma_same_skeleton_same_bytes(tree, self);
        }
        GrammarSample { tree, folded: buf }
    }
}

pub proof fn lemma_skeleton_symmetric(a: TreeNode, b: TreeNode)
    requires
        same_skeleton(a, b),
    ensures
        same_skeleton(b, a),
    decreases a,
{
    match a.item {
        TreeNodeItem::Data(_) => {},
        TreeNodeItem::ProductionApplication(pa) => {
            let pb = b.item->ProductionApplication_0;
            lemma_skeleton_items_symmetric(pa.items@, pb.items@);
        },
    }
}

proof fn lemma_skeleton_items_symmetric(a: Seq<TreeNode>, b: Seq<TreeNode>)
    requires
        same_skeleton_items(a, b),
    ensures
        same_skeleton_items(b, a),
    decreases a,
{
    if a.len() > 0 {
        lemma_skeleton_symmetric(a.first(), b.first());
        lemma_skeleton_items_symmetric(a.drop_first(), b.drop_first());
    }
}

/// The input artifact: a parse tree plus the cached folded byte buffer.
#[derive(Debug)]
pub struct GrammarSample {
    tree: TreeNode,
    folded: Vec<u8>,
}

/// Well-foldedness only looks at the skeleton and the spans, so it carries
/// over between equivalent trees.
pub proof fn lemma_tree_equiv_well_folded(a: TreeNode, b: TreeNode, start: nat)
    requires
        tree_equiv(a, b),
        well_folded_at(b, start),
    ensures
        well_folded_at(a, start),
    decreases a,
{
    lemma_tree_equiv_skeleton(a, b);
    lemma_skeleton_symmetric(a, b);
    lemma_same_skeleton_same_bytes(b, a);
    match a.item {
        TreeNodeItem::Data(_) => {},
        TreeNodeItem::ProductionApplication(pa) => {
            let pb = b.item->ProductionApplication_0;
            lemma_tree_equiv_items_well_folded(pa.items@, pb.items@, start);
        },
    }
}

proof fn lemma_tree_equiv_items_well_folded(a: Seq<TreeNode>, b: Seq<TreeNode>, start: nat)
    requires
        tree_equiv_items(a, b),
        items_well_folded(b, start),
    ensures
        items_well_folded(a, start),
    decreases a,
{
    if a.len() > 0 {
        lemma_tree_equiv_well_folded(a.first(), b.first(), start);
        lemma_tree_equiv_skeleton(a.first(), b.first());
        lemma_skeleton_symmetric(a.first(), b.first());
        lemma_same_skeleton_same_bytes(b.first(), a.first());
        lemma_tree_equiv_items_well_folded(
            a.drop_first(),
            b.drop_first(),
            start + item_bytes(b.first().item).len(),
        );
    }
}

impl Clone for GrammarSample {
    fn clone(&self) -> (r: Self)
        ensures
            tree_equiv(r.tree(), self.tree()),
            r.folded() == self.folded(),
            r.wf(),
    {
        proof {
            use_type_invariant(self);
        }
        let tree = self.tree.clone();
        let folded = self.folded.clone();
        proof {
            assert(folded@ =~= self.folded@);
            lemma_tree_equiv_skeleton(tree, self.tree);
            lemma_same_skeleton_same_bytes(tree, self.tree);
            lemma_tree_equiv_well_folded(tree, self.tree, 0);
        }
        let r = GrammarSample { tree, folded };
        r
    }
}

pub type Sample = GrammarSample;

impl GrammarSample {
    /// The cached buffer is the fold of the tree and the span metadata is
    /// current; every `GrammarSample` satisfies this by construction.
    #[verifier::type_invariant]
    closed spec fn inv(self) -> bool {
        self.folded@ == item_bytes(self.tree.item) && well_folded_at(self.tree, 0)
    }

    pub closed spec fn tree(self) -> TreeNode {
        self.tree
    }

    pub closed spec fn folded(self) -> Seq<u8> {
        self.folded@
    }

    /// The cached buffer really is the fold of the tree, and the tree's
    /// span metadata matches a fold starting at offset zero.
    pub open spec fn wf(self) -> bool {
        &&& self.folded() == item_bytes(self.tree().item)
        &&& well_folded_at(self.tree(), 0)
    }

    /// The sample's size score: the length of the folded bytes, the
    /// minimization target.
    pub fn get_size_score(&self) -> (r: usize)
        ensures
            r == self.folded().len(),
    {
        self.folded.len()
    }

    pub fn get_folded(&self) -> (r: &[u8])
        ensures
            r@ == self.folded(),
    {
        self.folded.as_slice()
    }

    pub fn strip(self) -> (r: (TreeNode, Vec<u8>))
        ensures
            r.0 == self.tree(),
            r.1@ == self.folded(),
            r.1@ == item_bytes(r.0.item),
            well_folded_at(r.0, 0),
    {
        proof {
            use_type_invariant(&self);
        }
        let GrammarSample { tree, folded } = self;
        (tree, folded)
    }

    /// Puts a tree and its folded buffer back together.  The pieces must
    /// belong together, as the pieces of `strip` do.
    pub fn recombine(tree: TreeNode, folded: Vec<u8>) -> (r: Self)
        requires
            folded@ == item_bytes(tree.item),
            well_folded_at(tree, 0),
        ensures
            r.tree() == tree,
            r.folded() == folded@,
    {
        GrammarSample { tree, folded }
    }
}


/// How many bytes of the folded buffer a patch touches.
pub open spec fn patch_len(kind: PatchKind) -> nat {
    match kind {
        PatchKind::Replacement(c) => c@.len(),
        PatchKind::Erasure(n) => n as nat,
        PatchKind::Insertion(c) => c@.len(),
    }
}

/// The absolute interval the patch touches stays inside the address space.
pub open spec fn patch_wf(p: Patch) -> bool {
    p.position + patch_len(p.kind) <= usize::MAX
}

/// What one leaf's bytes become under a patch, given the leaf's absolute
/// position `pos` in the folded buffer.  Empty leaves are never touched.
pub open spec fn patched_data(d: Seq<u8>, pos: int, p: Patch) -> Seq<u8> {
    if d.len() == 0 {
        d
    } else {
        match p.kind {
            PatchKind::Replacement(c) => {
                let s = vstd::math::max(p.position as int, pos);
                let e = vstd::math::min(p.position + c@.len(), pos + d.len());
                if s >= e {
                    d
                } else {
                    Seq::new(
                        d.len(),
                        |i: int|
                            if s - pos <= i < e - pos {
                                c@[i + pos - p.position]
                            } else {
                                d[i]
                            },
                    )
                }
            },
            PatchKind::Erasure(n) => {
                let s = vstd::math::max(p.position as int, pos);
                let e = vstd::math::min(p.position + n, pos + d.len());
                if s >= e {
                    d
                } else {
                    d.take(s - pos) + d.skip(e - pos)
                }
            },
            PatchKind::Insertion(c) => {
                if pos <= p.position < pos + d.len() {
                    d.take(p.position - pos) + c@ + d.skip(p.position - pos)
                } else {
                    d
                }
            },
        }
    }
}

/// The nonempty overlap of two half-open intervals, or `None`.
pub fn intersect_intervals(first: (usize, usize), second: (usize, usize)) -> (r: Option<
    (usize, usize),
>)
    requires
        first.0 <= first.1,
        second.0 <= second.1,
    ensures
        match r {
            Some(iv) => {
                &&& iv.0 == vstd::math::max(first.0 as int, second.0 as int)
                &&& iv.1 == vstd::math::min(first.1 as int, second.1 as int)
                &&& iv.0 < iv.1
            },
            None => vstd::math::max(first.0 as int, second.0 as int) >= vstd::math::min(
                first.1 as int,
                second.1 as int,
            ),
        },
{
    if first.0 > second.1 || second.0 > first.1 {
        return None;
    }
    let lo = if first.0 > second.0 {
        first.0
    } else {
        second.0
    };
    let hi = if first.1 < second.1 {
        first.1
    } else {
        second.1
    };
    if lo >= hi {
        None
    } else {
        Some((lo, hi))
    }
}

/// Translates an absolute interval into leaf-local coordinates.
pub fn remap_interval_to_segment(range: (usize, usize), data_start: usize) -> (r: (usize, usize))
    requires
        data_start <= range.0,
        range.0 <= range.1,
    ensures
        r.0 == range.0 - data_start,
        r.1 == range.1 - data_start,
{
    (range.0 - data_start, range.1 - data_start)
}

/// Applies the restriction of a patch to one leaf's bytes, in place.
/// `data_pos` is the absolute offset of the leaf in the folded buffer.
#[verifier::loop_isolation(false)]
pub fn apply_patch(data: &mut Vec<u8>, data_pos: usize, patch: &Patch)
    requires
        data_pos + old(data)@.len() <= usize::MAX,
        patch_wf(*patch),
    ensures
        final(data)@ == patched_data(old(data)@, data_pos as int, *patch),
{
    if data.is_empty() {
        return ;
    }
    match &patch.kind {
        PatchKind::Replacement(content) => {
            let iv = intersect_intervals(
                (data_pos, data_pos + data.len()),
                (patch.position, patch.position + content.len()),
            );
            if let Some((s, e)) = iv {
                let (local_s, local_e) = remap_interval_to_segment((s, e), data_pos);
                let mut i = local_s;
                while i < local_e
                    invariant
                        local_s <= i <= local_e,
                        data@.len() == old(data)@.len(),
                        forall|j: int|
                            0 <= j < data@.len() ==> data@[j] == if local_s <= j < i {
                                content@[j + data_pos - patch.position]
                            } else {
                                old(data)@[j]
                            },
                    decreases local_e - i,
                {
                    data.set(i, content[i + data_pos - patch.position]);
                    i += 1;
                }
                proof {
                    assert(final(data)@ =~= patched_data(old(data)@, data_pos as int, *patch));
                }
            } else {
                proof {
                    assert(final(data)@ =~= patched_data(old(data)@, data_pos as int, *patch));
                }
            }
        },
        PatchKind::Erasure(n) => {
            let iv = intersect_intervals(
                (data_pos, data_pos + data.len()),
                (patch.position, patch.position + *n),
            );
            if let Some((s, e)) = iv {
                let (local_s, local_e) = remap_interval_to_segment((s, e), data_pos);
                let mut result: Vec<u8> = Vec::new();
                let mut i: usize = 0;
                while i < local_s
                    invariant
                        i <= local_s,
                        result@ =~= old(data)@.take(i as int),
                    decreases local_s - i,
                {
                    result.push(data[i]);
                    proof {
                        assert(result@ =~= old(data)@.take(i + 1));
                    }
                    i += 1;
                }
                let mut j: usize = local_e;
                while j < data.len()
                    invariant
                        local_e <= j <= data@.len(),
                        result@ =~= old(data)@.take(local_s as int) + old(data)@.subrange(
                            local_e as int,
                            j as int,
                        ),
                    decreases data@.len() - j,
                {
                    result.push(data[j]);
                    proof {
                        assert(result@ =~= old(data)@.take(local_s as int) + old(data)@.subrange(
                            local_e as int,
                            j + 1,
                        ));
                    }
                    j += 1;
                }
                *data = result;
                proof {
                    assert(final(data)@ =~= patched_data(old(data)@, data_pos as int, *patch));
                }
            } else {
                proof {
                    assert(final(data)@ =~= patched_data(old(data)@, data_pos as int, *patch));
                }
            }
        },
        PatchKind::Insertion(content) => {
            if patch.position >= data_pos && patch.position < data_pos + data.len() {
                let split = patch.position - data_pos;
                let mut result: Vec<u8> = Vec::new();
                let mut i: usize = 0;
                while i < split
                    invariant
                        i <= split,
                        result@ =~= old(data)@.take(i as int),
                    decreases split - i,
                {
                    result.push(data[i]);
                    proof {
                        assert(result@ =~= old(data)@.take(i + 1));
                    }
                    i += 1;
                }
                let mut k: usize = 0;
                while k < content.len()
                    invariant
                        k <= content@.len(),
                        result@ =~= old(data)@.take(split as int) + content@.take(k as int),
                    decreases content@.len() - k,
                {
                    result.push(content[k]);
                    proof {
                        assert(result@ =~= old(data)@.take(split as int) + content@.take(k + 1));
                    }
                    k += 1;
                }
                proof {
                    assert(content@.take(content@.len() as int) =~= content@);
                }
                let mut j: usize = split;
                while j < data.len()
                    invariant
                        split <= j <= data@.len(),
                        result@ =~= old(data)@.take(split as int) + content@ + old(data)@.subrange(split as int, j as int),
                    decreases data@.len() - j,
                {
                    result.push(data[j]);
                    proof {
                        assert(result@ =~= old(data)@.take(split as int) + content@ + old(data)@.subrange(split as int, j + 1));
                    }
                    j += 1;
                }
                *data = result;
                proof {
                    assert(final(data)@ =~= patched_data(old(data)@, data_pos as int, *patch));
                }
            } else {
                proof {
                    assert(final(data)@ =~= patched_data(old(data)@, data_pos as int, *patch));
                }
            }
        },
    }
}


/// The bytes a whole tree folds to after the patch is applied leaf by leaf,
/// using each leaf's current absolute span.
pub open spec fn patched_item_bytes(a: TreeNode, p: Patch) -> Seq<u8>
    decreases a,
{
    match a.item {
        TreeNodeItem::Data(d) => patched_data(d@, a.start as int, p),
        TreeNodeItem::ProductionApplication(pa) => patched_items_bytes(pa.items@, p),
    }
}

pub open spec fn patched_items_bytes(items: Seq<TreeNode>, p: Patch) -> Seq<u8>
    decreases items,
{
    if items.len() == 0 {
        Seq::empty()
    } else {
        patched_item_bytes(items.first(), p) + patched_items_bytes(items.drop_first(), p)
    }
}

/// Every leaf's span stays inside the address space.
pub open spec fn spans_bounded(node: TreeNode) -> bool
    decreases node,
{
    match node.item {
        TreeNodeItem::Data(d) => node.start + d@.len() <= usize::MAX,
        TreeNodeItem::ProductionApplication(pa) => spans_bounded_items(pa.items@),
    }
}

pub open spec fn spans_bounded_items(items: Seq<TreeNode>) -> bool
    decreases items,
{
    if items.len() == 0 {
        true
    } else {
        spans_bounded(items.first()) && spans_bounded_items(items.drop_first())
    }
}

/// A well-folded tree whose total length fits in the address space has all
/// leaf spans inside it.
pub proof fn lemma_well_folded_spans_bounded(node: TreeNode, start: nat)
    requires
        well_folded_at(node, start),
        start + item_bytes(node.item).len() <= usize::MAX,
    ensures
        spans_bounded(node),
    decreases node,
{
    match node.item {
        TreeNodeItem::Data(_) => {},
        TreeNodeItem::ProductionApplication(pa) => {
            lemma_items_well_folded_spans_bounded(pa.items@, start);
        },
    }
}

proof fn lemma_items_well_folded_spans_bounded(items: Seq<TreeNode>, start: nat)
    requires
        items_well_folded(items, start),
        start + items_bytes(items).len() <= usize::MAX,
    ensures
        spans_bounded_items(items),
    decreases items,
{
    if items.len() > 0 {
        lemma_well_folded_spans_bounded(items.first(), start);
        lemma_items_well_folded_spans_bounded(
            items.drop_first(),
            start + item_bytes(items.first().item).len(),
        );
    }
}

proof fn lemma_same_structure_items_push(
    a: Seq<TreeNode>,
    b: Seq<TreeNode>,
    na: TreeNode,
    nb: TreeNode,
)
    requires
        same_structure_items(a, b),
        same_structure(na, nb),
    ensures
        same_structure_items(a.push(na), b.push(nb)),
    decreases a,
{
    reveal_with_fuel(same_structure_items, 3);
    if a.len() == 0 {
        assert(a.push(na).first() == na);
        assert(b.push(nb).first() == nb);
        assert(a.push(na).drop_first() =~= Seq::<TreeNode>::empty());
        assert(b.push(nb).drop_first() =~= Seq::<TreeNode>::empty());
    } else {
        assert(a.push(na).first() == a.first());
        assert(b.push(nb).first() == b.first());
        assert(a.push(na).drop_first() =~= a.drop_first().push(na));
        assert(b.push(nb).drop_first() =~= b.drop_first().push(nb));
        lemma_same_structure_items_push(a.drop_first(), b.drop_first(), na, nb);
    }
}

proof fn lemma_patched_items_bytes_push(items: Seq<TreeNode>, node: TreeNode, p: Patch)
    ensures
        patched_items_bytes(items.push(node), p) == patched_items_bytes(items, p)
            + patched_item_bytes(node, p),
    decreases items,
{
    reveal_with_fuel(patched_items_bytes, 3);
    if items.len() == 0 {
        assert(items.push(node).drop_first() =~= Seq::<TreeNode>::empty());
        assert(patched_items_bytes(items.push(node), p) =~= patched_item_bytes(node, p));
        assert(patched_items_bytes(items, p) + patched_item_bytes(node, p) =~= patched_item_bytes(
            node,
            p,
        ));
    } else {
        assert(items.push(node).first() == items.first());
        assert(items.push(node).drop_first() =~= items.drop_first().push(node));
        lemma_patched_items_bytes_push(items.drop_first(), node, p);
        assert(patched_item_bytes(items.first(), p) + (patched_items_bytes(items.drop_first(), p)
            + patched_item_bytes(node, p)) =~= (patched_item_bytes(items.first(), p)
            + patched_items_bytes(items.drop_first(), p)) + patched_item_bytes(node, p));
    }
}

/// Applies the patch to every leaf of the tree, leaving spans untouched.
/// The caller re-folds afterwards.
#[verifier::loop_isolation(false)]
fn patch_node(node: &TreeNode, patch: &Patch) -> (r: TreeNode)
    requires
        spans_bounded(*node),
        patch_wf(*patch),
    ensures
        same_structure(r, *node),
        item_bytes(r.item) == patched_item_bytes(*node, *patch),
    decreases *node,
{
    match &node.item {
        TreeNodeItem::Data(d) => {
            let mut data = d.clone();
            proof {
                assert(data@ =~= d@);
            }
            apply_patch(&mut data, node.start, patch);
            TreeNode { start: node.start, size: node.size, item: TreeNodeItem::Data(data) }
        },
        TreeNodeItem::ProductionApplication(pa) => {
            let mut new_items: Vec<TreeNode> = Vec::new();
            let n = pa.items.len();
            assert(pa.items@.take(0) =~= Seq::<TreeNode>::empty());
            for i in 0..n
                invariant
                    n == pa.items@.len(),
                    same_structure_items(new_items@, pa.items@.take(i as int)),
                    items_bytes(new_items@) == patched_items_bytes(pa.items@.take(i as int), *patch),
            {
                proof {
                    assert(*pa == node.item->ProductionApplication_0);
                    assert(decreases_to!(*node => node.item));
                    assert(decreases_to!(node.item => node.item->ProductionApplication_0));
                    assert(decreases_to!(*pa => pa.items));
                    assert(decreases_to!(pa.items => pa.items@));
                    assert(decreases_to!(pa.items@ => pa.items@[i as int]));
                    assert(spans_bounded(pa.items@[i as int])) by {
                        lemma_spans_bounded_index(pa.items@, i as int);
                    }
                }
                let child = patch_node(&pa.items[i], patch);
                proof {
                    lemma_items_bytes_push(new_items@, child);
                    lemma_patched_items_bytes_push(
                        pa.items@.take(i as int),
                        pa.items@[i as int],
                        *patch,
                    );
                    assert(pa.items@.take(i + 1) =~= pa.items@.take(i as int).push(
                        pa.items@[i as int],
                    ));
                    lemma_same_structure_items_push(
                        new_items@,
                        pa.items@.take(i as int),
                        child,
                        pa.items@[i as int],
                    );
                }
                new_items.push(child);
            }
            proof {
                assert(pa.items@.take(n as int) =~= pa.items@);
            }
            let r = TreeNode {
                start: node.start,
                size: node.size,
                item: TreeNodeItem::ProductionApplication(
                    ProductionApplication {
                        rule_name: pa.rule_name.clone(),
                        production_variant: pa.production_variant,
                        items: new_items,
                    },
                ),
            };
            proof {
                assert(r.item->ProductionApplication_0.rule_name@ =~= pa.rule_name@);
            }
            r
        },
    }
}

proof fn lemma_spans_bounded_index(items: Seq<TreeNode>, i: int)
    requires
        spans_bounded_items(items),
        0 <= i < items.len(),
    ensures
        spans_bounded(items[i]),
    decreases items,
{
    if i == 0 {
    } else {
        lemma_spans_bounded_index(items.drop_first(), i - 1)
    }
}

impl GrammarSample {
    /// Applies a byte-level patch to the terminal nodes the patch's span
    /// intersects and re-folds the tree.  The tree's structure is
    /// preserved: only leaf contents change.
    pub fn apply_patch(self, patch: Patch) -> (r: Self)
        requires
            patch_wf(patch),
        ensures
            r.wf(),
            same_structure(r.tree(), self.tree()),
            r.folded() == patched_item_bytes(self.tree(), patch),
    {
        proof {
            use_type_invariant(&self);
            lemma_well_folded_spans_bounded(self.tree, 0);
        }
        let patched = patch_node(&self.tree, &patch);
        let r = patched.fold_into_sample();
        proof {
            lemma_skeleton_structure(r.tree(), patched);
            lemma_structure_transitive(r.tree(), patched, self.tree());
            lemma_same_skeleton_same_bytes(r.tree(), patched);
        }
        r
    }
}

/// Trees with the same skeleton in particular have the same structure.
pub proof fn lemma_skeleton_structure(a: TreeNode, b: TreeNode)
    requires
        same_skeleton(a, b),
    ensures
        same_structure(a, b),
    decreases a,
{
    match a.item {
        TreeNodeItem::Data(_) => {},
        TreeNodeItem::ProductionApplication(pa) => {
            let pb = b.item->ProductionApplication_0;
            lemma_skeleton_items_structure(pa.items@, pb.items@);
        },
    }
}

proof fn lemma_skeleton_items_structure(a: Seq<TreeNode>, b: Seq<TreeNode>)
    requires
        same_skeleton_items(a, b),
    ensures
        same_structure_items(a, b),
    decreases a,
{
    if a.len() > 0 {
        lemma_skeleton_structure(a.first(), b.first());
        lemma_skeleton_items_structure(a.drop_first(), b.drop_first());
    }
}

pub proof fn lemma_structure_transitive(a: TreeNode, b: TreeNode, c: TreeNode)
    requires
        same_structure(a, b),
        same_structure(b, c),
    ensures
        same_structure(a, c),
    decreases a,
{
    match a.item {
        TreeNodeItem::Data(_) => {},
        TreeNodeItem::ProductionApplication(pa) => {
            let pb = b.item->ProductionApplication_0;
            let pc = c.item->ProductionApplication_0;
            lemma_structure_items_transitive(pa.items@, pb.items@, pc.items@);
        },
    }
}

proof fn lemma_structure_items_transitive(a: Seq<TreeNode>, b: Seq<TreeNode>, c: Seq<TreeNode>)
    requires
        same_structure_items(a, b),
        same_structure_items(b, c),
    ensures
        same_structure_items(a, c),
    decreases a,
{
    if a.len() > 0 {
        lemma_structure_transitive(a.first(), b.first(), c.first());
        lemma_structure_items_transitive(a.drop_first(), b.drop_first(), c.drop_first());
    }
}

/// The sum of the children's recorded sizes.
pub open spec fn sum_sizes(items: Seq<TreeNode>) -> int
    decreases items,
{
    if items.len() == 0 {
        0
    } else {
        items.first().size + sum_sizes(items.drop_first())
    }
}

/// For every folded tree the root's size is the length of the folded
/// bytes, and every production node's size is the sum of its children's
/// sizes.
pub proof fn lemma_folded_sizes(node: TreeNode, start: nat)
    requires
        well_folded_at(node, start),
    ensures
        node.size == item_bytes(node.item).len(),
        node.item matches TreeNodeItem::ProductionApplication(pa) ==> node.size == sum_sizes(
            pa.items@,
        ),
{
    match node.item {
        TreeNodeItem::Data(_) => {},
        TreeNodeItem::ProductionApplication(pa) => {
            lemma_items_folded_sizes(pa.items@, start);
        },
    }
}

proof fn lemma_items_folded_sizes(items: Seq<TreeNode>, start: nat)
    requires
        items_well_folded(items, start),
    ensures
        items_bytes(items).len() == sum_sizes(items),
    decreases items,
{
    if items.len() > 0 {
        assert(well_folded_at(items.first(), start));
        assert(items.first().size == item_bytes(items.first().item).len());
        lemma_items_folded_sizes(items.drop_first(), start + item_bytes(items.first().item).len());
        assert(items_bytes(items) == item_bytes(items.first().item) + items_bytes(
            items.drop_first(),
        ));
        assert(sum_sizes(items) == items.first().size + sum_sizes(items.drop_first()));
    }
}

/// Folding is deterministic on the skeleton: two well-folded trees with the
/// same skeleton and the same start offset carry identical bytes and
/// identical `(start, size)` metadata everywhere.  Re-folding a sample
/// therefore reproduces it exactly.
pub proof fn lemma_refold_identical(a: TreeNode, b: TreeNode, start: nat)
    requires
        same_skeleton(a, b),
        well_folded_at(a, start),
        well_folded_at(b, start),
    ensures
        tree_equiv(a, b),
    decreases a,
{
    lemma_same_skeleton_same_bytes(a, b);
    match a.item {
        TreeNodeItem::Data(_) => {},
        TreeNodeItem::ProductionApplication(pa) => {
            let pb = b.item->ProductionApplication_0;
            lemma_items_refold_identical(pa.items@, pb.items@, start);
        },
    }
}

proof fn lemma_items_refold_identical(a: Seq<TreeNode>, b: Seq<TreeNode>, start: nat)
    requires
        same_skeleton_items(a, b),
        items_well_folded(a, start),
        items_well_folded(b, start),
    ensures
        tree_equiv_items(a, b),
    decreases a,
{
    if a.len() > 0 {
        lemma_refold_identical(a.first(), b.first(), start);
        lemma_same_skeleton_same_bytes(a.first(), b.first());
        lemma_items_refold_identical(
            a.drop_first(),
            b.drop_first(),
            start + item_bytes(a.first().item).len(),
        );
    }
}


impl TreeNodeItem {
    /// The folded length this item will occupy, computed from its
    /// children's recorded sizes (or its data length).
    #[verifier::loop_isolation(false)]
    pub fn find_tree_span(&self) -> (r: usize)
        requires
            match *self {
                TreeNodeItem::ProductionApplication(ref pa) => sum_sizes(pa.items@) <= usize::MAX,
                TreeNodeItem::Data(_) => true,
            },
        ensures
            r == match *self {
                TreeNodeItem::ProductionApplication(ref pa) => sum_sizes(pa.items@),
                TreeNodeItem::Data(ref d) => d@.len() as int,
            },
    {
        match self {
            TreeNodeItem::ProductionApplication(pa) => {
                let n = pa.items.len();
                let mut total: usize = 0;
                for i in 0..n
                    invariant
                        n == pa.items@.len(),
                        total == sum_sizes(pa.items@.take(i as int)),
                {
                    proof {
                        lemma_sum_sizes_take_succ(pa.items@, i as int);
                        lemma_sum_sizes_prefix_bound(pa.items@, i + 1);
                    }
                    total = total + pa.items[i].size;
                }
                proof {
                    assert(pa.items@.take(n as int) =~= pa.items@);
                }
                total
            },
            TreeNodeItem::Data(data) => data.len(),
        }
    }

    /// Wraps the item in a node at the given offset, with the span the
    /// children's sizes add up to.
    pub fn with_offset(self, offset: usize) -> (r: TreeNode)
        requires
            match self {
                TreeNodeItem::ProductionApplication(ref pa) => sum_sizes(pa.items@) <= usize::MAX,
                TreeNodeItem::Data(_) => true,
            },
        ensures
            r.start == offset,
            r.item == self,
            r.size == match self {
                TreeNodeItem::ProductionApplication(ref pa) => sum_sizes(pa.items@),
                TreeNodeItem::Data(ref d) => d@.len() as int,
            },
    {
        let size = self.find_tree_span();
        TreeNode { start: offset, size, item: self }
    }
}

proof fn lemma_sum_sizes_take_succ(items: Seq<TreeNode>, i: int)
    requires
        0 <= i < items.len(),
    ensures
        sum_sizes(items.take(i + 1)) == sum_sizes(items.take(i)) + items[i].size,
    decreases items,
{
    reveal_with_fuel(sum_sizes, 3);
    if i == 0 {
        assert(items.take(1).drop_first() =~= Seq::<TreeNode>::empty());
        assert(items.take(0) =~= Seq::<TreeNode>::empty());
        assert(items.take(1).first() == items[0]);
    } else {
        assert(items.take(i + 1).first() == items[0]);
        assert(items.take(i).first() == items[0]);
        assert(items.take(i + 1).drop_first() =~= items.drop_first().take(i));
        assert(items.take(i).drop_first() =~= items.drop_first().take(i - 1));
        lemma_sum_sizes_take_succ(items.drop_first(), i - 1);
        assert(items.drop_first()[i - 1] == items[i]);
    }
}

proof fn lemma_sum_sizes_prefix_bound(items: Seq<TreeNode>, i: int)
    requires
        0 <= i <= items.len(),
    ensures
        sum_sizes(items.take(i)) <= sum_sizes(items),
        sum_sizes(items.take(i)) >= 0,
    decreases items.len() - i,
{
    lemma_sum_sizes_nonneg(items.take(i));
    if i < items.len() {
        lemma_sum_sizes_take_succ(items, i);
        lemma_sum_sizes_prefix_bound(items, i + 1);
    } else {
        assert(items.take(i) =~= items);
        lemma_sum_sizes_nonneg(items);
    }
}

proof fn lemma_sum_sizes_nonneg(items: Seq<TreeNode>)
    ensures
        sum_sizes(items) >= 0,
    decreases items,
{
    if items.len() > 0 {
        lemma_sum_sizes_nonneg(items.drop_first());
    }
}

} // verus!
