//! Tree-level mutation operators: regrowing a random subtree and
//! resampling the whole input from the grammar.

use crate::grammar::generation::{
    generate_of_type_in, items_depth, pa_conforms, production_conforms, Generator,
};
use crate::grammar::Grammar;
use crate::rng::rand_below;
use crate::sample::{tree_equiv, ProductionApplication, Sample, TreeNode, TreeNodeItem};
use vstd::prelude::*;

verus! {

/// Mutates the parse tree of a sample.  `Ok` carries the mutated sample,
/// `Err` hands the input back untouched when the operator cannot apply.
pub trait MutateTree {
    spec fn wf(&self) -> bool;

    fn mutate(&self, sample: Sample, bank: &[Sample]) -> (r: Result<Sample, Sample>)
        requires
            self.wf(),
        ensures
            r matches Err(s) ==> s.tree() == sample.tree() && s.folded() == sample.folded(),
    ;
}

/// The depth of a child, one below its parent; saturates at the top of
/// the address space, which no real tree reaches.
pub open spec fn next_depth(d: usize) -> usize {
    if d < usize::MAX {
        (d + 1) as usize
    } else {
        d
    }
}

/// The production nodes of a tree in preorder, each paired with its
/// depth below the root.
pub open spec fn prod_list(node: TreeNode, depth: usize) -> Seq<(TreeNode, usize)>
    decreases node, 0int,
{
    match node.item {
        TreeNodeItem::ProductionApplication(pa) => seq![(node, depth)] + items_prod_list(
            pa.items@,
            next_depth(depth),
        ),
        TreeNodeItem::Data(_) => Seq::empty(),
    }
}

pub open spec fn items_prod_list(items: Seq<TreeNode>, depth: usize) -> Seq<(TreeNode, usize)>
    decreases items, 1int,
{
    if items.len() == 0 {
        Seq::empty()
    } else {
        prod_list(items.first(), depth) + items_prod_list(items.drop_first(), depth)
    }
}

proof fn lemma_items_prod_list_take_succ(items: Seq<TreeNode>, i: int, depth: usize)
    requires
        0 <= i < items.len(),
    ensures
        items_prod_list(items.take(i + 1), depth) == items_prod_list(items.take(i), depth)
            + prod_list(items[i], depth),
    decreases items,
{
    reveal_with_fuel(items_prod_list, 3);
    if i == 0 {
        assert(items.take(1).first() == items[0]);
        assert(items.take(1).drop_first() =~= Seq::<TreeNode>::empty());
        assert(items.take(0) =~= Seq::<TreeNode>::empty());
        assert(items_prod_list(items.take(1), depth) =~= prod_list(items[0], depth));
        assert(items_prod_list(items.take(0), depth) + prod_list(items[0], depth) =~= prod_list(
            items[0],
            depth,
        ));
    } else {
        assert(items.take(i + 1).first() == items[0]);
        assert(items.take(i).first() == items[0]);
        assert(items.take(i + 1).drop_first() =~= items.drop_first().take(i));
        assert(items.take(i).drop_first() =~= items.drop_first().take(i - 1));
        lemma_items_prod_list_take_succ(items.drop_first(), i - 1, depth);
        assert(items.drop_first()[i - 1] == items[i]);
        assert(prod_list(items[0], depth) + (items_prod_list(items.drop_first().take(i - 1), depth)
            + prod_list(items[i], depth)) =~= (prod_list(items[0], depth) + items_prod_list(
            items.drop_first().take(i - 1),
            depth,
        )) + prod_list(items[i], depth));
    }
}

/// Collects clones of the subtrees matching the filter, in preorder,
/// paired with their depths.  With `productions_only` the appended
/// entries are exactly the production list of the tree.
#[verifier::loop_isolation(false)]
pub fn writeout_nodes(
    node: &TreeNode,
    buf: &mut Vec<(TreeNode, usize)>,
    current_depth: usize,
    productions_only: bool,
)
    ensures
        final(buf)@.len() >= old(buf)@.len(),
        forall|i: int| 0 <= i < old(buf)@.len() ==> #[trigger] final(buf)@[i] == old(buf)@[i],
        forall|i: int|
            old(buf)@.len() <= i < final(buf)@.len() ==> (productions_only ==> (#[trigger] final(buf)@[i]).0.item is ProductionApplication) && (!productions_only ==> final(buf)@[i].0.item
                is Data),
        productions_only ==> {
            &&& final(buf)@.len() == old(buf)@.len() + prod_list(*node, current_depth).len()
            &&& forall|i: int|
                old(buf)@.len() <= i < final(buf)@.len() ==> tree_equiv(
                    (#[trigger] final(buf)@[i]).0,
                    prod_list(*node, current_depth)[i - old(buf)@.len()].0,
                ) && final(buf)@[i].1 == prod_list(*node, current_depth)[i - old(buf)@.len()].1
        },
    decreases *node,
{
    let matches_filter = match &node.item {
        TreeNodeItem::ProductionApplication(_) => productions_only,
        TreeNodeItem::Data(_) => !productions_only,
    };
    if matches_filter {
        let copy = node.clone();
        proof {
            match node.item {
                TreeNodeItem::ProductionApplication(_) => {
                    assert(copy.item is ProductionApplication);
                },
                TreeNodeItem::Data(_) => {
                    assert(copy.item is Data);
                },
            }
        }
        buf.push((copy, current_depth));
    }
    match &node.item {
        TreeNodeItem::ProductionApplication(pa) => {
            let ghost base = buf@.len();
            let n = pa.items.len();
            let next = if current_depth < usize::MAX {
                current_depth + 1
            } else {
                current_depth
            };
            proof {
                assert(pa.items@.take(0) =~= Seq::<TreeNode>::empty());
            }
            for i in 0..n
                invariant
                    n == pa.items@.len(),
                    buf@.len() >= base >= old(buf)@.len(),
                    forall|j: int| 0 <= j < base ==> #[trigger] buf@[j] == old(buf)@[j] || j >= old(
                        buf,
                    )@.len(),
                    forall|j: int| 0 <= j < old(buf)@.len() ==> #[trigger] buf@[j] == old(buf)@[j],
                    forall|j: int|
                        old(buf)@.len() <= j < buf@.len() ==> (productions_only ==> (
                        #[trigger] buf@[j]).0.item is ProductionApplication) && (!productions_only
                            ==> buf@[j].0.item is Data),
                    productions_only ==> {
                        &&& buf@.len() == base + items_prod_list(pa.items@.take(i as int), next).len()
                        &&& forall|j: int|
                            base <= j < buf@.len() ==> tree_equiv(
                                (#[trigger] buf@[j]).0,
                                items_prod_list(pa.items@.take(i as int), next)[j - base].0,
                            ) && buf@[j].1 == items_prod_list(pa.items@.take(i as int), next)[j
                                - base].1
                    },
                    productions_only ==> base == old(buf)@.len() + 1 && buf@[old(buf)@.len() as int]
                        == (buf@[old(buf)@.len() as int].0, current_depth) && tree_equiv(
                        buf@[old(buf)@.len() as int].0,
                        *node,
                    ),
            {
                proof {
                    assert(*pa == node.item->ProductionApplication_0);
                    assert(decreases_to!(*node => node.item));
                    assert(decreases_to!(node.item => node.item->ProductionApplication_0));
                    assert(decreases_to!(*pa => pa.items));
                    assert(decreases_to!(pa.items => pa.items@));
                    assert(decreases_to!(pa.items@ => pa.items@[i as int]));
                }
                let ghost before = buf@;
                writeout_nodes(&pa.items[i], buf, next, productions_only);
                proof {
                    if productions_only {
                        lemma_items_prod_list_take_succ(pa.items@, i as int, next);
                        assert forall|j: int| base <= j < buf@.len() implies tree_equiv(
                            (#[trigger] buf@[j]).0,
                            items_prod_list(pa.items@.take(i + 1), next)[j - base].0,
                        ) && buf@[j].1 == items_prod_list(pa.items@.take(i + 1), next)[j
                            - base].1 by {
                            let prefix_len = items_prod_list(
                                pa.items@.take(i as int),
                                next,
                            ).len();
                            if j < before.len() {
                                assert(buf@[j] == before[j]);
                                assert(items_prod_list(pa.items@.take(i + 1), next)[j - base]
                                    == items_prod_list(pa.items@.take(i as int), next)[j - base]);
                            } else {
                                assert(items_prod_list(pa.items@.take(i + 1), next)[j - base]
                                    == prod_list(pa.items@[i as int], next)[(j - base)
                                    - prefix_len]);
                            }
                        }
                    }
                }
            }
            proof {
                assert(pa.items@.take(n as int) =~= pa.items@);
                if productions_only {
                    assert(prod_list(*node, current_depth) == seq![(*node, current_depth)]
                        + items_prod_list(pa.items@, next));
                    assert forall|i: int|
                        old(buf)@.len() <= i < buf@.len() implies tree_equiv(
                        (#[trigger] buf@[i]).0,
                        prod_list(*node, current_depth)[i - old(buf)@.len()].0,
                    ) && buf@[i].1 == prod_list(*node, current_depth)[i - old(buf)@.len()].1 by {
                        if i == old(buf)@.len() {
                            assert(prod_list(*node, current_depth)[0] == (*node, current_depth));
                        } else {
                            assert(prod_list(*node, current_depth)[i - old(buf)@.len()]
                                == items_prod_list(pa.items@, next)[(i - old(buf)@.len()) - 1]);
                        }
                    }
                }
            }
        },
        TreeNodeItem::Data(_) => {
            proof {
                if productions_only {
                    assert(prod_list(*node, current_depth) =~= Seq::<(TreeNode, usize)>::empty());
                }
            }
        },
    }
}

/// Picks a production subtree uniformly at random: `None` exactly when
/// the tree holds no production node; otherwise a clone of the chosen
/// node together with its preorder index among the production nodes and
/// its depth.
pub fn select_random_production(root: &TreeNode) -> (r: Option<(TreeNode, usize, usize)>)
    ensures
        match r {
            Some((n, idx, d)) => {
                &&& (idx as int) < prod_list(*root, 0).len()
                &&& tree_equiv(n, prod_list(*root, 0)[idx as int].0)
                &&& d == prod_list(*root, 0)[idx as int].1
                &&& n.item is ProductionApplication
            },
            None => prod_list(*root, 0).len() == 0,
        },
{
    let mut buf: Vec<(TreeNode, usize)> = Vec::new();
    writeout_nodes(root, &mut buf, 0, true);
    if buf.len() == 0 {
        return None;
    }
    let idx = rand_below(buf.len());
    let ghost listed = buf@;
    let (node, depth) = buf.remove(idx);
    proof {
        assert(listed.len() == prod_list(*root, 0).len());
        assert((node, depth) == listed[idx as int]);
        assert(tree_equiv(listed[idx as int].0, prod_list(*root, 0)[idx as int - 0].0));
        assert(listed[idx as int].1 == prod_list(*root, 0)[idx as int - 0].1);
    }
    Some((node, idx, depth))
}

pub open spec fn skip_view(o: Option<usize>) -> Option<int> {
    match o {
        Option::Some(u) => Option::Some(u as int),
        Option::None => Option::None,
    }
}

/// The preorder skip count left after passing a subtree: `None` once the
/// replacement point was reached, otherwise the count minus the number
/// of production nodes in the subtree.
pub open spec fn skip_after(node: TreeNode, skip: Option<int>) -> Option<int>
    decreases node, 0int,
{
    match skip {
        Option::None => Option::None,
        Option::Some(k) => match node.item {
            TreeNodeItem::Data(_) => Option::Some(k),
            TreeNodeItem::ProductionApplication(pa) => if k == 0 {
                Option::None
            } else {
                skip_after_items(pa.items@, Option::Some(k - 1))
            },
        },
    }
}

pub open spec fn skip_after_items(items: Seq<TreeNode>, skip: Option<int>) -> Option<int>
    decreases items, 1int,
{
    if items.len() == 0 {
        skip
    } else {
        skip_after_items(items.drop_first(), skip_after(items.first(), skip))
    }
}

/// How a tree with one production subtree replaced relates to the
/// original.  `skip` counts the production nodes still to pass in
/// preorder; the production node reached at count zero becomes `repl`,
/// and everything outside it is kept as it was.
pub open spec fn replace_rel(old_t: TreeNode, new_t: TreeNode, skip: Option<int>, repl: TreeNode) -> bool
    decreases old_t, 0int,
{
    match skip {
        Option::None => tree_equiv(new_t, old_t),
        Option::Some(k) => match old_t.item {
            TreeNodeItem::Data(_) => tree_equiv(new_t, old_t),
            TreeNodeItem::ProductionApplication(pa) => if k == 0 {
                tree_equiv(new_t, repl)
            } else {
                match new_t.item {
                    TreeNodeItem::ProductionApplication(pb) => {
                        &&& pb.rule_name@ == pa.rule_name@
                        &&& pb.production_variant == pa.production_variant
                        &&& new_t.start == old_t.start
                        &&& new_t.size == old_t.size
                        &&& replace_rel_items(pa.items@, pb.items@, Option::Some(k - 1), repl)
                    },
                    TreeNodeItem::Data(_) => false,
                }
            },
        },
    }
}

pub open spec fn replace_rel_items(
    olds: Seq<TreeNode>,
    news: Seq<TreeNode>,
    skip: Option<int>,
    repl: TreeNode,
) -> bool
    decreases olds, 1int,
{
    &&& olds.len() == news.len()
    &&& if olds.len() == 0 {
        true
    } else {
        replace_rel(olds.first(), news.first(), skip, repl) && replace_rel_items(
            olds.drop_first(),
            news.drop_first(),
            skip_after(olds.first(), skip),
            repl,
        )
    }
}

proof fn lemma_skip_after_items_push(items: Seq<TreeNode>, node: TreeNode, skip: Option<int>)
    ensures
        skip_after_items(items.push(node), skip) == skip_after(
            node,
            skip_after_items(items, skip),
        ),
    decreases items,
{
    reveal_with_fuel(skip_after_items, 3);
    if items.len() == 0 {
        assert(items.push(node).first() == node);
        assert(items.push(node).drop_first() =~= Seq::<TreeNode>::empty());
    } else {
        assert(items.push(node).first() == items.first());
        assert(items.push(node).drop_first() =~= items.drop_first().push(node));
        lemma_skip_after_items_push(items.drop_first(), node, skip_after(items.first(), skip));
    }
}

proof fn lemma_replace_rel_items_push(
    olds: Seq<TreeNode>,
    news: Seq<TreeNode>,
    o: TreeNode,
    n: TreeNode,
    s0: Option<int>,
    repl: TreeNode,
)
    requires
        replace_rel_items(olds, news, s0, repl),
        replace_rel(o, n, skip_after_items(olds, s0), repl),
    ensures
        replace_rel_items(olds.push(o), news.push(n), s0, repl),
    decreases olds,
{
    reveal_with_fuel(replace_rel_items, 3);
    reveal_with_fuel(skip_after_items, 3);
    assert(olds.len() == news.len());
    if olds.len() == 0 {
        assert(olds.push(o).first() == o);
        assert(news.push(n).first() == n);
        assert(olds.push(o).drop_first() =~= Seq::<TreeNode>::empty());
        assert(news.push(n).drop_first() =~= Seq::<TreeNode>::empty());
        assert(skip_after_items(olds, s0) == s0);
        assert(replace_rel(olds.push(o).first(), news.push(n).first(), s0, repl));
    } else {
        assert(olds.push(o).first() == olds.first());
        assert(news.push(n).first() == news.first());
        assert(olds.push(o).drop_first() =~= olds.drop_first().push(o));
        assert(news.push(n).drop_first() =~= news.drop_first().push(n));
        assert(skip_after_items(olds, s0) == skip_after_items(
            olds.drop_first(),
            skip_after(olds.first(), s0),
        ));
        lemma_replace_rel_items_push(
            olds.drop_first(),
            news.drop_first(),
            o,
            n,
            skip_after(olds.first(), s0),
            repl,
        );
        assert(replace_rel_items(olds.push(o), news.push(n), s0, repl));
    }
}

/// Replaces the `remaining`-th production node (in preorder) with the
/// given subtree and returns the new tree; the second component is the
/// count left over, `None` once the replacement happened.
#[verifier::loop_isolation(false)]
pub fn replace_production(node: &TreeNode, remaining: usize, replacement: &TreeNode) -> (r: (
    TreeNode,
    Option<usize>,
))
    ensures
        replace_rel(*node, r.0, Option::Some(remaining as int), *replacement),
        skip_view(r.1) == skip_after(*node, Option::Some(remaining as int)),
    decreases *node,
{
    match &node.item {
        TreeNodeItem::Data(_) => (node.clone(), Some(remaining)),
        TreeNodeItem::ProductionApplication(pa) => {
            if remaining == 0 {
                return (replacement.clone(), None);
            }
            let mut state: Option<usize> = Some(remaining - 1);
            let mut new_items: Vec<TreeNode> = Vec::new();
            let n = pa.items.len();
            proof {
                assert(pa.items@.take(0) =~= Seq::<TreeNode>::empty());
            }
            for i in 0..n
                invariant
                    n == pa.items@.len(),
                    new_items@.len() == i,
                    replace_rel_items(
                        pa.items@.take(i as int),
                        new_items@,
                        Option::Some(remaining - 1),
                        *replacement,
                    ),
                    skip_view(state) == skip_after_items(
                        pa.items@.take(i as int),
                        Option::Some(remaining - 1),
                    ),
            {
                proof {
                    assert(*pa == node.item->ProductionApplication_0);
                    assert(decreases_to!(*node => node.item));
                    assert(decreases_to!(node.item => node.item->ProductionApplication_0));
                    assert(decreases_to!(*pa => pa.items));
                    assert(decreases_to!(pa.items => pa.items@));
                    assert(decreases_to!(pa.items@ => pa.items@[i as int]));
                }
                let ghost state_before = skip_view(state);
                let child: TreeNode;
                match state {
                    Some(rem) => {
                        let (c, new_state) = replace_production(&pa.items[i], rem, replacement);
                        child = c;
                        state = new_state;
                    },
                    None => {
                        child = pa.items[i].clone();
                        proof {
                            assert(replace_rel(
                                pa.items@[i as int],
                                child,
                                Option::None,
                                *replacement,
                            ));
                            assert(skip_after(pa.items@[i as int], Option::None) is None);
                        }
                    },
                }
                proof {
                    lemma_replace_rel_items_push(
                        pa.items@.take(i as int),
                        new_items@,
                        pa.items@[i as int],
                        child,
                        Option::Some(remaining - 1),
                        *replacement,
                    );
                    lemma_skip_after_items_push(
                        pa.items@.take(i as int),
                        pa.items@[i as int],
                        Option::Some(remaining - 1),
                    );
                    assert(pa.items@.take(i + 1) =~= pa.items@.take(i as int).push(
                        pa.items@[i as int],
                    ));
                }
                new_items.push(child);
            }
            proof {
                assert(pa.items@.take(n as int) =~= pa.items@);
            }
            let rule_name = pa.rule_name.clone();
            proof {
                assert(rule_name@ =~= pa.rule_name@);
            }
            (
                TreeNode {
                    start: node.start,
                    size: node.size,
                    item: TreeNodeItem::ProductionApplication(
                        ProductionApplication {
                            rule_name,
                            production_variant: pa.production_variant,
                            items: new_items,
                        },
                    ),
                },
                state,
            )
        },
    }
}

/// The rule a production node applies.
pub open spec fn rule_of(node: TreeNode) -> Seq<u8> {
    match node.item {
        TreeNodeItem::ProductionApplication(pa) => pa.rule_name@,
        TreeNodeItem::Data(_) => Seq::empty(),
    }
}

/// What a successful regrow produced: some production node of the input
/// tree, at preorder index `idx` and depth `d <= depth_limit`, was
/// replaced by a fresh application of the same rule that conforms to the
/// grammar and fits the remaining depth budget; the result is the
/// re-fold of that patched tree.
pub open spec fn regrow_ok(t: TreeRegrow, input_tree: TreeNode, out: Sample) -> bool {
    exists|idx: int, pa: ProductionApplication, pre: TreeNode|
        {
            &&& 0 <= idx < prod_list(input_tree, 0).len()
            &&& (#[trigger] prod_list(input_tree, 0)[idx]).1 <= t.depth_limit
            &&& pa_conforms(pa, rule_of(prod_list(input_tree, 0)[idx].0), t.grammar)
            &&& 1 + items_depth(pa.items@) <= t.depth_limit - prod_list(input_tree, 0)[idx].1
            &&& #[trigger] replace_rel(
                input_tree,
                pre,
                Option::Some(idx),
                TreeNode { start: 0, size: 0, item: TreeNodeItem::ProductionApplication(pa) },
            )
            &&& skip_after(input_tree, Option::Some(idx)) is None
            &&& out.folded() == crate::sample::item_bytes(pre.item)
            &&& crate::sample::same_skeleton(out.tree(), pre)
        }
}

/// Regrows a random production subtree: the subtree is replaced by a
/// fresh derivation of the same rule within the remaining depth budget.
/// Fails back to the untouched sample when no subtree can be regrown.
pub struct TreeRegrow {
    pub grammar: Grammar,
    pub depth_limit: usize,
    pub descend_rolls: usize,
    pub regenerate_rolls: usize,
    pub mut_proba: u32,
}

impl MutateTree for TreeRegrow {
    open spec fn wf(&self) -> bool {
        self.grammar.wf() && self.grammar.validated()
    }

    #[verifier::loop_isolation(false)]
    fn mutate(&self, sample: Sample, bank: &[Sample]) -> (r: Result<Sample, Sample>)
        ensures
            r matches Err(s) ==> s.folded() == sample.folded() && s.tree() == sample.tree(),
            r matches Ok(s2) ==> regrow_ok(*self, sample.tree(), s2),
    {
        let (tree, folded) = sample.strip();
        let mut roll: usize = 0;
        while roll < self.descend_rolls
            invariant
                folded@ == crate::sample::item_bytes(tree.item),
                crate::sample::well_folded_at(tree, 0),
                self.wf(),
                tree == sample.tree(),
            decreases self.descend_rolls - roll,
        {
            let selected = select_random_production(&tree);
            let (node, idx, depth) = match selected {
                Some(x) => x,
                None => {
                    return Err(Sample::recombine(tree, folded));
                },
            };
            if depth <= self.depth_limit {
                let remaining_depth = self.depth_limit - depth;
                let rule_name = match &node.item {
                    TreeNodeItem::ProductionApplication(pa) => &pa.rule_name,
                    TreeNodeItem::Data(_) => {
                        return Err(Sample::recombine(tree, folded));
                    },
                };
                if self.grammar.lookup(rule_name.as_slice()).is_some() {
                    match generate_of_type_in(
                        &self.grammar,
                        remaining_depth,
                        rule_name.as_slice(),
                        self.regenerate_rolls,
                    ) {
                        Ok(subtree) => {
                            let repl = TreeNode {
                                start: 0,
                                size: 0,
                                item: TreeNodeItem::ProductionApplication(subtree),
                            };
                            let (new_tree, leftover) = replace_production(&tree, idx, &repl);
                            if leftover.is_none() {
                                let out = new_tree.fold_into_sample();
                                proof {
                                    assert(rule_name@ == rule_of(
                                        prod_list(sample.tree(), 0)[idx as int].0,
                                    ));
                                    assert(replace_rel(
                                        sample.tree(),
                                        new_tree,
                                        Option::Some(idx as int),
                                        repl,
                                    ));
                                    assert(skip_after(sample.tree(), Option::Some(idx as int))
                                        is None);
                                    assert(regrow_ok(*self, sample.tree(), out));
                                }
                                return Ok(out);
                            }
                        },
                        Err(()) => {},
                    }
                }
            }
            roll += 1;
        }
        Err(Sample::recombine(tree, folded))
    }
}

/// Discards the input and derives a fresh sample from the grammar.
pub struct Resample {
    generator: Generator,
}

impl Resample {
    pub closed spec fn spec_generator(self) -> Generator {
        self.generator
    }

    pub fn new(grammar: Grammar, depth_limit: usize) -> (r: Self)
        requires
            grammar.wf(),
            grammar.validated(),
        ensures
            r.wf(),
    {
        Resample { generator: Generator::new(grammar, depth_limit) }
    }
}

impl MutateTree for Resample {
    open spec fn wf(&self) -> bool {
        self.spec_generator().wf()
    }

    fn mutate(&self, sample: Sample, bank: &[Sample]) -> (r: Result<Sample, Sample>)
        ensures
            r matches Ok(s) ==> production_conforms(
                s.tree(),
                crate::grammar::root_name(),
                self.spec_generator().spec_grammar(),
            ),
            r matches Err(s) ==> s == sample,
    {
        match self.generator.generate() {
            Some(fresh) => Ok(fresh),
            None => Err(sample),
        }
    }
}

/// The outcome a tree operator guarantees on success, by variant.
pub open spec fn tree_mutate_ok(m: TreeMutator, input_tree: TreeNode, out: Sample) -> bool {
    match m {
        TreeMutator::TreeRegrow(t) => regrow_ok(t, input_tree, out),
        TreeMutator::Resample(rs) => production_conforms(
            out.tree(),
            crate::grammar::root_name(),
            rs.spec_generator().spec_grammar(),
        ),
    }
}

/// The tree-level operator family, dispatched by variant.
pub enum TreeMutator {
    TreeRegrow(TreeRegrow),
    Resample(Resample),
}

impl TreeMutator {
    pub open spec fn wf(self) -> bool {
        match self {
            TreeMutator::TreeRegrow(m) => m.wf(),
            TreeMutator::Resample(m) => m.wf(),
        }
    }

    /// Dispatches to the operator's `mutate`.
    pub fn mutate(&self, sample: Sample, bank: &[Sample]) -> (r: Result<Sample, Sample>)
        requires
            self.wf(),
        ensures
            r matches Err(s) ==> s.tree() == sample.tree() && s.folded() == sample.folded(),
            r matches Ok(s2) ==> tree_mutate_ok(*self, sample.tree(), s2),
    {
        match self {
            TreeMutator::TreeRegrow(m) => m.mutate(sample, bank),
            TreeMutator::Resample(m) => m.mutate(sample, bank),
        }
    }
}

} // verus!
