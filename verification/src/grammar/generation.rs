//! Random derivation of parse trees from a grammar.
//!
//! Generation is depth-bounded: an identifier token at depth zero fails,
//! and a production retries a bounded number of alternative draws before
//! giving up.  Every tree that comes out conforms to the grammar.

use crate::grammar::{Grammar, Token};
use crate::sample::{GrammarSample, ProductionApplication, TreeNode, TreeNodeItem};
use vstd::prelude::*;

verus! {

/// A production application conforms to the grammar under a rule name:
/// the rule is defined, the variant index is in range, and the children
/// match the variant's tokens one for one.
pub open spec fn pa_conforms(pa: ProductionApplication, name: Seq<u8>, g: Grammar) -> bool
    decreases pa, 1int,
{
    &&& pa.rule_name@ == name
    &&& g.spec_defines(name)
    &&& (pa.production_variant as int) < g.spec_alternatives(name).len()
    &&& items_conform(pa.items@, g.spec_alternatives(name)[pa.production_variant as int]@, g)
}

pub open spec fn items_conform(items: Seq<TreeNode>, tokens: Seq<Token>, g: Grammar) -> bool
    decreases items, 2int,
{
    &&& items.len() == tokens.len()
    &&& if items.len() == 0 {
        true
    } else {
        token_conforms(items.first(), tokens.first(), g) && items_conform(
            items.drop_first(),
            tokens.drop_first(),
            g,
        )
    }
}

pub open spec fn token_conforms(node: TreeNode, t: Token, g: Grammar) -> bool
    decreases node, 3int,
{
    match t {
        Token::Identifier(n) => match node.item {
            TreeNodeItem::ProductionApplication(pa) => pa_conforms(pa, n@, g),
            TreeNodeItem::Data(_) => false,
        },
        Token::Literal(s) => match node.item {
            TreeNodeItem::Data(d) => d@ == s@,
            _ => false,
        },
        Token::Hex(h) => match node.item {
            TreeNodeItem::Data(d) => d@ == h@,
            _ => false,
        },
        Token::Regex { .. } => node.item is Data,
        Token::Bytes { min, max } => match node.item {
            TreeNodeItem::Data(d) => min <= d@.len() <= max,
            _ => false,
        },
    }
}

/// A tree whose root applies the given rule and conforms throughout.
pub open spec fn production_conforms(node: TreeNode, name: Seq<u8>, g: Grammar) -> bool {
    match node.item {
        TreeNodeItem::ProductionApplication(pa) => pa_conforms(pa, name, g),
        TreeNodeItem::Data(_) => false,
    }
}

/// Conformance only looks at the skeleton, so it carries over between
/// trees with equal skeletons.
pub proof fn lemma_conforms_skeleton(a: TreeNode, b: TreeNode, t: Token, g: Grammar)
    requires
        crate::sample::same_skeleton(a, b),
        token_conforms(b, t, g),
    ensures
        token_conforms(a, t, g),
    decreases a, 1int,
{
    match t {
        Token::Identifier(_) => {
            match a.item {
                TreeNodeItem::ProductionApplication(pa) => {
                    let pb = b.item->ProductionApplication_0;
                    lemma_items_conforms_skeleton(
                        pa.items@,
                        pb.items@,
                        g.spec_alternatives(pb.rule_name@)[pb.production_variant as int]@,
                        g,
                    );
                },
                TreeNodeItem::Data(_) => {},
            }
        },
        _ => {},
    }
}

proof fn lemma_items_conforms_skeleton(
    a: Seq<TreeNode>,
    b: Seq<TreeNode>,
    tokens: Seq<Token>,
    g: Grammar,
)
    requires
        crate::sample::same_skeleton_items(a, b),
        items_conform(b, tokens, g),
    ensures
        items_conform(a, tokens, g),
    decreases a, 2int,
{
    if a.len() > 0 {
        lemma_conforms_skeleton(a.first(), b.first(), tokens.first(), g);
        lemma_items_conforms_skeleton(a.drop_first(), b.drop_first(), tokens.drop_first(), g);
    }
}

pub proof fn lemma_production_conforms_skeleton(a: TreeNode, b: TreeNode, name: Seq<u8>, g: Grammar)
    requires
        crate::sample::same_skeleton(a, b),
        production_conforms(b, name, g),
    ensures
        production_conforms(a, name, g),
{
    match b.item {
        TreeNodeItem::ProductionApplication(pb) => {
            match a.item {
                TreeNodeItem::ProductionApplication(pa) => {
                    lemma_items_conforms_skeleton(
                        pa.items@,
                        pb.items@,
                        g.spec_alternatives(name)[pb.production_variant as int]@,
                        g,
                    );
                },
                TreeNodeItem::Data(_) => {},
            }
        },
        TreeNodeItem::Data(_) => {},
    }
}


/// Nesting depth of a tree: leaves are at depth zero, a production node
/// is one above its deepest child.
pub open spec fn node_depth(node: TreeNode) -> nat
    decreases node, 0int,
{
    match node.item {
        TreeNodeItem::Data(_) => 0,
        TreeNodeItem::ProductionApplication(pa) => (1 + items_depth(pa.items@)) as nat,
    }
}

pub open spec fn items_depth(items: Seq<TreeNode>) -> nat
    decreases items, 1int,
{
    if items.len() == 0 {
        0
    } else {
        vstd::math::max(node_depth(items.first()) as int, items_depth(items.drop_first()) as int) as nat
    }
}

proof fn lemma_items_depth_push(items: Seq<TreeNode>, node: TreeNode)
    ensures
        items_depth(items.push(node)) == vstd::math::max(
            items_depth(items) as int,
            node_depth(node) as int,
        ),
    decreases items,
{
    reveal_with_fuel(items_depth, 3);
    if items.len() == 0 {
        assert(items.push(node).first() == node);
        assert(items.push(node).drop_first() =~= Seq::<TreeNode>::empty());
    } else {
        assert(items.push(node).first() == items.first());
        assert(items.push(node).drop_first() =~= items.drop_first().push(node));
        lemma_items_depth_push(items.drop_first(), node);
    }
}

/// Depth only looks at the shape, so it carries over between trees with
/// equal skeletons.
pub proof fn lemma_skeleton_same_depth(a: TreeNode, b: TreeNode)
    requires
        crate::sample::same_skeleton(a, b),
    ensures
        node_depth(a) == node_depth(b),
    decreases a, 0int,
{
    match a.item {
        TreeNodeItem::Data(_) => {},
        TreeNodeItem::ProductionApplication(pa) => {
            let pb = b.item->ProductionApplication_0;
            lemma_skeleton_items_same_depth(pa.items@, pb.items@);
        },
    }
}

proof fn lemma_skeleton_items_same_depth(a: Seq<TreeNode>, b: Seq<TreeNode>)
    requires
        crate::sample::same_skeleton_items(a, b),
    ensures
        items_depth(a) == items_depth(b),
    decreases a, 1int,
{
    if a.len() > 0 {
        lemma_skeleton_same_depth(a.first(), b.first());
        lemma_skeleton_items_same_depth(a.drop_first(), b.drop_first());
    }
}

/// Whether the pattern parses and compiles into a sampler, which depends
/// on the pattern, the repeat bound and the unicode flag alone.
pub uninterp spec fn regex_accepted(pattern: Seq<u8>, size_limit: u32, unicode: bool) -> bool;

#[verifier::external_type_specification]
#[verifier::external_body]
pub struct ExRandRegex(rand_regex::Regex);

/// Relies on `regex_syntax::ParserBuilder` (with the unicode flag) to
/// parse the pattern and on `rand_regex::Regex::with_hir` to compile it
/// with the repeat bound; success depends only on the arguments.
#[verifier::external_body]
pub(crate) fn compile_regex(pattern: &[u8], size_limit: u32, unicode: bool) -> (r: Option<
    rand_regex::Regex,
>)
    ensures
        r is Some <==> regex_accepted(pattern@, size_limit, unicode),
{
    let text = match core::str::from_utf8(pattern) {
        Ok(t) => t,
        Err(_) => {
            return None;
        },
    };
    let mut parser = regex_syntax::ParserBuilder::new().unicode(unicode).build();
    let hir = match parser.parse(text) {
        Ok(h) => h,
        Err(_) => {
            return None;
        },
    };
    rand_regex::Regex::with_hir(hir, size_limit).ok()
}

/// Relies on `rand_regex::Regex` as a byte-string distribution, sampled
/// through `rand::thread_rng`; nothing is assumed about the outcome.
#[verifier::external_body]
fn sample_regex(re: &rand_regex::Regex) -> (r: Vec<u8>) {
    rand::Rng::sample::<Vec<u8>, _>(&mut rand::thread_rng(), re)
}

/// Depth-bounded random derivation from a grammar.
pub struct Generator {
    grammar: Grammar,
    depth_limit: usize,
}

impl Generator {
    pub closed spec fn spec_grammar(self) -> Grammar {
        self.grammar
    }

    pub closed spec fn spec_depth_limit(self) -> usize {
        self.depth_limit
    }

    pub open spec fn wf(self) -> bool {
        self.spec_grammar().wf() && self.spec_grammar().validated()
    }

    pub fn new(grammar: Grammar, depth_limit: usize) -> (r: Generator)
        requires
            grammar.wf(),
            grammar.validated(),
        ensures
            r.wf(),
            r.spec_grammar() == grammar,
            r.spec_depth_limit() == depth_limit,
    {
        Generator { grammar, depth_limit }
    }

    /// Draws trees for the `root` production until one derivation
    /// succeeds, then folds it into a sample.  Gives up only after an
    /// enormous number of fruitless rounds, which a usable grammar never
    /// reaches.
    pub fn generate(&self) -> (r: Option<GrammarSample>)
        requires
            self.wf(),
        ensures
            match r {
                Some(sample) => production_conforms(
                    sample.tree(),
                    crate::grammar::root_name(),
                    self.spec_grammar(),
                ) && node_depth(sample.tree()) <= self.spec_depth_limit(),
                None => true,
            },
    {
        let mut root: Vec<u8> = Vec::new();
        root.push(114u8);
        root.push(111u8);
        root.push(111u8);
        root.push(116u8);
        proof {
            assert(root@ =~= crate::grammar::root_name());
        }
        let mut tree_opt: Option<TreeNode> = None;
        let mut round: u64 = 0;
        while tree_opt.is_none() && round < 0xffff_ffff_ffff_ffffu64
            invariant
                self.wf(),
                root@ == crate::grammar::root_name(),
                match tree_opt {
                    Some(t) => production_conforms(
                        t,
                        crate::grammar::root_name(),
                        self.spec_grammar(),
                    ) && node_depth(t) <= self.spec_depth_limit(),
                    None => true,
                },
            decreases 0xffff_ffff_ffff_ffffu64 - round,
        {
            if let Ok(res) = generate_production_in(&self.grammar, root.as_slice(), self.depth_limit) {
                tree_opt = Some(res);
            }
            round += 1;
        }
        let tree = match tree_opt {
            Some(t) => t,
            None => {
                return None;
            },
        };
        let sample = tree.fold_into_sample();
        proof {
            lemma_production_conforms_skeleton(
                sample.tree(),
                tree,
                crate::grammar::root_name(),
                self.spec_grammar(),
            );
            lemma_skeleton_same_depth(sample.tree(), tree);
        }
        Some(sample)
    }

    /// Whether the generator's grammar defines this production.
    pub fn defines(&self, name: &[u8]) -> (r: bool)
        requires
            self.wf(),
        ensures
            r == self.spec_grammar().spec_defines(name@),
    {
        self.grammar.lookup(name).is_some()
    }

    /// Tries up to `attempts` derivations of the named production and
    /// hands back the first successful application.
    pub fn generate_of_type(&self, name: &[u8], attempts: usize) -> (r: Result<
        ProductionApplication,
        (),
    >)
        requires
            self.wf(),
            self.spec_grammar().spec_defines(name@),
        ensures
            match r {
                Ok(pa) => pa_conforms(pa, name@, self.spec_grammar()) && 1 + items_depth(pa.items@)
                    <= self.spec_depth_limit(),
                Err(()) => true,
            },
            attempts == 0 ==> r is Err,
    {
        generate_of_type_in(&self.grammar, self.depth_limit, name, attempts)
    }

}

/// Tries up to `attempts` derivations of the named production from the
/// given grammar, within the depth limit.
#[verifier::loop_isolation(false)]
pub fn generate_of_type_in(g: &Grammar, depth_limit: usize, name: &[u8], attempts: usize) -> (r:
    Result<ProductionApplication, ()>)
    requires
        g.wf(),
        g.validated(),
        g.spec_defines(name@),
    ensures
        match r {
            Ok(pa) => pa_conforms(pa, name@, *g) && 1 + items_depth(pa.items@) <= depth_limit,
            Err(()) => true,
        },
        attempts == 0 ==> r is Err,
{
    let mut attempt: usize = 0;
    while attempt < attempts
        invariant
            g.wf(),
            g.validated(),
            g.spec_defines(name@),
        decreases attempts - attempt,
    {
        if let Ok(node) = generate_production_in(g, name, depth_limit) {
            match node.item {
                TreeNodeItem::ProductionApplication(res) => {
                    return Ok(res);
                },
                TreeNodeItem::Data(_) => {
                    proof {
                        assert(false);
                    }
                },
            }
        }
        attempt += 1;
    }
    Err(())
}

/// One attempt series for a production: up to `remaining_depth` draws
/// of an alternative, each tried token by token.
#[verifier::loop_isolation(false)]
fn generate_production_in(g: &Grammar, current_production: &[u8], remaining_depth: usize) -> (r:
    Result<TreeNode, ()>)
    requires
        g.wf(),
        g.validated(),
        g.spec_defines(current_production@),
    ensures
        match r {
            Ok(node) => production_conforms(node, current_production@, *g) && node_depth(node)
                <= remaining_depth,
            Err(()) => true,
        },
    decreases remaining_depth, 2int,
{
    {
        let alts = match g.lookup(current_production) {
            Some(alts) => alts,
            None => {
                return Err(());
            },
        };
        let mut roll: usize = 0;
        while roll < remaining_depth
            invariant
                alts@ == g.spec_alternatives(current_production@),
            decreases remaining_depth - roll,
        {
            let chosen_idx = crate::rng::rand_below(alts.len());
            let production = &alts[chosen_idx];
            proof {
                let gi = g.spec_index_of(current_production@);
                assert(0 <= gi < g.productions@.len() && g.productions@[gi].lhs@
                    == current_production@);
                assert forall|k: int| 0 <= k < production@.len() implies match #[trigger] production@[k] {
                    Token::Identifier(n) => g.spec_defines(n@),
                    Token::Bytes { min, max } => min <= max,
                    _ => true,
                } by {
                    assert(g.productions@[gi].rhs@[chosen_idx as int]@[k] == production@[k]);
                    assert(crate::grammar::token_bounds_ok(production@[k]));
                }
            }
            match generate_tokens_in(g, production, remaining_depth - 1) {
                Ok(sub) => {
                    let mut name: Vec<u8> = Vec::new();
                    name.extend_from_slice(current_production);
                    proof {
                        assert(name@ =~= current_production@);
                    }
                    let node = TreeNode {
                        start: 0,
                        size: 0,
                        item: TreeNodeItem::ProductionApplication(
                            ProductionApplication {
                                rule_name: name,
                                production_variant: chosen_idx,
                                items: sub,
                            },
                        ),
                    };
                    proof {
                        assert(node_depth(node) == 1 + items_depth(sub@));
                    }
                    return Ok(node);
                },
                Err(()) => {},
            }
            roll += 1;
        }
        Err(())
    }
}

/// Tries to generate every token of one alternative.
#[verifier::loop_isolation(false)]
fn generate_tokens_in(g: &Grammar, tokens: &Vec<Token>, token_depth: usize) -> (r: Result<
    Vec<TreeNode>,
    (),
>)
    requires
        g.wf(),
        g.validated(),
        forall|k: int|
            0 <= k < tokens@.len() ==> match #[trigger] tokens@[k] {
                Token::Identifier(n) => g.spec_defines(n@),
                Token::Bytes { min, max } => min <= max,
                _ => true,
            },
    ensures
        match r {
            Ok(items) => items_conform(items@, tokens@, *g) && items_depth(items@) <= token_depth,
            Err(()) => true,
        },
    decreases token_depth, 1int,
{
    let n = tokens.len();
    let mut items: Vec<TreeNode> = Vec::new();
    assert(tokens@.take(0) =~= Seq::<Token>::empty());
    for k in 0..n
        invariant
            n == tokens@.len(),
            items_conform(items@, tokens@.take(k as int), *g),
            items_depth(items@) <= token_depth,
    {
        match generate_token_in(g, &tokens[k], token_depth) {
            Ok(node) => {
                proof {
                    lemma_items_conform_push(
                        items@,
                        tokens@.take(k as int),
                        node,
                        tokens@[k as int],
                        *g,
                    );
                    assert(tokens@.take(k + 1) =~= tokens@.take(k as int).push(
                        tokens@[k as int],
                    ));
                    lemma_items_depth_push(items@, node);
                }
                items.push(node);
            },
            Err(()) => {
                return Err(());
            },
        }
    }
    proof {
        assert(tokens@.take(n as int) =~= tokens@);
    }
    Ok(items)
}

/// Generates one token: terminals always succeed, identifiers recurse
/// with one less depth and fail at depth zero.
fn generate_token_in(g: &Grammar, token: &Token, remaining_depth: usize) -> (r: Result<
    TreeNode,
    (),
>)
    requires
        g.wf(),
        g.validated(),
        match *token {
            Token::Identifier(ref n) => g.spec_defines(n@),
            Token::Bytes { min, max } => min <= max,
            _ => true,
        },
    ensures
        match r {
            Ok(node) => token_conforms(node, *token, *g) && node_depth(node) <= remaining_depth,
            Err(()) => true,
        },
        *token is Identifier && remaining_depth == 0 ==> r is Err,
    decreases remaining_depth, 0int,
{
    {
        match token {
            Token::Identifier(i) => {
                if remaining_depth == 0 {
                    Err(())
                } else {
                    generate_production_in(g, i.as_slice(), remaining_depth - 1)
                }
            },
            Token::Literal(s) => {
                let data = s.clone();
                proof {
                    assert(data@ =~= s@);
                }
                Ok(TreeNode { start: 0, size: data.len(), item: TreeNodeItem::Data(data) })
            },
            Token::Hex(h) => {
                let data = h.clone();
                proof {
                    assert(data@ =~= h@);
                }
                Ok(TreeNode { start: 0, size: data.len(), item: TreeNodeItem::Data(data) })
            },
            Token::Regex { pattern, size_limit, unicode } => {
                match compile_regex(pattern.as_slice(), *size_limit, *unicode) {
                    Some(re) => {
                        let data = sample_regex(&re);
                        Ok(TreeNode { start: 0, size: data.len(), item: TreeNodeItem::Data(data) })
                    },
                    None => Err(()),
                }
            },
            Token::Bytes { min, max } => {
                let data = generate_byte_sequence(*min, *max);
                Ok(TreeNode { start: 0, size: data.len(), item: TreeNodeItem::Data(data) })
            },
        }
    }
}

/// Uniform random bytes with a length drawn from `[min, max]`.
fn generate_byte_sequence(min: usize, max: usize) -> (r: Vec<u8>)
    requires
        min <= max,
    ensures
        min <= r@.len() <= max,
{
    {
        let span = max - min;
        let size = if span == usize::MAX {
            crate::rng::rand_below(usize::MAX)
        } else {
            min + crate::rng::rand_below(span + 1)
        };
        let mut data: Vec<u8> = Vec::new();
        let mut k: usize = 0;
        while k < size
            invariant
                data@.len() == k,
                k <= size,
                min <= size <= max,
            decreases size - k,
        {
            data.push(crate::rng::rand_byte());
            k += 1;
        }
        data
    }
}

proof fn lemma_items_conform_push(
    items: Seq<TreeNode>,
    tokens: Seq<Token>,
    node: TreeNode,
    token: Token,
    g: Grammar,
)
    requires
        items_conform(items, tokens, g),
        token_conforms(node, token, g),
    ensures
        items_conform(items.push(node), tokens.push(token), g),
    decreases items, 4int,
{
    reveal_with_fuel(items_conform, 3);
    if items.len() == 0 {
        assert(items.push(node).first() == node);
        assert(tokens.push(token).first() == token);
        assert(items.push(node).drop_first() =~= Seq::<TreeNode>::empty());
        assert(tokens.push(token).drop_first() =~= Seq::<Token>::empty());
    } else {
        assert(items.push(node).first() == items.first());
        assert(tokens.push(token).first() == tokens.first());
        assert(items.push(node).drop_first() =~= items.drop_first().push(node));
        assert(tokens.push(token).drop_first() =~= tokens.drop_first().push(token));
        lemma_items_conform_push(items.drop_first(), tokens.drop_first(), node, token, g);
    }
}

} // verus!
