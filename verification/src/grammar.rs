//! The grammar: production rules over byte-producing tokens.
//!
//! A grammar maps production names to a nonempty list of alternatives,
//! each a nonempty list of tokens: literals, hex blocks, identifiers,
//! regular-expression terminals and random byte ranges.  Generation
//! (random derivation) and the text format live in the submodules.

pub mod generation;
pub mod parse;
pub mod validate_grammar;

use crate::flags::Flags;
use vstd::string::StringSliceAdditionalSpecFns;
use vstd::prelude::*;

verus! {

/// One token of an alternative.
#[derive(Debug)]
pub enum Token {
    /// A reference to another production.
    Identifier(Vec<u8>),
    /// Fixed bytes from a string literal.
    Literal(Vec<u8>),
    /// Fixed bytes from a hex literal.
    Hex(Vec<u8>),
    /// A regular-expression terminal, kept as its source pattern.
    Regex { pattern: Vec<u8>, size_limit: u32, unicode: bool },
    /// A random byte string with a length drawn from `[min, max]`.
    Bytes { min: usize, max: usize },
}

/// Spec-level shape of a token.
pub enum SpecToken {
    Identifier(Seq<u8>),
    Literal(Seq<u8>),
    Hex(Seq<u8>),
    Regex { pattern: Seq<u8>, size_limit: u32, unicode: bool },
    Bytes { min: nat, max: nat },
}

pub open spec fn token_view(t: Token) -> SpecToken {
    match t {
        Token::Identifier(n) => SpecToken::Identifier(n@),
        Token::Literal(s) => SpecToken::Literal(s@),
        Token::Hex(h) => SpecToken::Hex(h@),
        Token::Regex { pattern, size_limit, unicode } => SpecToken::Regex {
            pattern: pattern@,
            size_limit,
            unicode,
        },
        Token::Bytes { min, max } => SpecToken::Bytes { min: min as nat, max: max as nat },
    }
}

pub type ProductionRhs = Vec<Token>;

/// A named production: the left-hand side and its alternatives.
#[derive(Debug)]
pub struct Production {
    pub lhs: Vec<u8>,
    pub rhs: Vec<ProductionRhs>,
}

pub open spec fn rhs_view(rhs: Seq<Token>) -> Seq<SpecToken> {
    rhs.map(|i: int, t: Token| token_view(t))
}

pub open spec fn alternatives_view(alts: Seq<ProductionRhs>) -> Seq<Seq<SpecToken>> {
    alts.map(|i: int, rhs: ProductionRhs| rhs_view(rhs@))
}

/// The grammar: option flags plus the productions, in definition order.
#[derive(Debug)]
pub struct Grammar {
    pub options: Flags,
    pub productions: Vec<Production>,
}

/// The structural view of the productions: names paired with the shapes
/// of their alternatives, in order.  Two grammars with equal views are
/// structurally equal.
pub open spec fn grammar_view(g: Grammar) -> Seq<(Seq<u8>, Seq<Seq<SpecToken>>)> {
    g.productions@.map(|i: int, p: Production| (p.lhs@, alternatives_view(p.rhs@)))
}

/// Byte-range tokens carry an ordered interval.
pub open spec fn token_bounds_ok(t: Token) -> bool {
    match t {
        Token::Bytes { min, max } => min <= max,
        _ => true,
    }
}

pub open spec fn root_name() -> Seq<u8> {
    seq![114u8, 111u8, 111u8, 116u8]
}

impl Grammar {
    pub open spec fn spec_defines(self, name: Seq<u8>) -> bool {
        exists|i: int|
            0 <= i < self.productions@.len() && (#[trigger] self.productions@[i]).lhs@ == name
    }

    pub open spec fn spec_index_of(self, name: Seq<u8>) -> int {
        choose|i: int|
            0 <= i < self.productions@.len() && (#[trigger] self.productions@[i]).lhs@ == name
    }

    pub open spec fn spec_alternatives(self, name: Seq<u8>) -> Seq<ProductionRhs> {
        self.productions@[self.spec_index_of(name)].rhs@
    }

    /// Structural well-formedness, guaranteed by the parser: names are
    /// unique, every production has at least one alternative, and every
    /// alternative at least one token.
    pub open spec fn wf(self) -> bool {
        &&& forall|i: int, j: int|
            0 <= i < j < self.productions@.len() ==> (#[trigger] self.productions@[i]).lhs@ != (
            #[trigger] self.productions@[j]).lhs@
        &&& forall|i: int|
            0 <= i < self.productions@.len() ==> (#[trigger] self.productions@[i]).rhs@.len() > 0
        &&& forall|i: int, j: int|
            #![trigger self.productions@[i].rhs@[j]]
            0 <= i < self.productions@.len() && 0 <= j < self.productions@[i].rhs@.len()
                ==> self.productions@[i].rhs@[j]@.len() > 0
        &&& forall|i: int, j: int, k: int|
            #![trigger self.productions@[i].rhs@[j]@[k]]
            0 <= i < self.productions@.len() && 0 <= j < self.productions@[i].rhs@.len() && 0 <= k
                < self.productions@[i].rhs@[j]@.len() ==> token_bounds_ok(
                self.productions@[i].rhs@[j]@[k],
            )
    }

    /// Semantic validity: a `root` production exists and every identifier
    /// token references a defined production.
    pub open spec fn validated(self) -> bool {
        &&& self.spec_defines(root_name())
        &&& forall|i: int, j: int, k: int|
            #![trigger self.productions@[i].rhs@[j]@[k]]
            0 <= i < self.productions@.len() && 0 <= j < self.productions@[i].rhs@.len() && 0 <= k
                < self.productions@[i].rhs@[j]@.len() ==> match self.productions@[i].rhs@[j]@[k] {
                Token::Identifier(n) => self.spec_defines(n@),
                _ => true,
            }
    }

    /// An empty grammar: no options, no productions.  Used in place of a
    /// real grammar when fuzzing from on-disk seeds.
    pub fn empty() -> (r: Self)
        ensures
            r.productions@.len() == 0,
            r.wf(),
    {
        Grammar { options: Flags::new(Vec::new()), productions: Vec::new() }
    }

    /// The alternatives of a production, if it is defined.
    #[verifier::loop_isolation(false)]
    pub fn lookup(&self, name: &[u8]) -> (r: Option<&Vec<ProductionRhs>>)
        requires
            self.wf(),
        ensures
            match r {
                Some(alts) => self.spec_defines(name@) && alts@ == self.spec_alternatives(name@),
                None => !self.spec_defines(name@),
            },
    {
        let n = self.productions.len();
        for i in 0..n
            invariant
                n == self.productions@.len(),
                forall|j: int| 0 <= j < i ==> (#[trigger] self.productions@[j]).lhs@ != name@,
        {
            if compare_bytes(self.productions[i].lhs.as_slice(), name) {
                proof {
                    lemma_unique_lhs(self.productions@, i as int, name@);
                }
                return Some(&self.productions[i].rhs);
            }
        }
        None
    }
}

/// A name is defined in a structural grammar view.
pub open spec fn view_defines(list: Seq<(Seq<u8>, Seq<Seq<SpecToken>>)>, name: Seq<u8>) -> bool {
    exists|i: int| 0 <= i < list.len() && (#[trigger] list[i]).0 == name
}

/// Semantic validity of a structural grammar view: `root` is defined and
/// every identifier token resolves.
pub open spec fn view_validated(list: Seq<(Seq<u8>, Seq<Seq<SpecToken>>)>) -> bool {
    &&& view_defines(list, root_name())
    &&& forall|i: int, j: int, k: int|
        #![trigger list[i].1[j][k]]
        0 <= i < list.len() && 0 <= j < list[i].1.len() && 0 <= k < list[i].1[j].len()
            ==> match list[i].1[j][k] {
            SpecToken::Identifier(n) => view_defines(list, n),
            _ => true,
        }
}

/// The texts on which `parse_grammar` succeeds: the bytes read as a
/// grammar and the grammar validates.
pub open spec fn text_accepted(s: Seq<u8>) -> bool {
    match parse::spec_grammar_text(s) {
        Option::Some(pair) => view_validated(pair.0),
        Option::None => false,
    }
}

/// Validity is a property of the structural view alone.
proof fn lemma_validated_view(g: Grammar)
    ensures
        g.validated() <==> view_validated(grammar_view(g)),
{
    let list = grammar_view(g);
    assert(list.len() == g.productions@.len());
    assert forall|n: Seq<u8>| #[trigger] g.spec_defines(n) implies view_defines(list, n) by {
        let i = choose|i: int|
            0 <= i < g.productions@.len() && (#[trigger] g.productions@[i]).lhs@ == n;
        assert(list[i].0 == n);
    }
    assert forall|n: Seq<u8>| #[trigger] view_defines(list, n) implies g.spec_defines(n) by {
        let i = choose|i: int| 0 <= i < list.len() && (#[trigger] list[i]).0 == n;
        assert(g.productions@[i].lhs@ == n);
    }
    if g.validated() {
        assert forall|i: int, j: int, k: int|
            #![trigger list[i].1[j][k]]
            0 <= i < list.len() && 0 <= j < list[i].1.len() && 0 <= k
                < list[i].1[j].len() implies match list[i].1[j][k] {
            SpecToken::Identifier(n) => view_defines(list, n),
            _ => true,
        } by {
            assert(list[i].1 == alternatives_view(g.productions@[i].rhs@));
            assert(list[i].1[j] == rhs_view(g.productions@[i].rhs@[j]@));
            assert(list[i].1[j][k] == token_view(g.productions@[i].rhs@[j]@[k]));
        }
    }
    if view_validated(list) {
        assert forall|i: int, j: int, k: int|
            #![trigger g.productions@[i].rhs@[j]@[k]]
            0 <= i < g.productions@.len() && 0 <= j < g.productions@[i].rhs@.len() && 0 <= k
                < g.productions@[i].rhs@[j]@.len() implies match g.productions@[i].rhs@[j]@[k] {
            Token::Identifier(n) => g.spec_defines(n@),
            _ => true,
        } by {
            assert(list[i].1 == alternatives_view(g.productions@[i].rhs@));
            assert(list[i].1[j] == rhs_view(g.productions@[i].rhs@[j]@));
            assert(list[i].1[j][k] == token_view(g.productions@[i].rhs@[j]@[k]));
        }
    }
}

/// Parses and validates a grammar text.  Succeeds exactly on the texts
/// the format accepts, and the parsed grammar is the structural reading
/// of the text: well formed, defining `root`, resolving every
/// identifier.
pub fn parse_grammar(content: &str) -> (r: Result<
    Grammar,
    Vec<validate_grammar::GrammarError>,
>)
    ensures
        (r is Ok) <==> text_accepted(content.spec_bytes()),
        match r {
            Ok(g) => {
                &&& g.wf()
                &&& g.validated()
                &&& parse::spec_grammar_text(content.spec_bytes()) matches Option::Some(pair)
                    && grammar_view(g) == pair.0
            },
            Err(es) => es@.len() > 0,
        },
{
    let bytes = content.as_bytes();
    match parse::parse_grammar_text(bytes) {
        Some(g) => {
            proof {
                lemma_validated_view(g);
            }
            match validate_grammar::validate_grammar(&g) {
                Ok(()) => Ok(g),
                Err(es) => Err(es),
            }
        },
        None => {
            let mut es: Vec<validate_grammar::GrammarError> = Vec::new();
            es.push(validate_grammar::GrammarError::Parse);
            Err(es)
        },
    }
}

/// Byte-wise equality of two slices.
pub fn compare_bytes(a: &[u8], b: &[u8]) -> (r: bool)
    ensures
        r == (a@ == b@),
{
    if a.len() != b.len() {
        proof {
            assert(a@.len() != b@.len());
        }
        return false;
    }
    let n = a.len();
    for i in 0..n
        invariant
            n == a@.len() == b@.len(),
            forall|j: int| 0 <= j < i ==> a@[j] == b@[j],
    {
        if a[i] != b[i] {
            return false;
        }
    }
    proof {
        assert(a@ =~= b@);
    }
    true
}

/// With unique names, the witness index of a defined name is the index at
/// which it was found.
pub proof fn lemma_unique_lhs(prods: Seq<Production>, at: int, name: Seq<u8>)
    requires
        forall|i: int, j: int|
            0 <= i < j < prods.len() ==> (#[trigger] prods[i]).lhs@ != (#[trigger] prods[j]).lhs@,
        0 <= at < prods.len(),
        prods[at].lhs@ == name,
    ensures
        forall|i: int| 0 <= i < prods.len() && (#[trigger] prods[i]).lhs@ == name ==> i == at,
        (choose|i: int| 0 <= i < prods.len() && (#[trigger] prods[i]).lhs@ == name) == at,
{
    assert forall|i: int| 0 <= i < prods.len() && (#[trigger] prods[i]).lhs@ == name implies i
        == at by {
        if i < at {
            assert(prods[i].lhs@ != prods[at].lhs@);
        } else if i > at {
            assert(prods[at].lhs@ != prods[i].lhs@);
        }
    }
}


impl Clone for Token {
    fn clone(&self) -> (r: Self)
        ensures
            token_view(r) == token_view(*self),
            token_bounds_ok(r) == token_bounds_ok(*self),
    {
        match self {
            Token::Identifier(n) => {
                let c = n.clone();
                proof {
                    assert(c@ =~= n@);
                }
                Token::Identifier(c)
            },
            Token::Literal(s) => {
                let c = s.clone();
                proof {
                    assert(c@ =~= s@);
                }
                Token::Literal(c)
            },
            Token::Hex(h) => {
                let c = h.clone();
                proof {
                    assert(c@ =~= h@);
                }
                Token::Hex(c)
            },
            Token::Regex { pattern, size_limit, unicode } => {
                let c = pattern.clone();
                proof {
                    assert(c@ =~= pattern@);
                }
                Token::Regex { pattern: c, size_limit: *size_limit, unicode: *unicode }
            },
            Token::Bytes { min, max } => Token::Bytes { min: *min, max: *max },
        }
    }
}

impl Clone for Production {
    #[verifier::loop_isolation(false)]
    fn clone(&self) -> (r: Self)
        ensures
            r.lhs@ == self.lhs@,
            r.rhs@.len() == self.rhs@.len(),
            forall|j: int| 0 <= j < self.rhs@.len() ==> (#[trigger] r.rhs@[j])@.len() == self.rhs@[j]@.len(),
            forall|j: int, k: int|
                #![trigger r.rhs@[j]@[k]]
                0 <= j < self.rhs@.len() && 0 <= k < self.rhs@[j]@.len() ==> token_view(
                    r.rhs@[j]@[k],
                ) == token_view(self.rhs@[j]@[k]) && token_bounds_ok(r.rhs@[j]@[k])
                    == token_bounds_ok(self.rhs@[j]@[k]),
    {
        let lhs = self.lhs.clone();
        proof {
            assert(lhs@ =~= self.lhs@);
        }
        let na = self.rhs.len();
        let mut rhs: Vec<ProductionRhs> = Vec::new();
        for j in 0..na
            invariant
                na == self.rhs@.len(),
                rhs@.len() == j,
                forall|b: int| 0 <= b < j ==> (#[trigger] rhs@[b])@.len() == self.rhs@[b]@.len(),
                forall|b: int, c: int|
                    #![trigger rhs@[b]@[c]]
                    0 <= b < j && 0 <= c < self.rhs@[b]@.len() ==> token_view(rhs@[b]@[c])
                        == token_view(self.rhs@[b]@[c]) && token_bounds_ok(rhs@[b]@[c])
                        == token_bounds_ok(self.rhs@[b]@[c]),
        {
            let nt = self.rhs[j].len();
            let mut alt: Vec<Token> = Vec::new();
            for k in 0..nt
                invariant
                    na == self.rhs@.len(),
                    nt == self.rhs@[j as int]@.len(),
                    alt@.len() == k,
                    forall|c: int|
                        0 <= c < k ==> token_view(#[trigger] alt@[c]) == token_view(
                            self.rhs@[j as int]@[c],
                        ) && token_bounds_ok(alt@[c]) == token_bounds_ok(self.rhs@[j as int]@[c]),
            {
                alt.push(self.rhs[j][k].clone());
            }
            rhs.push(alt);
        }
        Production { lhs, rhs }
    }
}

impl Clone for Grammar {
    #[verifier::loop_isolation(false)]
    fn clone(&self) -> (r: Self)
        ensures
            r.wf() == self.wf(),
            r.validated() == self.validated(),
    {
        let np = self.productions.len();
        let mut productions: Vec<Production> = Vec::new();
        for i in 0..np
            invariant
                np == self.productions@.len(),
                productions@.len() == i,
                forall|a: int|
                    0 <= a < i ==> (#[trigger] productions@[a]).lhs@ == self.productions@[a].lhs@
                        && productions@[a].rhs@.len() == self.productions@[a].rhs@.len(),
                forall|a: int, b: int|
                    #![trigger productions@[a].rhs@[b]]
                    0 <= a < i && 0 <= b < self.productions@[a].rhs@.len()
                        ==> productions@[a].rhs@[b]@.len() == self.productions@[a].rhs@[b]@.len(),
                forall|a: int, b: int, c: int|
                    #![trigger productions@[a].rhs@[b]@[c]]
                    0 <= a < i && 0 <= b < self.productions@[a].rhs@.len() && 0 <= c
                        < self.productions@[a].rhs@[b]@.len() ==> token_view(
                        productions@[a].rhs@[b]@[c],
                    ) == token_view(self.productions@[a].rhs@[b]@[c]) && token_bounds_ok(
                        productions@[a].rhs@[b]@[c],
                    ) == token_bounds_ok(self.productions@[a].rhs@[b]@[c]),
        {
            productions.push(self.productions[i].clone());
        }
        let r = Grammar { options: self.options.clone(), productions };
        proof {
            lemma_grammar_like(r, *self);
            lemma_grammar_like(*self, r);
        }
        r
    }
}

/// Two grammars whose productions agree name for name and token for token
/// agree on well-formedness and validity.
proof fn lemma_grammar_like(a: Grammar, b: Grammar)
    requires
        a.productions@.len() == b.productions@.len(),
        forall|i: int|
            0 <= i < b.productions@.len() ==> (#[trigger] a.productions@[i]).lhs@
                == b.productions@[i].lhs@ && a.productions@[i].rhs@.len()
                == b.productions@[i].rhs@.len(),
        forall|i: int, j: int|
            #![trigger a.productions@[i].rhs@[j]]
            0 <= i < b.productions@.len() && 0 <= j < b.productions@[i].rhs@.len()
                ==> a.productions@[i].rhs@[j]@.len() == b.productions@[i].rhs@[j]@.len(),
        forall|i: int, j: int, k: int|
            #![trigger a.productions@[i].rhs@[j]@[k]]
            0 <= i < b.productions@.len() && 0 <= j < b.productions@[i].rhs@.len() && 0 <= k
                < b.productions@[i].rhs@[j]@.len() ==> token_view(a.productions@[i].rhs@[j]@[k])
                == token_view(b.productions@[i].rhs@[j]@[k]) && token_bounds_ok(
                a.productions@[i].rhs@[j]@[k],
            ) == token_bounds_ok(b.productions@[i].rhs@[j]@[k]),
    ensures
        b.wf() ==> a.wf(),
        b.validated() ==> a.validated(),
        forall|n: Seq<u8>| #[trigger] b.spec_defines(n) ==> a.spec_defines(n),
{
    assert forall|n: Seq<u8>| #[trigger] b.spec_defines(n) implies a.spec_defines(n) by {
        let i = choose|i: int|
            0 <= i < b.productions@.len() && (#[trigger] b.productions@[i]).lhs@ == n;
        assert(a.productions@[i].lhs@ == n);
    }
    if b.validated() {
        assert forall|i: int, j: int, k: int|
            #![trigger a.productions@[i].rhs@[j]@[k]]
            0 <= i < a.productions@.len() && 0 <= j < a.productions@[i].rhs@.len() && 0 <= k
                < a.productions@[i].rhs@[j]@.len() implies match a.productions@[i].rhs@[j]@[k] {
            Token::Identifier(n) => a.spec_defines(n@),
            _ => true,
        } by {
            let ta = a.productions@[i].rhs@[j]@[k];
            let tb = b.productions@[i].rhs@[j]@[k];
            assert(token_view(ta) == token_view(tb));
            match ta {
                Token::Identifier(n) => {
                    match tb {
                        Token::Identifier(m) => {
                            assert(n@ == m@);
                            assert(b.spec_defines(m@));
                        },
                        _ => {
                            assert(false);
                        },
                    }
                },
                _ => {},
            }
        }
    }
    if b.wf() {
        assert forall|i: int, j: int|
            0 <= i < j < a.productions@.len() implies (#[trigger] a.productions@[i]).lhs@ != (
        #[trigger] a.productions@[j]).lhs@ by {
            assert(b.productions@[i].lhs@ != b.productions@[j].lhs@);
        }
        assert forall|i: int, j: int, k: int|
            #![trigger a.productions@[i].rhs@[j]@[k]]
            0 <= i < a.productions@.len() && 0 <= j < a.productions@[i].rhs@.len() && 0 <= k
                < a.productions@[i].rhs@[j]@.len() implies token_bounds_ok(
            a.productions@[i].rhs@[j]@[k],
        ) by {
            assert(token_bounds_ok(b.productions@[i].rhs@[j]@[k]));
        }
    }
}

} // verus!
