//! Grammar validation: a `root` production must exist and every
//! identifier token must reference a defined production.  All violations
//! are collected before failing.

use crate::grammar::{compare_bytes, Grammar, Token};
use vstd::prelude::*;

verus! {

/// Why a grammar was rejected.
#[derive(Clone, Debug)]
pub enum GrammarError {
    /// The text is not a grammar.
    Parse,
    /// No production named `root`.
    MissingRoot,
    /// An identifier token references no defined production; carries the
    /// name.
    UndefinedReference(Vec<u8>),
}

/// The error list names this unresolved production.
pub open spec fn reports_undefined(es: Seq<GrammarError>, name: Seq<u8>) -> bool {
    exists|i: int|
        0 <= i < es.len() && ((#[trigger] es[i]) matches GrammarError::UndefinedReference(m) && m@
            == name)
}

/// The error list reports the missing `root` production.
pub open spec fn reports_missing_root(es: Seq<GrammarError>) -> bool {
    exists|i: int| 0 <= i < es.len() && (#[trigger] es[i]) is MissingRoot
}

proof fn lemma_reports_push(es: Seq<GrammarError>, e: GrammarError, name: Seq<u8>)
    ensures
        reports_undefined(es, name) ==> reports_undefined(es.push(e), name),
        reports_missing_root(es) ==> reports_missing_root(es.push(e)),
{
    if reports_undefined(es, name) {
        let i = choose|i: int|
            0 <= i < es.len() && ((#[trigger] es[i]) matches GrammarError::UndefinedReference(m)
                && m@ == name);
        assert(es.push(e)[i] == es[i]);
    }
    if reports_missing_root(es) {
        let i = choose|i: int| 0 <= i < es.len() && (#[trigger] es[i]) is MissingRoot;
        assert(es.push(e)[i] == es[i]);
    }
}

/// Checks that `root` is defined and that every identifier resolves,
/// aggregating all violations: a missing root contributes an error and
/// each distinct unresolved name contributes one.
#[verifier::loop_isolation(false)]
pub fn validate_grammar(g: &Grammar) -> (r: Result<(), Vec<GrammarError>>)
    requires
        g.wf(),
    ensures
        match r {
            Ok(()) => g.validated(),
            Err(es) => {
                &&& !g.validated()
                &&& es@.len() > 0
                &&& !g.spec_defines(crate::grammar::root_name()) ==> reports_missing_root(es@)
                &&& forall|a: int, b: int, c: int|
                    #![trigger g.productions@[a].rhs@[b]@[c]]
                    0 <= a < g.productions@.len() && 0 <= b < g.productions@[a].rhs@.len() && 0 <= c
                        < g.productions@[a].rhs@[b]@.len() ==> match g.productions@[a].rhs@[b]@[c] {
                        Token::Identifier(n) => !g.spec_defines(n@) ==> reports_undefined(es@, n@),
                        _ => true,
                    }
            },
        },
{
    let mut errors: Vec<GrammarError> = Vec::new();
    let mut root: Vec<u8> = Vec::new();
    root.push(114u8);
    root.push(111u8);
    root.push(111u8);
    root.push(116u8);
    proof {
        assert(root@ =~= crate::grammar::root_name());
    }
    if g.lookup(root.as_slice()).is_none() {
        errors.push(GrammarError::MissingRoot);
        proof {
            assert(errors@[0] is MissingRoot);
            assert(reports_missing_root(errors@));
        }
    }
    let mut seen: Vec<Vec<u8>> = Vec::new();
    let np = g.productions.len();
    for i in 0..np
        invariant
            np == g.productions@.len(),
            errors@.len() > 0 ==> !g.validated(),
            seen@.len() > 0 ==> errors@.len() > 0,
            !g.spec_defines(crate::grammar::root_name()) ==> reports_missing_root(errors@),
            forall|s: int|
                0 <= s < seen@.len() ==> reports_undefined(errors@, (#[trigger] seen@[s])@),
            forall|a: int, b: int, c: int|
                #![trigger g.productions@[a].rhs@[b]@[c]]
                0 <= a < i && 0 <= b < g.productions@[a].rhs@.len() && 0 <= c
                    < g.productions@[a].rhs@[b]@.len() ==> match g.productions@[a].rhs@[b]@[c] {
                    Token::Identifier(n) => !g.spec_defines(n@) ==> reports_undefined(errors@, n@),
                    _ => true,
                },
            errors@.len() == 0 ==> g.spec_defines(crate::grammar::root_name()),
            errors@.len() == 0 ==> forall|a: int, b: int, c: int|
                #![trigger g.productions@[a].rhs@[b]@[c]]
                0 <= a < i && 0 <= b < g.productions@[a].rhs@.len() && 0 <= c
                    < g.productions@[a].rhs@[b]@.len() ==> match g.productions@[a].rhs@[b]@[c] {
                    Token::Identifier(n) => g.spec_defines(n@),
                    _ => true,
                },
    {
        let na = g.productions[i].rhs.len();
        for j in 0..na
            invariant
                np == g.productions@.len(),
                na == g.productions@[i as int].rhs@.len(),
                errors@.len() > 0 ==> !g.validated(),
                seen@.len() > 0 ==> errors@.len() > 0,
                !g.spec_defines(crate::grammar::root_name()) ==> reports_missing_root(errors@),
                forall|s: int|
                    0 <= s < seen@.len() ==> reports_undefined(errors@, (#[trigger] seen@[s])@),
                forall|a: int, b: int, c: int|
                    #![trigger g.productions@[a].rhs@[b]@[c]]
                    0 <= a < i && 0 <= b < g.productions@[a].rhs@.len() && 0 <= c
                        < g.productions@[a].rhs@[b]@.len() ==> match g.productions@[a].rhs@[b]@[c] {
                        Token::Identifier(n) => !g.spec_defines(n@) ==> reports_undefined(
                            errors@,
                            n@,
                        ),
                        _ => true,
                    },
                forall|b: int, c: int|
                    #![trigger g.productions@[i as int].rhs@[b]@[c]]
                    0 <= b < j && 0 <= c < g.productions@[i as int].rhs@[b]@.len() ==> match g.productions@[i as int].rhs@[b]@[c] {
                        Token::Identifier(n) => !g.spec_defines(n@) ==> reports_undefined(
                            errors@,
                            n@,
                        ),
                        _ => true,
                    },
                errors@.len() == 0 ==> g.spec_defines(crate::grammar::root_name()),
                errors@.len() == 0 ==> forall|a: int, b: int, c: int|
                    #![trigger g.productions@[a].rhs@[b]@[c]]
                    0 <= a < i && 0 <= b < g.productions@[a].rhs@.len() && 0 <= c
                        < g.productions@[a].rhs@[b]@.len() ==> match g.productions@[a].rhs@[b]@[c] {
                        Token::Identifier(n) => g.spec_defines(n@),
                        _ => true,
                    },
                errors@.len() == 0 ==> forall|b: int, c: int|
                    #![trigger g.productions@[i as int].rhs@[b]@[c]]
                    0 <= b < j && 0 <= c < g.productions@[i as int].rhs@[b]@.len()
                        ==> match g.productions@[i as int].rhs@[b]@[c] {
                        Token::Identifier(n) => g.spec_defines(n@),
                        _ => true,
                    },
        {
            let nt = g.productions[i].rhs[j].len();
            for k in 0..nt
                invariant
                    np == g.productions@.len(),
                    na == g.productions@[i as int].rhs@.len(),
                    nt == g.productions@[i as int].rhs@[j as int]@.len(),
                    errors@.len() > 0 ==> !g.validated(),
                    seen@.len() > 0 ==> errors@.len() > 0,
                    !g.spec_defines(crate::grammar::root_name()) ==> reports_missing_root(errors@),
                    forall|s: int|
                        0 <= s < seen@.len() ==> reports_undefined(errors@, (#[trigger] seen@[s])@),
                    forall|a: int, b: int, c: int|
                        #![trigger g.productions@[a].rhs@[b]@[c]]
                        0 <= a < i && 0 <= b < g.productions@[a].rhs@.len() && 0 <= c
                            < g.productions@[a].rhs@[b]@.len() ==> match g.productions@[a].rhs@[b]@[c] {
                            Token::Identifier(n) => !g.spec_defines(n@) ==> reports_undefined(
                                errors@,
                                n@,
                            ),
                            _ => true,
                        },
                    forall|b: int, c: int|
                        #![trigger g.productions@[i as int].rhs@[b]@[c]]
                        0 <= b < j && 0 <= c < g.productions@[i as int].rhs@[b]@.len()
                            ==> match g.productions@[i as int].rhs@[b]@[c] {
                            Token::Identifier(n) => !g.spec_defines(n@) ==> reports_undefined(
                                errors@,
                                n@,
                            ),
                            _ => true,
                        },
                    forall|c: int|
                        0 <= c < k ==> match #[trigger] g.productions@[i as int].rhs@[j as int]@[c] {
                            Token::Identifier(n) => !g.spec_defines(n@) ==> reports_undefined(
                                errors@,
                                n@,
                            ),
                            _ => true,
                        },
                    errors@.len() == 0 ==> g.spec_defines(crate::grammar::root_name()),
                    errors@.len() == 0 ==> forall|a: int, b: int, c: int|
                        #![trigger g.productions@[a].rhs@[b]@[c]]
                        0 <= a < i && 0 <= b < g.productions@[a].rhs@.len() && 0 <= c
                            < g.productions@[a].rhs@[b]@.len() ==> match g.productions@[a].rhs@[b]@[c] {
                            Token::Identifier(n) => g.spec_defines(n@),
                            _ => true,
                        },
                    errors@.len() == 0 ==> forall|b: int, c: int|
                        #![trigger g.productions@[i as int].rhs@[b]@[c]]
                        0 <= b < j && 0 <= c < g.productions@[i as int].rhs@[b]@.len()
                            ==> match g.productions@[i as int].rhs@[b]@[c] {
                            Token::Identifier(n) => g.spec_defines(n@),
                            _ => true,
                        },
                    errors@.len() == 0 ==> forall|c: int|
                        0 <= c < k ==> match #[trigger] g.productions@[i as int].rhs@[j as int]@[c] {
                            Token::Identifier(n) => g.spec_defines(n@),
                            _ => true,
                        },
            {
                match &g.productions[i].rhs[j][k] {
                    Token::Identifier(n) => {
                        if g.lookup(n.as_slice()).is_none() {
                            proof {
                                assert(match g.productions@[i as int].rhs@[j as int]@[k as int] {
                                    Token::Identifier(m) => !g.spec_defines(m@),
                                    _ => false,
                                });
                                assert(!g.validated());
                            }
                            if !name_seen(&seen, n.as_slice()) {
                                let mut copy: Vec<u8> = Vec::new();
                                copy.extend_from_slice(n.as_slice());
                                proof {
                                    assert(copy@ =~= n@);
                                }
                                seen.push(copy);
                                let mut name: Vec<u8> = Vec::new();
                                name.extend_from_slice(n.as_slice());
                                proof {
                                    assert(name@ =~= n@);
                                }
                                let ghost es_before = errors@;
                                errors.push(GrammarError::UndefinedReference(name));
                                proof {
                                    assert((errors@.last()
                                        matches GrammarError::UndefinedReference(m) && m@ == n@));
                                    assert(reports_undefined(errors@, n@));
                                    assert forall|s: int|
                                        0 <= s < seen@.len() implies reports_undefined(
                                        errors@,
                                        (#[trigger] seen@[s])@,
                                    ) by {
                                        if s < seen@.len() - 1 {
                                            lemma_reports_push(
                                                es_before,
                                                errors@.last(),
                                                seen@[s]@,
                                            );
                                        }
                                    }
                                    assert forall|a: int, b: int, c: int|
                                        #![trigger g.productions@[a].rhs@[b]@[c]]
                                        0 <= a < g.productions@.len() && 0 <= b
                                            < g.productions@[a].rhs@.len() && 0 <= c
                                            < g.productions@[a].rhs@[b]@.len() implies match g.productions@[a].rhs@[b]@[c] {
                                        Token::Identifier(m) => !g.spec_defines(m@)
                                            ==> reports_undefined(es_before, m@)
                                            ==> reports_undefined(errors@, m@),
                                        _ => true,
                                    } by {
                                        match g.productions@[a].rhs@[b]@[c] {
                                            Token::Identifier(m) => {
                                                lemma_reports_push(es_before, errors@.last(), m@);
                                            },
                                            _ => {},
                                        }
                                    }
                                    if !g.spec_defines(crate::grammar::root_name()) {
                                        lemma_reports_push(
                                            es_before,
                                            errors@.last(),
                                            Seq::empty(),
                                        );
                                    }
                                }
                            } else {
                                proof {
                                    assert(reports_undefined(errors@, n@));
                                }
                            }
                        }
                    },
                    _ => {},
                }
            }
        }
    }
    if errors.len() == 0 {
        Ok(())
    } else {
        Err(errors)
    }
}

/// Whether a name was already reported.
#[verifier::loop_isolation(false)]
fn name_seen(seen: &Vec<Vec<u8>>, name: &[u8]) -> (r: bool)
    ensures
        r == exists|i: int| 0 <= i < seen@.len() && (#[trigger] seen@[i])@ == name@,
{
    let n = seen.len();
    for i in 0..n
        invariant
            n == seen@.len(),
            forall|j: int| 0 <= j < i ==> (#[trigger] seen@[j])@ != name@,
    {
        if compare_bytes(seen[i].as_slice(), name) {
            return true;
        }
    }
    false
}

} // verus!
