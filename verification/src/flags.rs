//! Option flags of a grammar file: a small keyed store of strings and
//! numbers, plus the decimal conversions the text format needs.

use vstd::prelude::*;

verus! {

/// Decimal digits of `n`, most significant first.
pub open spec fn dec_rep(n: nat) -> Seq<u8>
    decreases n,
{
    if n < 10 {
        seq![(48 + n) as u8]
    } else {
        dec_rep(n / 10).push((48 + n % 10) as u8)
    }
}

/// The number a digit string denotes.
pub open spec fn dec_value(s: Seq<u8>) -> nat
    decreases s.len(),
{
    if s.len() == 0 {
        0
    } else {
        (dec_value(s.drop_last()) * 10 + (s.last() - 48)) as nat
    }
}

pub open spec fn is_dec_digits(s: Seq<u8>) -> bool {
    forall|i: int| 0 <= i < s.len() ==> 48 <= #[trigger] s[i] <= 57
}

/// Renders a number in decimal.
pub fn u32_to_decimal(n: u32) -> (r: Vec<u8>)
    ensures
        r@ == dec_rep(n as nat),
        r@.len() > 0,
        is_dec_digits(r@),
    decreases n,
{
    if n < 10 {
        let mut v: Vec<u8> = Vec::new();
        v.push(48 + (n as u8));
        proof {
            assert(v@ =~= dec_rep(n as nat));
        }
        v
    } else {
        let mut v = u32_to_decimal(n / 10);
        v.push(48 + ((n % 10) as u8));
        proof {
            assert(v@ =~= dec_rep(n as nat));
            assert forall|i: int| 0 <= i < v@.len() implies 48 <= #[trigger] v@[i] <= 57 by {}
        }
        v
    }
}

proof fn lemma_dec_value_monotone(s: Seq<u8>, i: int)
    requires
        0 <= i <= s.len(),
        is_dec_digits(s),
    ensures
        dec_value(s.take(i)) <= dec_value(s),
    decreases s.len() - i,
{
    if i < s.len() {
        assert(s.take(i + 1).drop_last() =~= s.take(i));
        assert(s.take(i + 1).last() == s[i]);
        assert(dec_value(s.take(i + 1)) == dec_value(s.take(i)) * 10 + (s[i] - 48));
        assert(dec_value(s.take(i)) * 10 >= dec_value(s.take(i))) by (nonlinear_arith);
        lemma_dec_value_monotone(s, i + 1);
        assert(s.take(s.len() as int) =~= s);
    } else {
        assert(s.take(i) =~= s);
    }
}

/// Reads a decimal number; `None` when the text is empty, holds a
/// non-digit, or denotes a value over `u32::MAX`.
#[verifier::loop_isolation(false)]
pub fn parse_u32_decimal(s: &[u8]) -> (r: Option<u32>)
    ensures
        match r {
            Some(v) => is_dec_digits(s@) && s@.len() > 0 && v == dec_value(s@),
            None => !is_dec_digits(s@) || s@.len() == 0 || dec_value(s@) > u32::MAX,
        },
{
    let n = s.len();
    if n == 0 {
        return None;
    }
    let mut acc: u32 = 0;
    for i in 0..n
        invariant
            n == s@.len(),
            acc == dec_value(s@.take(i as int)),
            forall|j: int| 0 <= j < i ==> 48 <= #[trigger] s@[j] <= 57,
    {
        let c = s[i];
        if c < 48 || c > 57 {
            return None;
        }
        let d = c - 48;
        if acc > (u32::MAX - (d as u32)) / 10 {
            proof {
                assert(s@.take(i + 1).drop_last() =~= s@.take(i as int));
                assert(s@.take(i + 1).last() == s@[i as int]);
                assert(dec_value(s@.take(i + 1)) == acc * 10 + d);
                if is_dec_digits(s@) {
                    lemma_dec_value_monotone(s@, i + 1);
                    assert(acc * 10 + d > u32::MAX) by (nonlinear_arith)
                        requires
                            acc > (u32::MAX - d) / 10,
                            0 <= d <= 9,
                    ;
                }
            }
            return None;
        }
        proof {
            assert(s@.take(i + 1).drop_last() =~= s@.take(i as int));
            assert(s@.take(i + 1).last() == s@[i as int]);
            assert(acc * 10 + d <= u32::MAX) by (nonlinear_arith)
                requires
                    acc <= (u32::MAX - d) / 10,
                    0 <= d <= 9,
            ;
        }
        acc = acc * 10 + (d as u32);
    }
    proof {
        assert(s@.take(n as int) =~= s@);
    }
    Some(acc)
}

/// The value of one option flag.
#[derive(Debug)]
pub enum FlagValue {
    Text(Vec<u8>),
    Int(u32),
}

impl Clone for FlagValue {
    fn clone(&self) -> (r: Self)
        ensures
            flag_value_view(r) == flag_value_view(*self),
    {
        match self {
            FlagValue::Text(s) => {
                let c = s.clone();
                proof {
                    assert(c@ =~= s@);
                }
                FlagValue::Text(c)
            },
            FlagValue::Int(n) => FlagValue::Int(*n),
        }
    }
}

pub open spec fn flag_value_view(v: FlagValue) -> Seq<u8> {
    match v {
        FlagValue::Text(s) => s@,
        FlagValue::Int(n) => dec_rep(n as nat),
    }
}

/// Keyed option flags, in insertion order with unique keys.
#[derive(Debug)]
pub struct Flags {
    inner: Vec<(Vec<u8>, FlagValue)>,
}

impl Clone for Flags {
    #[verifier::loop_isolation(false)]
    fn clone(&self) -> (r: Self)
        ensures
            r.entries().len() == self.entries().len(),
            forall|i: int|
                0 <= i < self.entries().len() ==> (#[trigger] r.entries()[i]).0@
                    == (self.entries()[i]).0@ && flag_value_view(r.entries()[i].1)
                    == flag_value_view(self.entries()[i].1),
    {
        proof {
            use_type_invariant(&*self);
        }
        let n = self.inner.len();
        let mut inner: Vec<(Vec<u8>, FlagValue)> = Vec::new();
        for i in 0..n
            invariant
                n == self.inner@.len(),
                inner@.len() == i,
                forall|j: int|
                    0 <= j < i ==> (#[trigger] inner@[j]).0@ == (self.inner@[j]).0@
                        && flag_value_view(inner@[j].1) == flag_value_view(self.inner@[j].1),
        {
            let key = self.inner[i].0.clone();
            proof {
                assert(key@ =~= self.inner@[i as int].0@);
            }
            inner.push((key, self.inner[i].1.clone()));
        }
        proof {
            assert(self.entries() == self.inner@);
            assert forall|a: int, b: int| 0 <= a < b < inner@.len() implies (
            #[trigger] inner@[a]).0@ != (#[trigger] inner@[b]).0@ by {
                assert((self.entries()[a]).0@ != (self.entries()[b]).0@);
                assert((self.inner@[a]).0@ != (self.inner@[b]).0@);
            }
        }
        Flags { inner }
    }
}

impl Flags {
    pub closed spec fn entries(self) -> Seq<(Vec<u8>, FlagValue)> {
        self.inner@
    }

    #[verifier::type_invariant]
    pub open spec fn inv(self) -> bool {
        forall|i: int, j: int|
            0 <= i < j < self.entries().len() ==> (#[trigger] self.entries()[i]).0@ != (
            #[trigger] self.entries()[j]).0@
    }

    pub open spec fn spec_contains(self, key: Seq<u8>) -> bool {
        exists|i: int| 0 <= i < self.entries().len() && (#[trigger] self.entries()[i]).0@ == key
    }

    pub open spec fn spec_value(self, key: Seq<u8>) -> FlagValue {
        self.entries()[choose|i: int|
            0 <= i < self.entries().len() && (#[trigger] self.entries()[i]).0@ == key].1
    }

    /// Builds the store from a list of pairs; a later key overrides an
    /// earlier equal one.
    #[verifier::loop_isolation(false)]
    pub fn new(items: Vec<(Vec<u8>, FlagValue)>) -> (r: Self)
        ensures
            forall|i: int|
                0 <= i < items@.len() ==> r.spec_contains((#[trigger] items@[i]).0@),
            forall|i: int|
                0 <= i < items@.len() && (forall|j: int|
                    i < j < items@.len() ==> (#[trigger] items@[j]).0@ != items@[i].0@)
                    ==> r.spec_value((#[trigger] items@[i]).0@) == items@[i].1,
            forall|k: Seq<u8>|
                #[trigger] r.spec_contains(k) ==> exists|i: int|
                    0 <= i < items@.len() && (#[trigger] items@[i]).0@ == k,
    {
        let mut flags = Flags { inner: Vec::new() };
        let mut rest = items;
        let total = rest.len();
        let ghost all = items@;
        let mut done: usize = 0;
        while rest.len() > 0
            invariant
                total == all.len(),
                done + rest@.len() == all.len(),
                rest@ == all.skip(done as int),
                forall|i: int| 0 <= i < done ==> flags.spec_contains((#[trigger] all[i]).0@),
                forall|i: int|
                    0 <= i < done && (forall|j: int|
                        i < j < done ==> (#[trigger] all[j]).0@ != all[i].0@) ==> flags.spec_value(
                        (#[trigger] all[i]).0@,
                    ) == all[i].1,
                forall|k: Seq<u8>|
                    #[trigger] flags.spec_contains(k) ==> exists|i: int|
                        0 <= i < done && (#[trigger] all[i]).0@ == k,
            decreases rest.len(),
        {
            let (k, v) = rest.remove(0);
            proof {
                assert(done < all.len());
                assert(all.skip(done as int).remove(0) =~= all.skip(done + 1));
                assert(k == all[done as int].0);
            }
            let ghost flags_before = flags;
            flags.put(k, v);
            proof {
                assert forall|key: Seq<u8>| #[trigger] flags.spec_contains(key) implies exists|
                    i: int,
                |
                    0 <= i < done + 1 && (#[trigger] all[i]).0@ == key by {
                    if key == all[done as int].0@ {
                        assert(all[done as int].0@ == key);
                    } else {
                        assert(flags_before.spec_contains(key));
                    }
                }
            }
            done += 1;
        }
        flags
    }

    /// Inserts or replaces the value under a key.
    #[verifier::loop_isolation(false)]
    #[verifier::rlimit(60)]
    pub fn put(&mut self, key: Vec<u8>, value: FlagValue)
        ensures
            final(self).spec_contains(key@),
            final(self).spec_value(key@) == value,
            forall|k: Seq<u8>|
                k != key@ ==> #[trigger] final(self).spec_contains(k) == old(self).spec_contains(k),
            forall|k: Seq<u8>|
                k != key@ && old(self).spec_contains(k) ==> #[trigger] final(self).spec_value(k)
                    == old(self).spec_value(k),
    {
        proof {
            use_type_invariant(&*self);
        }
        let n = self.inner.len();
        let mut i: usize = 0;
        while i < n && !crate::grammar::compare_bytes(self.inner[i].0.as_slice(), key.as_slice())
            invariant
                i <= n,
                forall|j: int| 0 <= j < i ==> (#[trigger] self.entries()[j]).0@ != key@,
            decreases n - i,
        {
            i += 1;
        }
        let mut inner: Vec<(Vec<u8>, FlagValue)> = Vec::new();
        core::mem::swap(&mut inner, &mut self.inner);
        if i < n {
            proof {
                lemma_unique_flag(inner@, i as int, key@);
            }
            let entry = inner.remove(i);
            inner.insert(i, (entry.0, value));
            proof {
                assert(inner@ =~= old(self).entries().update(i as int, inner@[i as int]));
            }
            self.inner = inner;
            proof {
                lemma_unique_flag(self.inner@, i as int, key@);
                assert(self.spec_contains(key@));
                assert(self.spec_value(key@) == self.entries()[i as int].1);
                assert(self.spec_value(key@) == value);
                assert forall|k: Seq<u8>| k != key@ implies #[trigger] self.spec_contains(k) == old(
                    self,
                ).spec_contains(k) by {
                    if old(self).spec_contains(k) {
                        let j = choose|j: int|
                            0 <= j < old(self).entries().len() && (
                            #[trigger] old(self).entries()[j]).0@ == k;
                        assert((self.entries()[j]).0@ == k);
                    }
                    if self.spec_contains(k) {
                        let j = choose|j: int|
                            0 <= j < self.entries().len() && (#[trigger] self.entries()[j]).0@ == k;
                        assert((old(self).entries()[j]).0@ == k);
                    }
                }
                assert forall|k: Seq<u8>|
                    k != key@ && old(self).spec_contains(k) implies #[trigger] self.spec_value(k)
                    == old(self).spec_value(k) by {
                    let j = choose|j: int|
                        0 <= j < old(self).entries().len() && (
                        #[trigger] old(self).entries()[j]).0@ == k;
                    lemma_unique_flag(old(self).entries(), j, k);
                    assert((self.entries()[j]).0@ == k);
                    lemma_unique_flag(self.entries(), j, k);
                }
            }
        } else {
            inner.push((key, value));
            proof {
                assert(forall|j: int|
                    0 <= j < old(self).entries().len() ==> inner@[j] == old(self).entries()[j]);
            }
            self.inner = inner;
            proof {
                lemma_unique_flag(self.inner@, n as int, key@);
                assert(self.spec_contains(key@));
                assert(self.spec_value(key@) == self.entries()[n as int].1);
                assert(self.spec_value(key@) == value);
                assert forall|k: Seq<u8>| k != key@ implies #[trigger] self.spec_contains(k) == old(
                    self,
                ).spec_contains(k) by {
                    if old(self).spec_contains(k) {
                        let j = choose|j: int|
                            0 <= j < old(self).entries().len() && (
                            #[trigger] old(self).entries()[j]).0@ == k;
                        assert((self.entries()[j]).0@ == k);
                    }
                    if self.spec_contains(k) {
                        let j = choose|j: int|
                            0 <= j < self.entries().len() && (#[trigger] self.entries()[j]).0@ == k;
                        assert(j != n as int);
                        assert((old(self).entries()[j]).0@ == k);
                    }
                }
                assert forall|k: Seq<u8>|
                    k != key@ && old(self).spec_contains(k) implies #[trigger] self.spec_value(k)
                    == old(self).spec_value(k) by {
                    let j = choose|j: int|
                        0 <= j < old(self).entries().len() && (
                        #[trigger] old(self).entries()[j]).0@ == k;
                    lemma_unique_flag(old(self).entries(), j, k);
                    assert((self.entries()[j]).0@ == k);
                    lemma_unique_flag(self.entries(), j, k);
                }
            }
        }
    }

    /// The value under a key, rendered as bytes: text verbatim, numbers
    /// in decimal.
    #[verifier::loop_isolation(false)]
    pub fn get(&self, key: &[u8]) -> (r: Option<Vec<u8>>)
        ensures
            match r {
                Some(v) => self.spec_contains(key@) && v@ == flag_value_view(
                    self.spec_value(key@),
                ),
                None => !self.spec_contains(key@),
            },
    {
        proof {
            use_type_invariant(&*self);
        }
        let n = self.inner.len();
        for i in 0..n
            invariant
                n == self.entries().len(),
                forall|j: int| 0 <= j < i ==> (#[trigger] self.entries()[j]).0@ != key@,
        {
            if crate::grammar::compare_bytes(self.inner[i].0.as_slice(), key) {
                proof {
                    lemma_unique_flag(self.inner@, i as int, key@);
                }
                return match &self.inner[i].1 {
                    FlagValue::Text(s) => {
                        let c = s.clone();
                        proof {
                            assert(c@ =~= s@);
                        }
                        Some(c)
                    },
                    FlagValue::Int(m) => Some(u32_to_decimal(*m)),
                };
            }
        }
        None
    }

    /// The value under a key as a number: numbers verbatim, text parsed
    /// as decimal; `Err` carries unparseable text.
    #[verifier::loop_isolation(false)]
    pub fn get_int(&self, key: &[u8]) -> (r: Option<Result<u32, Vec<u8>>>)
        ensures
            match r {
                Some(Ok(v)) => self.spec_contains(key@) && match self.spec_value(key@) {
                    FlagValue::Int(m) => v == m,
                    FlagValue::Text(s) => is_dec_digits(s@) && s@.len() > 0 && v == dec_value(s@),
                },
                Some(Err(text)) => self.spec_contains(key@) && match self.spec_value(key@) {
                    FlagValue::Int(_) => false,
                    FlagValue::Text(s) => text@ == s@ && (!is_dec_digits(s@) || s@.len() == 0
                        || dec_value(s@) > u32::MAX),
                },
                None => !self.spec_contains(key@),
            },
    {
        proof {
            use_type_invariant(&*self);
        }
        let n = self.inner.len();
        for i in 0..n
            invariant
                n == self.entries().len(),
                forall|j: int| 0 <= j < i ==> (#[trigger] self.entries()[j]).0@ != key@,
        {
            if crate::grammar::compare_bytes(self.inner[i].0.as_slice(), key) {
                proof {
                    lemma_unique_flag(self.inner@, i as int, key@);
                }
                return match &self.inner[i].1 {
                    FlagValue::Int(m) => Some(Ok(*m)),
                    FlagValue::Text(s) => match parse_u32_decimal(s.as_slice()) {
                        Some(v) => Some(Ok(v)),
                        None => {
                            let c = s.clone();
                            proof {
                                assert(c@ =~= s@);
                            }
                            Some(Err(c))
                        },
                    },
                };
            }
        }
        None
    }
}

proof fn lemma_unique_flag(entries: Seq<(Vec<u8>, FlagValue)>, at: int, key: Seq<u8>)
    requires
        forall|i: int, j: int|
            0 <= i < j < entries.len() ==> (#[trigger] entries[i]).0@ != (#[trigger] entries[j]).0@,
        0 <= at < entries.len(),
        (entries[at]).0@ == key,
    ensures
        forall|i: int| 0 <= i < entries.len() && (#[trigger] entries[i]).0@ == key ==> i == at,
        (choose|i: int| 0 <= i < entries.len() && (#[trigger] entries[i]).0@ == key) == at,
{
    assert forall|i: int| 0 <= i < entries.len() && (#[trigger] entries[i]).0@ == key implies i
        == at by {
        if i < at {
            assert((entries[i]).0@ != (entries[at]).0@);
        } else if i > at {
            assert((entries[at]).0@ != (entries[i]).0@);
        }
    }
}

} // verus!
