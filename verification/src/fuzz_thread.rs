//! Helpers of the fuzzing worker: crash naming, crash paths, and seeds
//! read from disk.

use crate::configuration::FuzzConfig;
use crate::sample::{GrammarSample, Sample, TreeNode, TreeNodeItem};
use vstd::prelude::*;

verus! {

pub open spec fn is_lower_hex_char(c: char) -> bool {
    ('0' <= c && c <= '9') || ('a' <= c && c <= 'f')
}

/// One lowercase hex digit as text.
fn hex_digit_str(d: u8) -> (r: &'static str)
    requires
        d < 16,
    ensures
        r@.len() == 1,
        is_lower_hex_char(r@[0]),
{
    proof {
        reveal_strlit("0");
        reveal_strlit("1");
        reveal_strlit("2");
        reveal_strlit("3");
        reveal_strlit("4");
        reveal_strlit("5");
        reveal_strlit("6");
        reveal_strlit("7");
        reveal_strlit("8");
        reveal_strlit("9");
        reveal_strlit("a");
        reveal_strlit("b");
        reveal_strlit("c");
        reveal_strlit("d");
        reveal_strlit("e");
        reveal_strlit("f");
    }
    if d == 0 {
        "0"
    } else if d == 1 {
        "1"
    } else if d == 2 {
        "2"
    } else if d == 3 {
        "3"
    } else if d == 4 {
        "4"
    } else if d == 5 {
        "5"
    } else if d == 6 {
        "6"
    } else if d == 7 {
        "7"
    } else if d == 8 {
        "8"
    } else if d == 9 {
        "9"
    } else if d == 10 {
        "a"
    } else if d == 11 {
        "b"
    } else if d == 12 {
        "c"
    } else if d == 13 {
        "d"
    } else if d == 14 {
        "e"
    } else {
        "f"
    }
}

/// A fresh stable name for a library entry: twelve random lowercase hex
/// characters.
#[verifier::loop_isolation(false)]
pub fn get_unique_name() -> (r: String)
    ensures
        r@.len() == 12,
        forall|i: int| 0 <= i < r@.len() ==> is_lower_hex_char(#[trigger] r@[i]),
{
    let mut name = String::new();
    let mut i: usize = 0;
    while i < 12
        invariant
            i <= 12,
            name@.len() == i,
            forall|j: int| 0 <= j < name@.len() ==> is_lower_hex_char(#[trigger] name@[j]),
        decreases 12 - i,
    {
        let nibble = crate::rng::rand_byte() % 16;
        name.append(hex_digit_str(nibble));
        i += 1;
    }
    name
}

/// Where a crash artifact with this name is persisted: the configured
/// output directory, a slash, the name.
pub fn get_crash_path(config: &FuzzConfig, name: &str) -> (r: String)
    ensures
        r@ == config.binary.path@.subrange(0, 0) + config.output.directory@ + "/"@ + name@,
        r@ == config.output.directory@ + "/"@ + name@,
{
    let mut path = config.output.directory.clone();
    path.append("/");
    path.append(name);
    proof {
        assert(config.binary.path@.subrange(0, 0) =~= Seq::<char>::empty());
        assert(config.binary.path@.subrange(0, 0) + config.output.directory@ + "/"@ + name@
            =~= config.output.directory@ + "/"@ + name@);
    }
    path
}

/// Wraps raw seed bytes as a sample: a single data leaf whose folded
/// bytes are exactly the seed.
pub fn seed_sample_from_bytes(content: Vec<u8>) -> (r: Sample)
    ensures
        r.folded() == content@,
{
    let ghost bytes = content@;
    let tree = TreeNode { start: 0, size: 0, item: TreeNodeItem::Data(content) };
    proof {
        assert(crate::sample::item_bytes(tree.item) == bytes);
    }
    let sample: GrammarSample = tree.fold_into_sample();
    sample
}

} // verus!
