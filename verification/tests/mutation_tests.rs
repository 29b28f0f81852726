use gramfuzz::configuration::{
    BinaryConfig, ExitCodeFilter, FuzzConfig, InputOptions, OutputOptions, PassStyle,
};
use gramfuzz::fuzz_thread::seed_sample_from_bytes;
use gramfuzz::fuzzing::Mutator;
use gramfuzz::grammar::{parse_grammar, Grammar};
use gramfuzz::mutation::binary_level::{
    BitFlip, CopyFragment, Erasure, Garbage, KnownBytes, MutateBytes,
};
use gramfuzz::mutation::build_mutator;
use gramfuzz::mutation::tree_level::{MutateTree, Resample, TreeRegrow};
use gramfuzz::mutation::tree_level::{replace_production, select_random_production, writeout_nodes};
use gramfuzz::sample::{PatchKind, ProductionApplication, Sample, TreeNode, TreeNodeItem};

fn magic_values() -> Vec<Vec<u8>> {
    vec![
        vec![0x00],
        vec![0xff],
        vec![0x00, 0x00],
        vec![0xff, 0xff],
        vec![0x00, 0x00, 0x00, 0x00],
        vec![0xff, 0xff, 0xff, 0xff],
        vec![0x00; 8],
        vec![0xff; 8],
        vec![0x7f],
        vec![0x01],
        vec![0xf0],
        vec![0x00, 0x00, 0x00, 0x80],
        vec![0x00, 0x00, 0x00, 0x40],
    ]
}

#[test]
fn bitflip_on_empty_input_writes_one_byte_at_zero() {
    let patch = BitFlip {}.mutate(&[], &[]);
    assert_eq!(patch.position, 0);
    match patch.kind {
        PatchKind::Replacement(c) => {
            assert_eq!(c.len(), 1);
            assert_eq!(c[0].count_ones(), 1);
        }
        other => panic!("expected replacement, got {:?}", other),
    }
}

#[test]
fn bitflip_flips_exactly_one_bit() {
    let reference = b"abcd";
    for _ in 0..32 {
        let patch = BitFlip {}.mutate(reference, &[]);
        assert!(patch.position < reference.len());
        match patch.kind {
            PatchKind::Replacement(c) => {
                assert_eq!(c.len(), 1);
                let diff = c[0] ^ reference[patch.position];
                assert_eq!(diff.count_ones(), 1);
            }
            other => panic!("expected replacement, got {:?}", other),
        }
    }
}

#[test]
fn erasure_on_empty_input_sits_at_zero_with_bounded_size() {
    let patch = Erasure { max_size: 100 }.mutate(&[], &[]);
    assert_eq!(patch.position, 0);
    match patch.kind {
        PatchKind::Erasure(n) => assert!((1..=100).contains(&n)),
        other => panic!("expected erasure, got {:?}", other),
    }
}

#[test]
fn erasure_positions_inside_input() {
    let reference = b"0123456789";
    for _ in 0..16 {
        let patch = Erasure { max_size: 4 }.mutate(reference, &[]);
        assert!(patch.position < reference.len());
        match patch.kind {
            PatchKind::Erasure(n) => assert!((1..=4).contains(&n)),
            other => panic!("expected erasure, got {:?}", other),
        }
    }
}

#[test]
fn known_bytes_uses_the_magic_list_or_its_reversal() {
    let reference = [0u8; 64];
    let magics = magic_values();
    for _ in 0..64 {
        let patch = KnownBytes::new().mutate(&reference, &[]);
        assert!(patch.position < reference.len());
        match patch.kind {
            PatchKind::Replacement(c) => {
                let hit = magics.iter().any(|m| {
                    let mut rev = m.clone();
                    rev.reverse();
                    c == *m || c == rev
                });
                assert!(hit, "{:?} is not a magic value", c);
            }
            other => panic!("expected replacement, got {:?}", other),
        }
    }
}

#[test]
fn known_bytes_on_empty_input_writes_zero_byte() {
    let patch = KnownBytes::new().mutate(&[], &[]);
    assert_eq!(patch.position, 0);
    match patch.kind {
        PatchKind::Replacement(c) => assert_eq!(c, vec![0x00]),
        other => panic!("expected replacement, got {:?}", other),
    }
}

#[test]
fn garbage_emits_bounded_random_replacement() {
    let reference = b"xyz";
    for _ in 0..16 {
        let patch = Garbage { max_size: 20 }.mutate(reference, &[]);
        assert!(patch.position < reference.len());
        match patch.kind {
            PatchKind::Replacement(c) => assert!((1..=20).contains(&c.len())),
            other => panic!("expected replacement, got {:?}", other),
        }
    }
}

#[test]
fn copy_fragment_with_no_usable_sample_is_a_noop_patch() {
    let patch = CopyFragment { max_size: 100 }.mutate(b"abc", &[]);
    assert_eq!(patch.position, 0);
    match patch.kind {
        PatchKind::Replacement(c) => assert!(c.is_empty()),
        other => panic!("expected empty replacement, got {:?}", other),
    }
    let empties: Vec<Sample> = vec![seed_sample_from_bytes(Vec::new())];
    let patch = CopyFragment { max_size: 100 }.mutate(b"abc", &empties);
    assert_eq!(patch.position, 0);
    assert!(matches!(patch.kind, PatchKind::Replacement(c) if c.is_empty()));
}

#[test]
fn copy_fragment_inserts_a_slice_of_a_corpus_sample() {
    let corpus: Vec<Sample> = vec![seed_sample_from_bytes(b"SOURCE".to_vec())];
    for _ in 0..16 {
        let patch = CopyFragment { max_size: 3 }.mutate(b"dest", &corpus);
        match patch.kind {
            PatchKind::Insertion(c) => {
                assert!((1..=3).contains(&c.len()));
                assert!(patch.position < 4);
                let hay = b"SOURCE";
                assert!(hay.windows(c.len()).any(|w| w == c.as_slice()));
            }
            other => panic!("expected insertion, got {:?}", other),
        }
    }
}

fn seeds_config() -> FuzzConfig {
    FuzzConfig {
        binary: BinaryConfig {
            path: "./target".to_string(),
            pass_style: PassStyle::Stdin,
            interesting_codes: ExitCodeFilter::Any,
        },
        input: InputOptions::Seeds { seeds: "seeds".to_string() },
        output: OutputOptions { directory: "output".to_string(), debug: false },
    }
}

fn grammar_config() -> FuzzConfig {
    FuzzConfig {
        binary: BinaryConfig {
            path: "./target".to_string(),
            pass_style: PassStyle::Stdin,
            interesting_codes: ExitCodeFilter::Any,
        },
        input: InputOptions::Grammar { grammar: "fuzz.peg".to_string() },
        output: OutputOptions { directory: "output".to_string(), debug: false },
    }
}

#[test]
fn chooser_in_seed_mode_applies_byte_level_patches() {
    let mut chooser = build_mutator(&seeds_config(), &Grammar::empty());
    let sample = seed_sample_from_bytes(b"seed bytes".to_vec());
    let corpus = vec![seed_sample_from_bytes(b"corpus".to_vec())];
    for _ in 0..16 {
        let (mutated, (used_tree, _idx)) = chooser.mutate_sample(sample.clone(), &corpus);
        assert!(!used_tree);
        let _ = mutated.get_folded();
    }
}

#[test]
fn chooser_in_grammar_mode_produces_conforming_or_patched_samples() {
    let grammar =
        parse_grammar("root -> \"GET \" path \"\\n\" ; path -> \"/a\" | \"/b\" ;").expect("parses");
    let mut chooser = build_mutator(&grammar_config(), &grammar);
    let generator = gramfuzz::grammar::generation::Generator::new(grammar, 30);
    let seed = generator.generate().expect("generates");
    let corpus = vec![seed.clone()];
    for _ in 0..32 {
        let (mutated, _info) = chooser.mutate_sample(seed.clone(), &corpus);
        let _ = mutated.get_folded();
    }
}

#[test]
fn resample_always_produces_a_fresh_grammar_sample() {
    let grammar = parse_grammar("root -> \"fixed\" ;").expect("parses");
    let resample = Resample::new(grammar, 10);
    let input = seed_sample_from_bytes(b"anything".to_vec());
    match resample.mutate(input, &[]) {
        Ok(fresh) => assert_eq!(fresh.get_folded(), b"fixed"),
        Err(_) => panic!("resampling a trivial grammar cannot fail"),
    }
}

#[test]
fn tree_regrow_keeps_the_sample_foldable() {
    let grammar =
        parse_grammar("root -> \"GET \" path \"\\n\" ; path -> \"/a\" | \"/b\" | path \"/a\" ;")
            .expect("parses");
    let generator = gramfuzz::grammar::generation::Generator::new(grammar.clone(), 20);
    let regrow = TreeRegrow {
        grammar,
        depth_limit: 100,
        descend_rolls: 10,
        regenerate_rolls: 10,
        mut_proba: 3,
    };
    let seed = generator.generate().expect("generates");
    for _ in 0..8 {
        match regrow.mutate(seed.clone(), &[]) {
            Ok(mutated) => {
                assert!(mutated.get_folded().starts_with(b"GET "));
            }
            Err(back) => {
                assert_eq!(back.get_folded(), seed.get_folded());
            }
        }
    }
}

#[test]
fn tree_regrow_on_seed_sample_hands_input_back() {
    let grammar = parse_grammar("root -> \"x\" ;").expect("parses");
    let regrow = TreeRegrow {
        grammar,
        depth_limit: 100,
        descend_rolls: 10,
        regenerate_rolls: 10,
        mut_proba: 3,
    };
    // A raw seed has a Data root and no production to regrow... unless the
    // rule name is empty; a plain byte seed has no production node at all.
    let seed = seed_sample_from_bytes(b"opaque".to_vec());
    match regrow.mutate(seed, &[]) {
        Ok(_) => panic!("nothing to regrow in a leaf-only tree"),
        Err(back) => assert_eq!(back.get_folded(), b"opaque"),
    }
}

#[test]
fn select_random_production_finds_only_production_nodes() {
    let grammar = parse_grammar("root -> inner inner ; inner -> \"x\" ;").expect("parses");
    let generator = gramfuzz::grammar::generation::Generator::new(grammar, 10);
    let sample = generator.generate().expect("generates");
    let (tree, _) = sample.strip();
    let (node, idx, depth) = select_random_production(&tree).expect("tree has productions");
    assert!(matches!(node.item, TreeNodeItem::ProductionApplication(_)));
    assert!(idx < 3);
    assert!(depth <= 1);
    let leaf = seed_sample_from_bytes(b"plain".to_vec());
    let (leaf_tree, _) = leaf.strip();
    assert!(select_random_production(&leaf_tree).is_none());
}

#[test]
fn replace_production_swaps_the_selected_subtree() {
    let grammar = parse_grammar("root -> \"a\" ;").expect("parses");
    let generator = gramfuzz::grammar::generation::Generator::new(grammar, 10);
    let sample = generator.generate().expect("generates");
    let (tree, _) = sample.strip();
    let replacement = TreeNode {
        start: 0,
        size: 0,
        item: TreeNodeItem::ProductionApplication(ProductionApplication {
            rule_name: b"root".to_vec(),
            production_variant: 0,
            items: vec![TreeNode {
                start: 0,
                size: 0,
                item: TreeNodeItem::Data(b"b".to_vec()),
            }],
        }),
    };
    let (new_tree, state) = replace_production(&tree, 0, &replacement);
    assert!(state.is_none());
    let refolded = new_tree.fold_into_sample();
    assert_eq!(refolded.get_folded(), b"b");
}

#[test]
fn writeout_nodes_collects_leaves_when_asked() {
    let grammar = parse_grammar("root -> \"x\" \"y\" ;").expect("parses");
    let generator = gramfuzz::grammar::generation::Generator::new(grammar, 10);
    let sample = generator.generate().expect("generates");
    let (tree, _) = sample.strip();
    let mut leaves = Vec::new();
    writeout_nodes(&tree, &mut leaves, 0, false);
    assert_eq!(leaves.len(), 2);
    assert!(leaves.iter().all(|(n, d)| matches!(n.item, TreeNodeItem::Data(_)) && *d == 1));
    let mut prods = Vec::new();
    writeout_nodes(&tree, &mut prods, 0, true);
    assert_eq!(prods.len(), 1);
}
