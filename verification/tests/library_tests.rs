use gramfuzz::execution::{ExecResult, Hits, TraceBuilder, Trajectory};
use gramfuzz::fuzz_thread::{get_crash_path, get_unique_name, seed_sample_from_bytes};
use gramfuzz::fuzzing::{put_in_library, RunResultStatus, TestedSample};
use gramfuzz::configuration::{
    BinaryConfig, ExitCodeFilter, FuzzConfig, InputOptions, OutputOptions, PassStyle,
};
use gramfuzz::flags::{parse_u32_decimal, u32_to_decimal};
use gramfuzz::log::MessageBuffer;
use gramfuzz::sample_library::VectorLibrary;
use gramfuzz::analysys::analyze_binary;

fn trace_with_hits(code: Option<i32>, offsets: &[usize]) -> gramfuzz::execution::RunTrace {
    let mut builder = TraceBuilder::new();
    for &off in offsets {
        builder.on_stop(off, 0);
    }
    match code {
        Some(c) => builder.on_exit(c),
        None => builder.on_signal(),
    }
    builder.finish().expect("trace must close")
}

#[test]
fn hits_increment_saturates() {
    assert_eq!(Hits::Once.inc(), Hits::Twice);
    assert_eq!(Hits::Twice.inc(), Hits::Many);
    assert_eq!(Hits::Many.inc(), Hits::Many);
}

#[test]
fn trajectory_records_first_hit_as_once() {
    let mut t = Trajectory::new();
    assert_eq!(t.record_hit(64), Hits::Once);
    assert_eq!(t.lookup(64), Some(Hits::Once));
    assert_eq!(t.lookup(65), None);
    assert_eq!(t.len(), 1);
}

#[test]
fn trajectory_keys_stay_sorted() {
    let mut t = Trajectory::new();
    t.record_hit(30);
    t.record_hit(10);
    t.record_hit(20);
    assert_eq!(t.len(), 3);
    assert_eq!(t.entry_at(0).0, 10);
    assert_eq!(t.entry_at(1).0, 20);
    assert_eq!(t.entry_at(2).0, 30);
}

#[test]
fn breakpoint_is_removed_exactly_at_saturation() {
    let mut builder = TraceBuilder::new();
    let base = 0x1000;
    let rip = 0x1040;
    assert!(!builder.on_stop(rip, base));
    assert!(!builder.on_stop(rip, base));
    assert!(builder.on_stop(rip, base));
    builder.on_exit(0);
    let trace = builder.finish().expect("closes");
    assert_eq!(trace.trajectory.lookup(0x40), Some(Hits::Many));
    assert_eq!(trace.result, ExecResult::Code(0));
}

#[test]
fn unfinished_child_is_an_error() {
    let builder = TraceBuilder::new();
    assert!(builder.finish().is_err());
}

#[test]
fn trace_score_is_ten_per_function_plus_one() {
    let trace = trace_with_hits(Some(0), &[1, 2, 3]);
    assert_eq!(trace.get_score(), 31);
    let empty = trace_with_hits(Some(0), &[]);
    assert_eq!(empty.get_score(), 1);
}

#[test]
fn equal_traces_compare_equal_and_different_buckets_do_not() {
    let a = trace_with_hits(Some(0), &[5, 5]);
    let b = trace_with_hits(Some(0), &[5, 5]);
    let c = trace_with_hits(Some(0), &[5]);
    assert!(a == b);
    assert!(a != c);
    let signal = trace_with_hits(None, &[5, 5]);
    assert!(a != signal);
}

#[test]
fn classification_new_then_improvement_then_nothing() {
    let mut library = VectorLibrary::new();
    let trace = trace_with_hits(None, &[7]);

    let seed = seed_sample_from_bytes(vec![b'A'; 1024]);
    let r1 = put_in_library(&mut library, TestedSample { sample: seed, result: trace });
    assert!(matches!(r1.status, RunResultStatus::New));
    assert_eq!(library.len(), 1);

    let smaller = seed_sample_from_bytes(vec![b'A'; 5]);
    let trace2 = trace_with_hits(None, &[7]);
    let r2 = put_in_library(&mut library, TestedSample { sample: smaller, result: trace2 });
    assert!(matches!(r2.status, RunResultStatus::SizeImprovement(1019)));
    assert_eq!(library.len(), 1);

    let bigger = seed_sample_from_bytes(vec![b'A'; 64]);
    let trace3 = trace_with_hits(None, &[7]);
    let r3 = put_in_library(&mut library, TestedSample { sample: bigger, result: trace3 });
    assert!(matches!(r3.status, RunResultStatus::Nothing));
    let entry = library.find_existing(&r3.trace).expect("entry stays");
    assert_eq!(entry.item.get_size_score(), 5);
}

#[test]
fn distinct_fingerprints_get_distinct_entries() {
    let mut library = VectorLibrary::new();
    let a = trace_with_hits(Some(0), &[1]);
    let b = trace_with_hits(Some(1), &[1]);
    put_in_library(&mut library, TestedSample {
        sample: seed_sample_from_bytes(b"one".to_vec()),
        result: a,
    });
    put_in_library(&mut library, TestedSample {
        sample: seed_sample_from_bytes(b"two".to_vec()),
        result: b,
    });
    assert_eq!(library.len(), 2);
}

#[test]
fn add_name_sticks_and_survives_replacement() {
    let mut library = VectorLibrary::new();
    let trace = trace_with_hits(None, &[3]);
    let r = put_in_library(&mut library, TestedSample {
        sample: seed_sample_from_bytes(b"abcdef".to_vec()),
        result: trace,
    });
    library.add_name(&r.trace, "cafe00112233".to_string());
    let smaller = trace_with_hits(None, &[3]);
    put_in_library(&mut library, TestedSample {
        sample: seed_sample_from_bytes(b"ab".to_vec()),
        result: smaller,
    });
    let entry = library.find_existing(&r.trace).expect("present");
    assert_eq!(entry.unique_name.as_deref(), Some("cafe00112233"));
    assert_eq!(entry.item.get_size_score(), 2);
}

#[test]
fn pick_random_returns_a_stored_sample() {
    let mut library = VectorLibrary::new();
    let trace = trace_with_hits(Some(0), &[9]);
    put_in_library(&mut library, TestedSample {
        sample: seed_sample_from_bytes(b"only".to_vec()),
        result: trace,
    });
    let picked = library.pick_random();
    assert_eq!(picked.get_folded(), b"only");
}

#[test]
fn linearize_lists_exemplars_in_insertion_order() {
    let mut library = VectorLibrary::new();
    put_in_library(&mut library, TestedSample {
        sample: seed_sample_from_bytes(b"first".to_vec()),
        result: trace_with_hits(Some(0), &[1]),
    });
    put_in_library(&mut library, TestedSample {
        sample: seed_sample_from_bytes(b"second".to_vec()),
        result: trace_with_hits(Some(0), &[2]),
    });
    let lin = library.linearize();
    assert_eq!(lin.len(), 2);
    assert_eq!(lin[0].get_folded(), b"first");
    assert_eq!(lin[1].get_folded(), b"second");
}

#[test]
fn unique_names_are_twelve_lowercase_hex_chars() {
    for _ in 0..8 {
        let name = get_unique_name();
        assert_eq!(name.len(), 12);
        assert!(name.chars().all(|c| c.is_ascii_hexdigit() && !c.is_ascii_uppercase()));
    }
}

#[test]
fn crash_path_joins_directory_and_name() {
    let config = FuzzConfig {
        binary: BinaryConfig {
            path: "./target".to_string(),
            pass_style: PassStyle::Stdin,
            interesting_codes: ExitCodeFilter::Any,
        },
        input: InputOptions::Seeds { seeds: "seeds".to_string() },
        output: OutputOptions { directory: "output".to_string(), debug: false },
    };
    assert_eq!(get_crash_path(&config, "deadbeef0123"), "output/deadbeef0123");
}

#[test]
fn exit_code_filter_matches() {
    assert!(ExitCodeFilter::Any.match_code(42));
    assert!(ExitCodeFilter::Any.accepts_any());
    let set = ExitCodeFilter::Codes(vec![1, 3]);
    assert!(set.match_code(1));
    assert!(set.match_code(3));
    assert!(!set.match_code(2));
    assert!(!set.accepts_any());
}

#[test]
fn message_buffer_drops_oldest_at_capacity() {
    let mut buffer = MessageBuffer::new(3);
    for i in 0..5 {
        buffer.push(format!("line {i}"));
    }
    let all = buffer.pull_messages(10);
    assert_eq!(all, vec!["line 2", "line 3", "line 4"]);
    let last_two = buffer.pull_messages(2);
    assert_eq!(last_two, vec!["line 3", "line 4"]);
}

#[test]
fn decimal_conversions_round_trip() {
    assert_eq!(u32_to_decimal(0), b"0".to_vec());
    assert_eq!(u32_to_decimal(105), b"105".to_vec());
    assert_eq!(u32_to_decimal(u32::MAX), b"4294967295".to_vec());
    assert_eq!(parse_u32_decimal(b"105"), Some(105));
    assert_eq!(parse_u32_decimal(b"4294967296"), None);
    assert_eq!(parse_u32_decimal(b""), None);
    assert_eq!(parse_u32_decimal(b"1a"), None);
    assert_eq!(parse_u32_decimal(&u32_to_decimal(918273)), Some(918273));
}

#[test]
fn analyzer_rejects_non_elf_bytes() {
    assert!(analyze_binary(b"definitely not an elf", "x".to_string()).is_err());
    assert!(analyze_binary(b"", "x".to_string()).is_err());
}

#[test]
fn analyzer_accepts_a_minimal_elf_header() {
    // A bare 64-byte ELF64 header: x86-64 executable with no program or
    // section headers, and therefore no symbols.
    let mut elf = vec![0u8; 64];
    elf[0..4].copy_from_slice(&[0x7f, b'E', b'L', b'F']);
    elf[4] = 2; // 64-bit
    elf[5] = 1; // little endian
    elf[6] = 1; // version
    elf[16] = 2; // ET_EXEC
    elf[18] = 0x3e; // EM_X86_64
    elf[20] = 1; // EV_CURRENT
    elf[52] = 64; // e_ehsize
    let info = analyze_binary(&elf, "mini".to_string()).expect("header parses");
    assert!(info.functions.is_empty());
    assert_eq!(info.path, "mini");
    assert!(info.base_offset.is_none());
}
