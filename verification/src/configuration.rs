//! The fuzzer's configuration, as plain values.  The embedding program
//! reads the settings file and hands over this structure.

use vstd::prelude::*;

verus! {

/// The whole configuration: target binary, input source, output options.
#[derive(Clone, Debug)]
pub struct FuzzConfig {
    pub binary: BinaryConfig,
    pub input: InputOptions,
    pub output: OutputOptions,
}

/// The target: its path, how input reaches it, and which exit codes are
/// of interest.
#[derive(Clone, Debug)]
pub struct BinaryConfig {
    pub path: String,
    pub pass_style: PassStyle,
    pub interesting_codes: ExitCodeFilter,
}

/// Where inputs come from: a grammar file or a directory of seeds.
#[derive(Clone, Debug)]
pub enum InputOptions {
    Grammar { grammar: String },
    Seeds { seeds: String },
}

/// Options for fuzzing over standard input.
#[derive(Clone, Copy, Debug, Default)]
pub struct StdinFuzzingOptions {}

/// How the child observes its input: on standard input or as a file
/// path in `argv[1]`.
#[derive(Clone, Copy, Debug, Default, PartialEq, Eq, Structural)]
pub enum PassStyle {
    #[default]
    Stdin,
    File,
}

/// An optional seed path.
#[derive(Clone, Debug, Default)]
pub struct SeedOptions {
    pub path: Option<String>,
}

/// Which exit codes count as interesting: all of them, or a fixed set.
#[derive(Clone, Debug)]
pub enum ExitCodeFilter {
    Any,
    Codes(Vec<i32>),
}

impl ExitCodeFilter {
    /// Whether the filter accepts this exit code.
    #[verifier::loop_isolation(false)]
    pub fn match_code(&self, code: i32) -> (r: bool)
        ensures
            r == match *self {
                ExitCodeFilter::Any => true,
                ExitCodeFilter::Codes(s) => s@.contains(code),
            },
    {
        match self {
            ExitCodeFilter::Any => true,
            ExitCodeFilter::Codes(s) => {
                let n = s.len();
                for i in 0..n
                    invariant
                        n == s@.len(),
                        forall|j: int| 0 <= j < i ==> s@[j] != code,
                {
                    if s[i] == code {
                        proof {
                            assert((i as int) < s@.len() && s@[i as int] == code);
                            assert(s@.contains(code));
                        }
                        return true;
                    }
                }
                proof {
                    assert(!s@.contains(code));
                }
                false
            },
        }
    }

    /// Whether the filter accepts every exit code.
    pub fn accepts_any(&self) -> (r: bool)
        ensures
            r == (*self is Any),
    {
        matches!(self, ExitCodeFilter::Any)
    }
}

impl Default for ExitCodeFilter {
    fn default() -> (r: Self)
        ensures
            r is Any,
    {
        ExitCodeFilter::Any
    }
}

/// Where crash artifacts live and whether to narrate runs; the default
/// directory is `output` and narration is off.
#[derive(Clone, Debug)]
pub struct OutputOptions {
    pub directory: String,
    pub debug: bool,
}

impl Default for OutputOptions {
    fn default() -> (r: Self)
        ensures
            r.directory@ == "output"@,
            !r.debug,
    {
        OutputOptions { directory: String::from_str("output"), debug: false }
    }
}

} // verus!
