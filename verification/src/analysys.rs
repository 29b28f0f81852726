//! Binary analysis: extracting function symbols from an ELF image.
//!
//! The ELF container is read by an outside parser behind a trusted
//! wrapper; the selection of function symbols is verified against the
//! symbol list that parser reports.

use vstd::prelude::*;

verus! {

/// A symbol as the ELF parser reports it, reduced to plain values.
pub struct RawSymbol {
    pub name: Option<String>,
    pub is_function: bool,
    pub value: u64,
    pub size: u64,
}

/// A function symbol the tracer will break on.
pub struct Function {
    pub name: String,
    pub offset: usize,
}

/// The analyzed target: its path, its function symbols, and the load
/// base resolved lazily from the first traced child.
pub struct ElfInfo {
    pub functions: Vec<Function>,
    pub path: String,
    pub base_offset: Option<usize>,
}

/// Why analysis failed.
#[derive(Clone, Debug)]
pub enum AnalysysError {
    /// Not an ELF image, or not parseable as one; carries a description.
    FileFormat(String),
}

/// Whether the bytes parse as an ELF image.
pub uninterp spec fn elf_parses(data: Seq<u8>) -> bool;

/// The symbol list of an ELF image.
pub uninterp spec fn elf_symbols(data: Seq<u8>) -> Seq<RawSymbol>;

/// Relies on `goblin::Object::parse` to read the image and, for ELF
/// images, on `Sym::is_function`, `st_value`, `st_size` and
/// `Strtab::get_at` for each symbol table entry; what comes back depends
/// on the bytes alone.
#[verifier::external_body]
fn parse_elf_symbols(data: &[u8]) -> (r: Result<Vec<RawSymbol>, AnalysysError>)
    ensures
        match r {
            Ok(v) => elf_parses(data@) && v@ == elf_symbols(data@),
            Err(_) => !elf_parses(data@),
        },
{
    match goblin::Object::parse(data) {
        Ok(goblin::Object::Elf(elf)) => Ok(elf.syms.iter().map(|sym| RawSymbol {
            name: elf.strtab.get_at(sym.st_name).map(|s| s.to_string()),
            is_function: sym.is_function(),
            value: sym.st_value,
            size: sym.st_size,
        }).collect()),
        Ok(goblin::Object::Unknown(m)) => Err(AnalysysError::FileFormat(format!("Unknown file magic {m}"))),
        Ok(_) => Err(AnalysysError::FileFormat(format!("Unsupported binary type. Only elf is supported at the moment"))),
        Err(e) => Err(AnalysysError::FileFormat(format!("{e}"))),
    }
}

/// Whether a symbol becomes a breakpoint target: a named function with a
/// nonzero address and size whose address fits the platform.
pub open spec fn selected(sym: RawSymbol) -> bool {
    &&& sym.is_function
    &&& sym.value != 0
    &&& sym.size != 0
    &&& sym.name is Some
    &&& sym.value <= usize::MAX
}

/// The function list distilled from a symbol list, in order.
pub open spec fn functions_of(syms: Seq<RawSymbol>) -> Seq<Function>
    decreases syms.len(),
{
    if syms.len() == 0 {
        Seq::empty()
    } else {
        let rest = functions_of(syms.drop_last());
        if selected(syms.last()) {
            rest.push(
                Function { name: syms.last().name->0, offset: syms.last().value as usize },
            )
        } else {
            rest
        }
    }
}

/// Analyzes an ELF image: keeps each named function symbol with nonzero
/// address and size.  The base offset starts unresolved.
#[verifier::loop_isolation(false)]
pub fn analyze_binary(data: &[u8], path: String) -> (r: Result<ElfInfo, AnalysysError>)
    ensures
        match r {
            Ok(info) => {
                &&& elf_parses(data@)
                &&& info.functions@ == functions_of(elf_symbols(data@))
                &&& info.path@ == path@
                &&& info.base_offset is None
            },
            Err(_) => !elf_parses(data@),
        },
{
    let symbols = match parse_elf_symbols(data) {
        Ok(v) => v,
        Err(e) => {
            return Err(e);
        },
    };
    let n = symbols.len();
    let mut functions: Vec<Function> = Vec::new();
    let mut rest = symbols;
    let mut taken: usize = 0;
    proof {
        assert(rest@.take(0) =~= Seq::<RawSymbol>::empty());
    }
    while taken < n
        invariant
            n == elf_symbols(data@).len(),
            rest@ == elf_symbols(data@),
            taken <= n,
            functions@ == functions_of(elf_symbols(data@).take(taken as int)),
        decreases n - taken,
    {
        let sym = &rest[taken];
        let keep = sym.is_function && sym.value != 0 && sym.size != 0 && sym.name.is_some()
            && sym.value <= usize::MAX as u64;
        proof {
            assert(elf_symbols(data@).take(taken + 1).drop_last() =~= elf_symbols(data@).take(
                taken as int,
            ));
            assert(elf_symbols(data@).take(taken + 1).last() == elf_symbols(data@)[taken as int]);
        }
        if keep {
            let name = match &sym.name {
                Some(name) => name.clone(),
                None => {
                    proof {
                        assert(false);
                    }
                    String::new()
                },
            };
            let offset = sym.value as usize;
            functions.push(Function { name, offset });
        }
        taken += 1;
    }
    proof {
        assert(elf_symbols(data@).take(n as int) =~= elf_symbols(data@));
    }
    Ok(ElfInfo { functions, path, base_offset: None })
}

/// The absolute breakpoint addresses for a resolved base: one per
/// function, `base + offset` each.  `None` when an address would not fit
/// the platform.
#[verifier::loop_isolation(false)]
pub fn breakpoint_addresses(info: &ElfInfo, base: usize) -> (r: Option<Vec<usize>>)
    ensures
        match r {
            Some(v) => {
                &&& v@.len() == info.functions@.len()
                &&& forall|i: int|
                    0 <= i < v@.len() ==> #[trigger] v@[i] == base + info.functions@[i].offset
            },
            None => exists|i: int|
                0 <= i < info.functions@.len() && base + (#[trigger] info.functions@[i]).offset
                    > usize::MAX,
        },
{
    let n = info.functions.len();
    let mut out: Vec<usize> = Vec::new();
    for i in 0..n
        invariant
            n == info.functions@.len(),
            out@.len() == i,
            forall|j: int| 0 <= j < i ==> #[trigger] out@[j] == base + info.functions@[j].offset,
    {
        let offset = info.functions[i].offset;
        if offset > usize::MAX - base {
            return None;
        }
        out.push(base + offset);
    }
    Some(out)
}

} // verus!
