//! Bookkeeping of a native artifact: which bytes are native objects, the file
//! extension of shared objects, the symbols an artifact resolves, and the
//! extents of its function bodies.
use vstd::prelude::*;
use crate::errors::{CompileError, DeserializeError};
use crate::symbols::{
    FunctionIndex, LocalFunctionIndex, ModuleMetadataSymbolRegistry, SignatureIndex, Symbol,
    symbol_name,
};

verus! {

// ---------------------------------------------------------------------------
// Recognising native objects
// ---------------------------------------------------------------------------

/// The platform that native objects are loaded on.
#[derive(Clone, Copy, Debug, PartialEq, Eq, Structural)]
pub enum HostPlatform {
    /// 64-bit macOS: Mach-O objects.
    MacOs64,
    /// 64-bit Linux: 64-bit ELF objects.
    Linux64,
    /// 32-bit Linux: 32-bit ELF objects.
    Linux32,
    /// 64-bit Windows: COFF objects.
    Windows64,
    /// Any other platform: no object is loadable.
    Other,
}

/// The bytes with which a loadable object starts on `host`.
pub open spec fn magic_header(host: HostPlatform) -> Option<Seq<u8>> {
    match host {
        HostPlatform::MacOs64 => Some(seq![207u8, 250u8, 237u8, 254u8]),
        HostPlatform::Linux64 => Some(seq![0x7fu8, 0x45u8, 0x4cu8, 0x46u8, 2u8]),
        HostPlatform::Linux32 => Some(seq![0x7fu8, 0x45u8, 0x4cu8, 0x46u8, 1u8]),
        HostPlatform::Windows64 => Some(seq![0x4du8, 0x5au8]),
        HostPlatform::Other => None,
    }
}

/// `bytes` starts with `header`.
pub open spec fn starts_with(bytes: Seq<u8>, header: Seq<u8>) -> bool {
    header.len() <= bytes.len() && bytes.subrange(0, header.len() as int) == header
}

/// The objects each host loads, byte by byte: 64-bit Linux the ELF objects
/// of class 2 (7f 45 4c 46 02), 32-bit Linux those of class 1
/// (7f 45 4c 46 01), macOS the 64-bit Mach-O objects (cf fa ed fe), Windows
/// the PE objects (4d 5a), and any other host none.
pub proof fn lemma_loadable_headers(bytes: Seq<u8>, host: HostPlatform)
    ensures
        host == HostPlatform::Linux64 ==> ((magic_header(host) matches Some(header) && starts_with(bytes, header))
            <==> (bytes.len() >= 5 && bytes[0] == 0x7f && bytes[1] == 0x45 && bytes[2] == 0x4c
            && bytes[3] == 0x46 && bytes[4] == 2)),
        host == HostPlatform::Linux32 ==> ((magic_header(host) matches Some(header) && starts_with(bytes, header))
            <==> (bytes.len() >= 5 && bytes[0] == 0x7f && bytes[1] == 0x45 && bytes[2] == 0x4c
            && bytes[3] == 0x46 && bytes[4] == 1)),
        host == HostPlatform::MacOs64 ==> ((magic_header(host) matches Some(header) && starts_with(bytes, header))
            <==> (bytes.len() >= 4 && bytes[0] == 0xcf && bytes[1] == 0xfa && bytes[2] == 0xed
            && bytes[3] == 0xfe)),
        host == HostPlatform::Windows64 ==> ((magic_header(host) matches Some(header) && starts_with(bytes, header))
            <==> (bytes.len() >= 2 && bytes[0] == 0x4d && bytes[1] == 0x5a)),
        host == HostPlatform::Other ==> !(magic_header(host) matches Some(header) && starts_with(bytes, header)),
{
    if let Some(header) = magic_header(host) {
        if header.len() <= bytes.len() {
            let front = bytes.subrange(0, header.len() as int);
            if front == header {
                assert(forall|k: int| 0 <= k < header.len() ==> bytes[k] == front[k]);
            } else {
                if forall|k: int| 0 <= k < header.len() ==> bytes[k] == header[k] {
                    assert(front =~= header);
                }
            }
        }
    }
}

/// Whether `bytes` look like a shared object that `host` can load: they
/// start with the magic header of the host's object format.
pub fn is_deserializable(bytes: &[u8], host: HostPlatform) -> (loadable: bool)
    ensures
        loadable == (magic_header(host) matches Some(header) && starts_with(bytes@, header)),
        host == HostPlatform::Linux64 ==> (loadable <==> (bytes@.len() >= 5 && bytes@[0] == 0x7f
            && bytes@[1] == 0x45 && bytes@[2] == 0x4c && bytes@[3] == 0x46 && bytes@[4] == 2)),
        host == HostPlatform::Linux32 ==> (loadable <==> (bytes@.len() >= 5 && bytes@[0] == 0x7f
            && bytes@[1] == 0x45 && bytes@[2] == 0x4c && bytes@[3] == 0x46 && bytes@[4] == 1)),
        host == HostPlatform::MacOs64 ==> (loadable <==> (bytes@.len() >= 4 && bytes@[0] == 0xcf
            && bytes@[1] == 0xfa && bytes@[2] == 0xed && bytes@[3] == 0xfe)),
        host == HostPlatform::Windows64 ==> (loadable <==> (bytes@.len() >= 2 && bytes@[0] == 0x4d
            && bytes@[1] == 0x5a)),
        host == HostPlatform::Other ==> !loadable,
{
    proof {
        lemma_loadable_headers(bytes@, host);
    }
    let header: Vec<u8> = match host {
        HostPlatform::MacOs64 => vec![207u8, 250u8, 237u8, 254u8],
        HostPlatform::Linux64 => vec![0x7fu8, 0x45u8, 0x4cu8, 0x46u8, 2u8],
        HostPlatform::Linux32 => vec![0x7fu8, 0x45u8, 0x4cu8, 0x46u8, 1u8],
        HostPlatform::Windows64 => vec![0x4du8, 0x5au8],
        HostPlatform::Other => {
            return false;
        },
    };
    assert(magic_header(host) == Some(header@));
    if bytes.len() < header.len() {
        return false;
    }
    let mut i: usize = 0;
    while i < header.len()
        invariant
            i <= header@.len() <= bytes@.len(),
            magic_header(host) == Some(header@),
            forall|k: int| 0 <= k < i ==> bytes@[k] == header@[k],
        decreases header@.len() - i,
    {
        if bytes[i] != header[i] {
            assert(bytes@.subrange(0, header@.len() as int)[i as int] != header@[i as int]);
            return false;
        }
        i = i + 1;
    }
    assert(bytes@.subrange(0, header@.len() as int) =~= header@);
    true
}

/// Refuses bytes that `host` cannot load, as deserializing an artifact does
/// before anything else.
pub fn check_deserializable(bytes: &[u8], host: HostPlatform) -> (checked: Result<(), DeserializeError>)
    ensures
        host == HostPlatform::Linux64 ==> (checked is Ok <==> (bytes@.len() >= 5 && bytes@[0] == 0x7f
            && bytes@[1] == 0x45 && bytes@[2] == 0x4c && bytes@[3] == 0x46 && bytes@[4] == 2)),
        host == HostPlatform::Linux32 ==> (checked is Ok <==> (bytes@.len() >= 5 && bytes@[0] == 0x7f
            && bytes@[1] == 0x45 && bytes@[2] == 0x4c && bytes@[3] == 0x46 && bytes@[4] == 1)),
        (magic_header(host) matches Some(header) && starts_with(bytes@, header)) ==> checked is Ok,
        !(magic_header(host) matches Some(header) && starts_with(bytes@, header)) ==> (checked
            matches Err(DeserializeError::Incompatible(message)) && message@
            == "The provided bytes are not in any native format Wasmer can understand"@),
{
    if is_deserializable(bytes, host) {
        Ok(())
    } else {
        Err(
            DeserializeError::Incompatible(
                String::from_str("The provided bytes are not in any native format Wasmer can understand"),
            ),
        )
    }
}

// ---------------------------------------------------------------------------
// Linking shared objects
// ---------------------------------------------------------------------------

/// The operating system of a compilation target, as far as linking cares.
#[derive(Clone, Copy, Debug, PartialEq, Eq, Structural)]
pub enum OperatingSystem {
    /// Windows.
    Windows,
    /// Darwin.
    Darwin,
    /// iOS.
    Ios,
    /// macOS.
    MacOSX,
    /// Linux.
    Linux,
    /// Any other system.
    Other,
}

/// The file extension of shared objects on `os`.
pub open spec fn default_extension(os: OperatingSystem) -> Seq<char> {
    match os {
        OperatingSystem::Windows => "dll"@,
        OperatingSystem::Darwin | OperatingSystem::Ios | OperatingSystem::MacOSX => "dylib"@,
        _ => "so"@,
    }
}

/// The extension under which an artifact for `os` is written.
pub fn get_default_extension(os: OperatingSystem) -> (extension: &'static str)
    ensures
        extension@ == default_extension(os),
{
    match os {
        OperatingSystem::Windows => "dll",
        OperatingSystem::Darwin | OperatingSystem::Ios | OperatingSystem::MacOSX => "dylib",
        _ => "so",
    }
}

/// The target triple as the linker is told it: Apple's toolchain knows
/// `aarch64-apple-darwin` as `arm64-apple-darwin`.
pub open spec fn linker_triple(triple: Seq<char>) -> Seq<char> {
    if triple == "aarch64-apple-darwin"@ {
        "arm64-apple-darwin"@
    } else {
        triple
    }
}

/// Only `aarch64-apple-darwin` is renamed for the linker, to
/// `arm64-apple-darwin`; every other triple is told to it as it is.
pub proof fn lemma_linker_triple_renames_only_apple_silicon(triple: Seq<char>)
    ensures
        triple != "aarch64-apple-darwin"@ ==> linker_triple(triple) == triple,
        linker_triple("aarch64-apple-darwin"@) == "arm64-apple-darwin"@,
{
}

/// Adapts a target triple for the linker.
pub fn linker_target_triple(triple: &str) -> (adapted: String)
    ensures
        adapted@ == linker_triple(triple@),
        triple@ != "aarch64-apple-darwin"@ ==> adapted@ == triple@,
        triple@ == "aarch64-apple-darwin"@ ==> adapted@ == "arm64-apple-darwin"@,
{
    proof {
        lemma_linker_triple_renames_only_apple_silicon(triple@);
    }
    let triple = String::from_str(triple);
    let apple = String::from_str("aarch64-apple-darwin");
    if triple == apple {
        String::from_str("arm64-apple-darwin")
    } else {
        triple
    }
}

/// `--target=` followed by the triple.
pub open spec fn target_flag(triple: Seq<char>) -> Seq<char> {
    "--target="@ + triple
}

/// The arguments that select the target: when cross-compiling, the target
/// and a bare link with `lld`; otherwise the target only for Apple silicon.
pub fn cross_compiling_args(triple: &str, is_cross_compiling: bool) -> (args: Vec<String>)
    ensures
        is_cross_compiling ==> args@.len() == 4 && args@[0]@ == target_flag(triple@)
            && args@[1]@ == "-fuse-ld=lld"@ && args@[2]@ == "-nodefaultlibs"@ && args@[3]@
            == "-nostdlib"@,
        !is_cross_compiling && triple@ == "arm64-apple-darwin"@ ==> args@.len() == 1
            && args@[0]@ == target_flag(triple@),
        !is_cross_compiling && triple@ != "arm64-apple-darwin"@ ==> args@.len() == 0,
{
    let mut flag = String::from_str("--target=");
    flag.append(triple);
    let mut args: Vec<String> = Vec::new();
    if is_cross_compiling {
        args.push(flag);
        args.push(String::from_str("-fuse-ld=lld"));
        args.push(String::from_str("-nodefaultlibs"));
        args.push(String::from_str("-nostdlib"));
    } else if String::from_str(triple) == String::from_str("arm64-apple-darwin") {
        args.push(flag);
    }
    args
}

/// The linker flags that depend on the target system: Windows links without
/// an entry point when cross-compiling and with lazy lookup otherwise; other
/// systems link without start files and with lazy lookup.
pub fn target_args(os: OperatingSystem, is_cross_compiling: bool) -> (args: Vec<&'static str>)
    ensures
        os == OperatingSystem::Windows && is_cross_compiling ==> args@.len() == 1 && args@[0]@
            == "-Wl,/force:unresolved,/noentry"@,
        os == OperatingSystem::Windows && !is_cross_compiling ==> args@.len() == 1 && args@[0]@
            == "-Wl,-undefined,dynamic_lookup"@,
        os != OperatingSystem::Windows ==> args@.len() == 2 && args@[0]@ == "-nostartfiles"@
            && args@[1]@ == "-Wl,-undefined,dynamic_lookup"@,
{
    let mut args: Vec<&'static str> = Vec::new();
    match os {
        OperatingSystem::Windows => {
            if is_cross_compiling {
                args.push("-Wl,/force:unresolved,/noentry");
            } else {
                args.push("-Wl,-undefined,dynamic_lookup");
            }
        },
        _ => {
            args.push("-nostartfiles");
            args.push("-Wl,-undefined,dynamic_lookup");
        },
    }
    args
}

/// The message with which a failed link is reported, from the linker's
/// standard error and standard output (each with trailing whitespace removed).
pub open spec fn linker_failure_message(stderr: Seq<char>, stdout: Seq<char>) -> Seq<char> {
    "Shared object file generator failed with:\nstderr:"@ + stderr + "\nstdout:"@ + stdout
}

/// The error that a failed link of the shared object is reported as.
pub fn linker_failure(stderr: &str, stdout: &str) -> (error: CompileError)
    ensures
        error matches CompileError::Codegen(message) && message@ == linker_failure_message(
            stderr@,
            stdout@,
        ),
{
    let mut message = String::from_str("Shared object file generator failed with:\nstderr:");
    message.append(stderr);
    message.append("\nstdout:");
    message.append(stdout);
    CompileError::Codegen(message)
}

/// The text that `String::from_utf8_lossy` makes of `bytes`: each invalid
/// sequence replaced by U+FFFD.
pub uninterp spec fn utf8_lossy_text(bytes: Seq<u8>) -> Seq<char>;

/// Whether `c` has the Unicode `White_Space` property, which is what
/// `char::is_whitespace` tests.
pub open spec fn is_unicode_whitespace(c: char) -> bool {
    let n = c as u32;
    ||| 0x9 <= n <= 0xd
    ||| n == 0x20
    ||| n == 0x85
    ||| n == 0xa0
    ||| n == 0x1680
    ||| 0x2000 <= n <= 0x200a
    ||| n == 0x2028
    ||| n == 0x2029
    ||| n == 0x202f
    ||| n == 0x205f
    ||| n == 0x3000
}

/// `text` with its trailing whitespace removed.
pub open spec fn trim_end_text(text: Seq<char>) -> Seq<char>
    decreases text.len(),
{
    if text.len() > 0 && is_unicode_whitespace(text.last()) {
        trim_end_text(text.drop_last())
    } else {
        text
    }
}

/// `String::from_utf8_lossy` on `bytes`, as an owned `String`.
#[verifier::external_body]
fn utf8_lossy(bytes: &[u8]) -> (text: String)
    ensures
        text@ == utf8_lossy_text(bytes@),
{
    String::from_utf8_lossy(bytes).into_owned()
}

/// `str::trim_end` on `text`: the text with its trailing whitespace (in the
/// sense of `char::is_whitespace`) removed.
#[verifier::external_body]
fn trim_end(text: &str) -> (trimmed: &str)
    ensures
        trimmed@ == trim_end_text(text@),
{
    text.trim_end()
}

/// The error that a failed link is reported as, from the linker's raw
/// standard error and standard output: each read as UTF-8 (invalid sequences
/// replaced) and stripped of trailing whitespace.
pub fn linker_output_failure(stderr: &[u8], stdout: &[u8]) -> (error: CompileError)
    ensures
        error matches CompileError::Codegen(message) && message@ == linker_failure_message(
            trim_end_text(utf8_lossy_text(stderr@)),
            trim_end_text(utf8_lossy_text(stdout@)),
        ),
{
    let stderr_text = utf8_lossy(stderr);
    let stdout_text = utf8_lossy(stdout);
    linker_failure(trim_end(stderr_text.as_str()), trim_end(stdout_text.as_str()))
}

// ---------------------------------------------------------------------------
// Symbols that a loaded artifact resolves
// ---------------------------------------------------------------------------

/// The names that a native artifact looks up in its shared object.
pub struct ArtifactSymbols {
    /// The bodies of the local functions, in index order.
    pub functions: Vec<String>,
    /// The call trampolines of the signatures, in index order.
    pub call_trampolines: Vec<String>,
    /// The dynamic trampolines of the imported functions, in index order.
    pub dynamic_trampolines: Vec<String>,
}

/// The names of all symbols that an artifact resolves when it is built from
/// its parts: a body for each local function that has frame information, a
/// call trampoline for each signature, and a dynamic trampoline for each
/// imported function (at most as many as there are functions).
pub fn artifact_symbols(
    registry: &ModuleMetadataSymbolRegistry,
    num_local_functions: u32,
    num_signatures: u32,
    num_functions: u32,
    num_imported_functions: u32,
) -> (symbols: ArtifactSymbols)
    ensures
        symbols.functions@.len() == num_local_functions,
        forall|k: int|
            0 <= k < num_local_functions ==> (#[trigger] symbols.functions@[k])@ == symbol_name(
                registry.prefix@,
                Symbol::LocalFunction(LocalFunctionIndex(k as u32)),
            ),
        symbols.call_trampolines@.len() == num_signatures,
        forall|k: int|
            0 <= k < num_signatures ==> (#[trigger] symbols.call_trampolines@[k])@ == symbol_name(
                registry.prefix@,
                Symbol::FunctionCallTrampoline(SignatureIndex(k as u32)),
            ),
        symbols.dynamic_trampolines@.len() == if num_imported_functions < num_functions {
            num_imported_functions
        } else {
            num_functions
        },
        forall|k: int|
            0 <= k < symbols.dynamic_trampolines@.len() ==> (
            #[trigger] symbols.dynamic_trampolines@[k])@ == symbol_name(
                registry.prefix@,
                Symbol::DynamicFunctionTrampoline(FunctionIndex(k as u32)),
            ),
{
    let mut functions: Vec<String> = Vec::new();
    let mut k: u32 = 0;
    while k < num_local_functions
        invariant
            k <= num_local_functions,
            functions@.len() == k,
            forall|j: int|
                0 <= j < k ==> (#[trigger] functions@[j])@ == symbol_name(
                    registry.prefix@,
                    Symbol::LocalFunction(LocalFunctionIndex(j as u32)),
                ),
        decreases num_local_functions - k,
    {
        functions.push(registry.symbol_to_name(Symbol::LocalFunction(LocalFunctionIndex(k))));
        k = k + 1;
    }
    let mut call_trampolines: Vec<String> = Vec::new();
    let mut k: u32 = 0;
    while k < num_signatures
        invariant
            k <= num_signatures,
            call_trampolines@.len() == k,
            forall|j: int|
                0 <= j < k ==> (#[trigger] call_trampolines@[j])@ == symbol_name(
                    registry.prefix@,
                    Symbol::FunctionCallTrampoline(SignatureIndex(j as u32)),
                ),
        decreases num_signatures - k,
    {
        call_trampolines.push(registry.symbol_to_name(Symbol::FunctionCallTrampoline(SignatureIndex(k))));
        k = k + 1;
    }
    let imported = if num_imported_functions < num_functions {
        num_imported_functions
    } else {
        num_functions
    };
    let mut dynamic_trampolines: Vec<String> = Vec::new();
    let mut k: u32 = 0;
    while k < imported
        invariant
            k <= imported,
            dynamic_trampolines@.len() == k,
            forall|j: int|
                0 <= j < k ==> (#[trigger] dynamic_trampolines@[j])@ == symbol_name(
                    registry.prefix@,
                    Symbol::DynamicFunctionTrampoline(FunctionIndex(j as u32)),
                ),
        decreases imported - k,
    {
        dynamic_trampolines.push(registry.symbol_to_name(Symbol::DynamicFunctionTrampoline(FunctionIndex(k))));
        k = k + 1;
    }
    ArtifactSymbols { functions, call_trampolines, dynamic_trampolines }
}

// ---------------------------------------------------------------------------
// Extents of function bodies
// ---------------------------------------------------------------------------

/// The start of a function body and the number of bytes it may span.
#[derive(Clone, Copy, Debug, PartialEq, Eq, Structural)]
pub struct FunctionExtent {
    /// Address of the first byte of the body.
    pub ptr: usize,
    /// Length of the body in bytes.
    pub length: usize,
}

/// Lexicographic order on pairs, as `Ord` for tuples orders them.
pub open spec fn pair_le(a: (usize, usize), b: (usize, usize)) -> bool {
    a.0 < b.0 || (a.0 == b.0 && a.1 <= b.1)
}

/// `sort_unstable` on a vector of pairs: the same pairs, in ascending order.
#[verifier::external_body]
fn sort_pairs(pairs: &mut Vec<(usize, usize)>)
    ensures
        final(pairs)@.len() == old(pairs)@.len(),
        final(pairs)@.to_multiset() == old(pairs)@.to_multiset(),
        forall|a: int, b: int|
            0 <= a < b < final(pairs)@.len() ==> pair_le(final(pairs)@[a], final(pairs)@[b]),
{
    pairs.sort_unstable();
}

/// Some function with a smaller index starts at the same address as function `i`.
pub open spec fn shares_earlier_pointer(pointers: Seq<usize>, i: int) -> bool {
    exists|j: int| 0 <= j < i && pointers[j] == pointers[i]
}

/// The lowest address above `p` at which a function starts, or `usize::MAX`
/// when none does.
pub open spec fn lowest_pointer_above(pointers: Seq<usize>, p: usize) -> usize
    decreases pointers.len(),
{
    if pointers.len() == 0 {
        usize::MAX
    } else {
        let rest = lowest_pointer_above(pointers.drop_last(), p);
        let last = pointers.last();
        if p < last && last < rest {
            last
        } else {
            rest
        }
    }
}

/// The room that the layout leaves to function `i`: nothing when a function
/// with a smaller index starts at the same address, else the distance to the
/// next higher start (or to the end of the address space).
pub open spec fn room_after(pointers: Seq<usize>, i: int) -> usize {
    if shares_earlier_pointer(pointers, i) {
        0
    } else {
        (lowest_pointer_above(pointers, pointers[i]) - pointers[i]) as usize
    }
}

/// The extent length of function `i`: its emitted body length, cut down to the
/// room the layout leaves it.
pub open spec fn extent_length(pointers: Seq<usize>, body_lens: Seq<usize>, i: int) -> usize {
    let room = room_after(pointers, i);
    if body_lens[i] < room {
        body_lens[i]
    } else {
        room
    }
}

proof fn lemma_lowest_pointer_above(pointers: Seq<usize>, p: usize)
    ensures
        forall|j: int|
            0 <= j < pointers.len() && p < pointers[j] ==> lowest_pointer_above(pointers, p)
                <= pointers[j],
        lowest_pointer_above(pointers, p) == usize::MAX || exists|j: int|
            0 <= j < pointers.len() && pointers[j] == lowest_pointer_above(pointers, p) && p
                < pointers[j],
    decreases pointers.len(),
{
    if pointers.len() > 0 {
        let init = pointers.drop_last();
        lemma_lowest_pointer_above(init, p);
        assert forall|j: int|
            0 <= j < pointers.len() && p < pointers[j] implies lowest_pointer_above(pointers, p)
            <= pointers[j] by {
            if j < pointers.len() - 1 {
                assert(init[j] == pointers[j]);
            }
        }
        if lowest_pointer_above(pointers, p) != usize::MAX {
            if lowest_pointer_above(pointers, p) != pointers.last() {
                let j = choose|j: int|
                    0 <= j < init.len() && init[j] == lowest_pointer_above(init, p) && p < init[j];
                assert(pointers[j] == init[j]);
            }
        }
    }
}

/// The pair of function `j`, its address and index, stands in `pairs`.
spec fn pair_listed(pairs: Seq<(usize, usize)>, pointers: Seq<usize>, j: int) -> bool {
    exists|k: int| 0 <= k < pairs.len() && #[trigger] pairs[k] == (pointers[j], j as usize)
}

/// Extents never overlap: a body ends at or before the next body above it
/// starts, and of several bodies at one address all but the first are empty.
pub proof fn lemma_extents_do_not_overlap(pointers: Seq<usize>, body_lens: Seq<usize>, i: int, j: int)
    requires
        0 <= i < pointers.len(),
        0 <= j < pointers.len(),
        pointers.len() <= body_lens.len(),
    ensures
        pointers[i] < pointers[j] ==> pointers[i] + extent_length(pointers, body_lens, i) <= pointers[j],
        pointers[i] == pointers[j] && i < j ==> extent_length(pointers, body_lens, j) == 0,
{
    lemma_lowest_pointer_above(pointers, pointers[i]);
    if pointers[i] == pointers[j] && i < j {
        assert(shares_earlier_pointer(pointers, j));
    }
}

/// First position in `pairs` whose address is at least `p` (`pairs.len()` if none).
fn first_at_or_above(pairs: &Vec<(usize, usize)>, p: usize) -> (k: usize)
    requires
        forall|a: int, b: int| #![trigger pairs@[a], pairs@[b]] 0 <= a < b < pairs@.len() ==> pair_le(pairs@[a], pairs@[b]),
    ensures
        k <= pairs@.len(),
        forall|a: int| 0 <= a < k ==> pairs@[a].0 < p,
        forall|a: int| k <= a < pairs@.len() ==> pairs@[a].0 >= p,
{
    let mut lo: usize = 0;
    let mut hi: usize = pairs.len();
    while lo < hi
        invariant
            lo <= hi <= pairs@.len(),
            forall|a: int, b: int| #![trigger pairs@[a], pairs@[b]] 0 <= a < b < pairs@.len() ==> pair_le(pairs@[a], pairs@[b]),
            forall|a: int| 0 <= a < lo ==> pairs@[a].0 < p,
            forall|a: int| hi <= a < pairs@.len() ==> pairs@[a].0 >= p,
        decreases hi - lo,
    {
        let mid = lo + (hi - lo) / 2;
        if pairs[mid].0 < p {
            lo = mid + 1;
        } else {
            hi = mid;
        }
    }
    lo
}

/// First position in `pairs` whose address is above `p` (`pairs.len()` if none).
fn first_above(pairs: &Vec<(usize, usize)>, p: usize) -> (k: usize)
    requires
        forall|a: int, b: int| #![trigger pairs@[a], pairs@[b]] 0 <= a < b < pairs@.len() ==> pair_le(pairs@[a], pairs@[b]),
    ensures
        k <= pairs@.len(),
        forall|a: int| 0 <= a < k ==> pairs@[a].0 <= p,
        forall|a: int| k <= a < pairs@.len() ==> pairs@[a].0 > p,
{
    let mut lo: usize = 0;
    let mut hi: usize = pairs.len();
    while lo < hi
        invariant
            lo <= hi <= pairs@.len(),
            forall|a: int, b: int| #![trigger pairs@[a], pairs@[b]] 0 <= a < b < pairs@.len() ==> pair_le(pairs@[a], pairs@[b]),
            forall|a: int| 0 <= a < lo ==> pairs@[a].0 <= p,
            forall|a: int| hi <= a < pairs@.len() ==> pairs@[a].0 > p,
        decreases hi - lo,
    {
        let mid = lo + (hi - lo) / 2;
        if pairs[mid].0 <= p {
            lo = mid + 1;
        } else {
            hi = mid;
        }
    }
    lo
}

/// The extents of the finished functions, in function order, for
/// registering their frame information. The emitted body lengths may be
/// inexact, so each is bounded by the distance to the next function body in
/// memory; of several functions at one address only the first keeps room.
pub fn function_extents(pointers: &[usize], body_lens: &[usize]) -> (extents: Vec<FunctionExtent>)
    requires
        pointers@.len() <= body_lens@.len(),
    ensures
        extents@.len() == pointers@.len(),
        forall|i: int|
            0 <= i < pointers@.len() ==> (#[trigger] extents@[i]).ptr == pointers@[i]
                && extents@[i].length == extent_length(pointers@, body_lens@, i),
{
    broadcast use vstd::seq_lib::group_to_multiset_ensures;

    let n = pointers.len();
    let mut pairs: Vec<(usize, usize)> = Vec::new();
    let mut i: usize = 0;
    while i < n
        invariant
            i <= n == pointers@.len(),
            pairs@.len() == i,
            forall|k: int| 0 <= k < i ==> #[trigger] pairs@[k] == (pointers@[k], k as usize),
        decreases n - i,
    {
        pairs.push((pointers[i], i));
        i = i + 1;
    }
    let ghost unsorted = pairs@;
    sort_pairs(&mut pairs);
    proof {
        assert forall|k: int| 0 <= k < n implies (#[trigger] pairs@[k]).1 < n && pairs@[k].0
            == pointers@[pairs@[k].1 as int] by {
            assert(pairs@.contains(pairs@[k]));
            assert(pairs@.to_multiset().count(pairs@[k]) > 0);
            assert(unsorted.contains(pairs@[k]));
        }
        assert forall|j: int| 0 <= j < n implies #[trigger] pair_listed(pairs@, pointers@, j) by {
            assert(unsorted[j] == (pointers@[j], j as usize));
            assert(unsorted.contains(unsorted[j]));
            assert(unsorted.to_multiset().count(unsorted[j]) > 0);
            assert(pairs@.contains(unsorted[j]));
        }
    }
    let mut extents: Vec<FunctionExtent> = Vec::new();
    let mut i: usize = 0;
    while i < n
        invariant
            i <= n == pointers@.len() == pairs@.len(),
            n <= body_lens@.len(),
            forall|a: int, b: int| #![trigger pairs@[a], pairs@[b]] 0 <= a < b < pairs@.len() ==> pair_le(pairs@[a], pairs@[b]),
            forall|k: int| 0 <= k < n ==> (#[trigger] pairs@[k]).1 < n && pairs@[k].0
                == pointers@[pairs@[k].1 as int],
            forall|j: int| 0 <= j < n ==> #[trigger] pair_listed(pairs@, pointers@, j),
            extents@.len() == i,
            forall|j: int|
                0 <= j < i ==> (#[trigger] extents@[j]).ptr == pointers@[j] && extents@[j].length
                    == extent_length(pointers@, body_lens@, j),
        decreases n - i,
    {
        let p = pointers[i];
        assert(pair_listed(pairs@, pointers@, i as int));
        let ghost own = choose|k: int| 0 <= k < n && #[trigger] pairs@[k] == (pointers@[i as int], i);
        let lo = first_at_or_above(&pairs, p);
        assert(lo <= own);
        let first = pairs[lo].1;
        let room: usize = if first < i {
            proof {
                assert(pointers@[first as int] == p);
                assert(shares_earlier_pointer(pointers@, i as int));
            }
            0
        } else {
            proof {
                assert forall|j: int| 0 <= j < i implies pointers@[j] != pointers@[i as int] by {
                    if pointers@[j] == pointers@[i as int] {
                        assert(pair_listed(pairs@, pointers@, j));
                        let q = choose|k: int| 0 <= k < n && #[trigger] pairs@[k] == (pointers@[j], j as usize);
                        assert(lo <= q);
                        if lo < q {
                            assert(pair_le(pairs@[lo as int], pairs@[q]));
                        }
                    }
                }
                assert(!shares_earlier_pointer(pointers@, i as int));
                lemma_lowest_pointer_above(pointers@, p);
            }
            let hi = first_above(&pairs, p);
            if hi == n {
                proof {
                    if lowest_pointer_above(pointers@, p) != usize::MAX {
                        let j = choose|j: int|
                            0 <= j < n && pointers@[j] == lowest_pointer_above(pointers@, p) && p < pointers@[j];
                        assert(pair_listed(pairs@, pointers@, j));
                    }
                }
                usize::MAX - p
            } else {
                let next = pairs[hi].0;
                proof {
                    let jn = pairs@[hi as int].1 as int;
                    assert(pointers@[jn] == next && p < next);
                    assert forall|j: int| 0 <= j < n && p < pointers@[j] implies next <= pointers@[j] by {
                        assert(pair_listed(pairs@, pointers@, j));
                        let q = choose|k: int| 0 <= k < n && #[trigger] pairs@[k] == (pointers@[j], j as usize);
                        assert(hi <= q);
                        if hi < q {
                            assert(pair_le(pairs@[hi as int], pairs@[q]));
                        }
                    }
                    if lowest_pointer_above(pointers@, p) != usize::MAX {
                        let j = choose|j: int|
                            0 <= j < n && pointers@[j] == lowest_pointer_above(pointers@, p) && p < pointers@[j];
                    }
                    assert(lowest_pointer_above(pointers@, p) == next);
                }
                next - p
            }
        };
        let length = if body_lens[i] < room { body_lens[i] } else { room };
        extents.push(FunctionExtent { ptr: p, length });
        i = i + 1;
    }
    extents
}

} // verus!
