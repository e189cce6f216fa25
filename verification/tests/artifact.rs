use wasmer_kit::artifact::{
    artifact_symbols, check_deserializable, cross_compiling_args, function_extents,
    get_default_extension, is_deserializable, linker_failure, linker_output_failure, linker_target_triple, target_args, FunctionExtent,
    HostPlatform, OperatingSystem,
};
use wasmer_kit::errors::{CompileError, DeserializeError};
use wasmer_kit::symbols::ModuleMetadataSymbolRegistry;

#[test]
fn extents_are_bounded_by_the_next_body() {
    let extents = function_extents(&[100, 300, 200], &[50, 1000, 500]);
    assert_eq!(
        extents,
        vec![
            FunctionExtent { ptr: 100, length: 50 },
            FunctionExtent { ptr: 300, length: 1000 },
            FunctionExtent { ptr: 200, length: 100 },
        ]
    );
}

#[test]
fn highest_body_is_bounded_by_the_address_space() {
    let extents = function_extents(&[usize::MAX - 10], &[64]);
    assert_eq!(extents, vec![FunctionExtent { ptr: usize::MAX - 10, length: 10 }]);
}

#[test]
fn bodies_at_one_address_leave_room_to_the_first() {
    let extents = function_extents(&[100, 40, 100, 100], &[10, 80, 20, 30]);
    assert_eq!(
        extents,
        vec![
            FunctionExtent { ptr: 100, length: 10 },
            FunctionExtent { ptr: 40, length: 60 },
            FunctionExtent { ptr: 100, length: 0 },
            FunctionExtent { ptr: 100, length: 0 },
        ]
    );
    assert!(function_extents(&[], &[]).is_empty());
}

#[test]
fn native_objects_are_recognised_by_magic() {
    let elf64 = [0x7f, b'E', b'L', b'F', 2, 1, 1];
    let elf32 = [0x7f, b'E', b'L', b'F', 1];
    let macho = [207, 250, 237, 254, 7];
    let coff = [b'M', b'Z', 0x90];
    assert!(is_deserializable(&elf64, HostPlatform::Linux64));
    assert!(!is_deserializable(&elf64, HostPlatform::Linux32));
    assert!(is_deserializable(&elf32, HostPlatform::Linux32));
    assert!(is_deserializable(&macho, HostPlatform::MacOs64));
    assert!(is_deserializable(&coff, HostPlatform::Windows64));
    assert!(!is_deserializable(&coff, HostPlatform::Other));
    assert!(!is_deserializable(&[0x7f, b'E', b'L'], HostPlatform::Linux64));
    assert!(!is_deserializable(&[], HostPlatform::Windows64));
}

#[test]
fn unknown_bytes_are_incompatible() {
    assert_eq!(check_deserializable(&[0x7f, b'E', b'L', b'F', 2], HostPlatform::Linux64), Ok(()));
    assert_eq!(
        check_deserializable(b"\0asm", HostPlatform::Linux64),
        Err(DeserializeError::Incompatible(
            "The provided bytes are not in any native format Wasmer can understand".to_string()
        ))
    );
}

#[test]
fn shared_object_extensions() {
    assert_eq!(get_default_extension(OperatingSystem::Windows), "dll");
    assert_eq!(get_default_extension(OperatingSystem::Darwin), "dylib");
    assert_eq!(get_default_extension(OperatingSystem::Ios), "dylib");
    assert_eq!(get_default_extension(OperatingSystem::MacOSX), "dylib");
    assert_eq!(get_default_extension(OperatingSystem::Linux), "so");
    assert_eq!(get_default_extension(OperatingSystem::Other), "so");
}

#[test]
fn linker_flags_for_targets() {
    assert_eq!(linker_target_triple("aarch64-apple-darwin"), "arm64-apple-darwin");
    assert_eq!(linker_target_triple("x86_64-unknown-linux-gnu"), "x86_64-unknown-linux-gnu");
    assert_eq!(
        cross_compiling_args("x86_64-pc-windows-msvc", true),
        vec!["--target=x86_64-pc-windows-msvc", "-fuse-ld=lld", "-nodefaultlibs", "-nostdlib"]
    );
    assert_eq!(cross_compiling_args("arm64-apple-darwin", false), vec!["--target=arm64-apple-darwin"]);
    assert!(cross_compiling_args("x86_64-unknown-linux-gnu", false).is_empty());
    assert_eq!(target_args(OperatingSystem::Windows, true), vec!["-Wl,/force:unresolved,/noentry"]);
    assert_eq!(target_args(OperatingSystem::Windows, false), vec!["-Wl,-undefined,dynamic_lookup"]);
    assert_eq!(target_args(OperatingSystem::Linux, true), vec!["-nostartfiles", "-Wl,-undefined,dynamic_lookup"]);
}

#[test]
fn symbols_resolved_from_parts() {
    let registry = ModuleMetadataSymbolRegistry { prefix: "m".to_string() };
    let symbols = artifact_symbols(&registry, 2, 1, 5, 3);
    assert_eq!(symbols.functions, vec!["wasmer_function_m_0", "wasmer_function_m_1"]);
    assert_eq!(symbols.call_trampolines, vec!["wasmer_trampoline_function_call_m_0"]);
    assert_eq!(
        symbols.dynamic_trampolines,
        vec![
            "wasmer_trampoline_dynamic_function_m_0",
            "wasmer_trampoline_dynamic_function_m_1",
            "wasmer_trampoline_dynamic_function_m_2"
        ]
    );
    let symbols = artifact_symbols(&registry, 0, 0, 1, 4);
    assert!(symbols.functions.is_empty());
    assert_eq!(symbols.dynamic_trampolines, vec!["wasmer_trampoline_dynamic_function_m_0"]);
}

#[test]
fn failed_link_message() {
    assert_eq!(
        linker_failure("ld: cannot find -lc", ""),
        CompileError::Codegen("Shared object file generator failed with:\nstderr:ld: cannot find -lc\nstdout:".to_string())
    );
}

#[test]
fn failed_link_output_is_decoded_and_trimmed() {
    assert_eq!(
        linker_output_failure(b"ld: bad \xff input \n\t", b"  done\r\n"),
        CompileError::Codegen(
            "Shared object file generator failed with:\nstderr:ld: bad \u{fffd} input\nstdout:  done".to_string()
        )
    );
}

#[test]
fn failed_link_output_trims_unicode_whitespace() {
    assert_eq!(
        linker_output_failure("cannot link\u{3000}\u{85}".as_bytes(), "\u{2003}ok\u{a0}".as_bytes()),
        CompileError::Codegen(
            "Shared object file generator failed with:\nstderr:cannot link\nstdout:\u{2003}ok".to_string()
        )
    );
}
