use wasmer_kit::symbols::{
    FunctionIndex, LocalFunctionIndex, ModuleMetadataSymbolRegistry, SectionIndex, SignatureIndex,
    Symbol,
};

fn registry(prefix: &str) -> ModuleMetadataSymbolRegistry {
    ModuleMetadataSymbolRegistry { prefix: prefix.to_string() }
}

#[test]
fn symbol_names_of_each_kind() {
    let r = registry("abc");
    assert_eq!(r.symbol_to_name(Symbol::LocalFunction(LocalFunctionIndex(3))), "wasmer_function_abc_3");
    assert_eq!(r.symbol_to_name(Symbol::Section(SectionIndex(0))), "wasmer_section_abc_0");
    assert_eq!(
        r.symbol_to_name(Symbol::FunctionCallTrampoline(SignatureIndex(42))),
        "wasmer_trampoline_function_call_abc_42"
    );
    assert_eq!(
        r.symbol_to_name(Symbol::DynamicFunctionTrampoline(FunctionIndex(4294967295))),
        "wasmer_trampoline_dynamic_function_abc_4294967295"
    );
}

#[test]
fn names_read_back_as_their_symbols() {
    for prefix in ["", "abc", "a_1_", "0123456789abcdef", "wasmer_function_x"] {
        let r = registry(prefix);
        for index in [0u32, 1, 9, 10, 12345, u32::MAX] {
            for symbol in [
                Symbol::LocalFunction(LocalFunctionIndex(index)),
                Symbol::Section(SectionIndex(index)),
                Symbol::FunctionCallTrampoline(SignatureIndex(index)),
                Symbol::DynamicFunctionTrampoline(FunctionIndex(index)),
            ] {
                let name = r.symbol_to_name(symbol);
                assert_eq!(r.name_to_symbol(&name), Some(symbol), "{}", name);
            }
        }
    }
}

#[test]
fn names_of_other_modules_are_refused() {
    let r = registry("abc");
    assert_eq!(r.name_to_symbol("wasmer_function_xyz_3"), None);
    assert_eq!(r.name_to_symbol("wasmer_function_abc3"), None);
    assert_eq!(r.name_to_symbol("function_abc_3"), None);
    assert_eq!(r.name_to_symbol(""), None);
}

#[test]
fn index_text_must_parse_as_u32() {
    let r = registry("p");
    assert_eq!(r.name_to_symbol("wasmer_section_p_"), None);
    assert_eq!(r.name_to_symbol("wasmer_section_p_x1"), None);
    assert_eq!(r.name_to_symbol("wasmer_section_p_-1"), None);
    assert_eq!(r.name_to_symbol("wasmer_section_p_4294967296"), None);
    assert_eq!(r.name_to_symbol("wasmer_section_p_1 "), None);
    assert_eq!(r.name_to_symbol("wasmer_section_p_+"), None);
    assert_eq!(r.name_to_symbol("wasmer_section_p_007"), Some(Symbol::Section(SectionIndex(7))));
    assert_eq!(r.name_to_symbol("wasmer_section_p_+5"), Some(Symbol::Section(SectionIndex(5))));
    assert_eq!(r.name_to_symbol("wasmer_section_p_99999999999999999999"), None);
    assert_eq!(r.name_to_symbol("wasmer_section_p_42949672950"), None);
    assert_eq!(r.name_to_symbol("wasmer_section_p_++1"), None);
    assert_eq!(
        r.name_to_symbol("wasmer_section_p_4294967295"),
        Some(Symbol::Section(SectionIndex(4294967295)))
    );
}

#[test]
fn first_matching_kind_decides() {
    // With a prefix that ends like a tag, the local-function head is tried first.
    let r = registry("x");
    assert_eq!(
        r.name_to_symbol("wasmer_trampoline_function_call_x_8"),
        Some(Symbol::FunctionCallTrampoline(SignatureIndex(8)))
    );
    assert_eq!(r.name_to_symbol("wasmer_function_x_8"), Some(Symbol::LocalFunction(LocalFunctionIndex(8))));
}

#[test]
fn non_ascii_prefix_round_trips() {
    let r = registry("préfixe_ü");
    let name = r.symbol_to_name(Symbol::LocalFunction(LocalFunctionIndex(77)));
    assert_eq!(name, "wasmer_function_préfixe_ü_77");
    assert_eq!(r.name_to_symbol(&name), Some(Symbol::LocalFunction(LocalFunctionIndex(77))));
}
