use wasmer_kit::errors::CompileError;
use wasmer_kit::singlepass::{expand_local_declarations, Singlepass, SinglepassCompiler};

#[test]
fn default_configuration() {
    let config = Singlepass::new();
    assert_eq!(
        format!("{:?}", config),
        "Singlepass { enable_nan_canonicalization: true, enable_stack_check: false }"
    );
    assert_eq!(format!("{:?}", Singlepass::default()), format!("{:?}", config));
}

#[test]
fn configuration_builder() {
    let mut config = Singlepass::new();
    config.enable_stack_check(true).canonicalize_nans(false);
    assert_eq!(
        format!("{:?}", config),
        "Singlepass { enable_nan_canonicalization: false, enable_stack_check: true }"
    );
    config.enable_pic();
    assert_eq!(
        format!("{:?}", config),
        "Singlepass { enable_nan_canonicalization: false, enable_stack_check: true }"
    );
}

#[test]
fn compiler_keeps_its_configuration() {
    let mut config = Singlepass::new();
    config.enable_stack_check(true);
    let compiler = SinglepassCompiler::new(&config);
    assert_eq!(format!("{:?}", compiler.config()), format!("{:?}", config));
    assert_eq!(format!("{:?}", config.compiler().config()), format!("{:?}", config));
}

#[test]
fn multi_value_is_unsupported() {
    let compiler = Singlepass::new().compiler();
    assert_eq!(
        compiler.check_features(true),
        Err(CompileError::UnsupportedFeature("multivalue".to_string()))
    );
    assert_eq!(compiler.check_features(false), Ok(()));
}

#[test]
fn local_declarations_expand_in_order() {
    assert_eq!(expand_local_declarations(&[(2u32, 'a'), (0, 'b'), (3, 'c')]), vec!['a', 'a', 'c', 'c', 'c']);
    assert!(expand_local_declarations::<u8>(&[]).is_empty());
}
