//! Configuration of the single-pass compiler, and the parts of compiling a
//! module that come before code generation.
use vstd::prelude::*;
use crate::errors::CompileError;

verus! {

/// Configuration of the single-pass compiler.
#[derive(Debug, Clone, Copy)]
pub struct Singlepass {
    pub(crate) enable_nan_canonicalization: bool,
    pub(crate) enable_stack_check: bool,
}

impl Singlepass {
    /// Whether NaN results are canonicalized.
    pub closed spec fn nan_canonicalization_enabled(&self) -> bool {
        self.enable_nan_canonicalization
    }

    /// Whether each function checks the stack depth on entry.
    pub closed spec fn stack_check_enabled(&self) -> bool {
        self.enable_stack_check
    }

    /// The default configuration: NaN canonicalization on, stack checks off.
    pub fn new() -> (config: Self)
        ensures
            config.nan_canonicalization_enabled(),
            !config.stack_check_enabled(),
    {
        Self { enable_nan_canonicalization: true, enable_stack_check: false }
    }

    /// Enable stack check.
    ///
    /// When enabled, an explicit stack depth check will be performed on entry
    /// to each function to prevent stack overflow.
    ///
    /// Note that this doesn't guarantee deterministic execution across
    /// different platforms.
    pub fn enable_stack_check(&mut self, enable: bool) -> (config: &mut Self)
        ensures
            config.stack_check_enabled() == enable,
            config.nan_canonicalization_enabled() == old(self).nan_canonicalization_enabled(),
            *final(self) == *final(config),
    {
        self.enable_stack_check = enable;
        self
    }

    /// Enable NaN canonicalization.
    ///
    /// NaN canonicalization is useful when trying to run WebAssembly
    /// deterministically across different architectures.
    pub fn canonicalize_nans(&mut self, enable: bool) -> (config: &mut Self)
        ensures
            config.nan_canonicalization_enabled() == enable,
            config.stack_check_enabled() == old(self).stack_check_enabled(),
            *final(self) == *final(config),
    {
        self.enable_nan_canonicalization = enable;
        self
    }

    /// Position-independent code: nothing to do, since the single-pass
    /// compiler always emits it.
    pub fn enable_pic(&mut self)
        ensures
            *final(self) == *old(self),
    {
    }

    /// A compiler with this configuration.
    pub fn compiler(&self) -> (compiler: SinglepassCompiler)
        ensures
            compiler.spec_config() == *self,
    {
        SinglepassCompiler::new(self)
    }
}

impl Default for Singlepass {
    fn default() -> (config: Singlepass)
        ensures
            config.nan_canonicalization_enabled(),
            !config.stack_check_enabled(),
    {
        Self::new()
    }
}

/// A compiler that compiles a WebAssembly module with Singlepass.
/// It does the compilation in one pass.
pub struct SinglepassCompiler {
    config: Singlepass,
}

impl SinglepassCompiler {
    /// The configuration the compiler was made with.
    pub closed spec fn spec_config(&self) -> Singlepass {
        self.config
    }

    /// Creates a new Singlepass compiler.
    pub fn new(config: &Singlepass) -> (compiler: Self)
        ensures
            compiler.spec_config() == *config,
    {
        Self { config: *config }
    }

    /// Gets the config for this compiler.
    pub fn config(&self) -> (config: &Singlepass)
        ensures
            *config == self.spec_config(),
    {
        &self.config
    }

    /// The feature check that compiling a module starts with: the compiler
    /// does not support multiple return values.
    pub fn check_features(&self, multi_value: bool) -> (checked: Result<(), CompileError>)
        ensures
            multi_value ==> (checked matches Err(CompileError::UnsupportedFeature(feature))
                && feature@ == "multivalue"@),
            !multi_value ==> checked is Ok,
    {
        if multi_value {
            return Err(CompileError::UnsupportedFeature(String::from_str("multivalue")));
        }
        Ok(())
    }
}

/// The locals that a list of `(count, type)` declarations declares: each
/// type repeated `count` times, in order.
pub open spec fn declared_locals<T>(declarations: Seq<(u32, T)>) -> Seq<T>
    decreases declarations.len(),
{
    if declarations.len() == 0 {
        Seq::empty()
    } else {
        let last = declarations.last();
        declared_locals(declarations.drop_last()) + Seq::new(last.0 as nat, |_i: int| last.1)
    }
}

/// The number of locals that a list of `(count, type)` declarations
/// declares: the sum of the counts.
pub open spec fn local_count<T>(declarations: Seq<(u32, T)>) -> nat
    decreases declarations.len(),
{
    if declarations.len() == 0 {
        0
    } else {
        local_count(declarations.drop_last()) + (declarations.last().0 as nat)
    }
}

/// A declaration list declares as many locals as its counts add up to.
pub proof fn lemma_declared_locals_count<T>(declarations: Seq<(u32, T)>)
    ensures
        declared_locals(declarations).len() == local_count(declarations),
    decreases declarations.len(),
{
    if declarations.len() > 0 {
        lemma_declared_locals_count(declarations.drop_last());
    }
}

/// One more declaration `(count, ty)` adds exactly `count` locals, all of
/// type `ty`, after the locals declared before it, which stay as they were.
pub proof fn lemma_declared_locals_push<T>(declarations: Seq<(u32, T)>, count: u32, ty: T)
    ensures
        declared_locals(declarations.push((count, ty))).len() == declared_locals(declarations).len() + count,
        forall|k: int|
            0 <= k < declared_locals(declarations).len() ==> #[trigger] declared_locals(
                declarations.push((count, ty)),
            )[k] == declared_locals(declarations)[k],
        forall|k: int|
            declared_locals(declarations).len() <= k < declared_locals(declarations).len() + count
                ==> #[trigger] declared_locals(declarations.push((count, ty)))[k] == ty,
{
    assert(declarations.push((count, ty)).drop_last() =~= declarations);
}

/// Expands the local declarations of a function body into one entry per
/// local (arguments excluded).
pub fn expand_local_declarations<T: Copy>(declarations: &[(u32, T)]) -> (locals: Vec<T>)
    ensures
        locals@ == declared_locals(declarations@),
        locals@.len() == local_count(declarations@),
{
    proof {
        lemma_declared_locals_count(declarations@);
    }
    let mut locals: Vec<T> = Vec::new();
    let mut i: usize = 0;
    while i < declarations.len()
        invariant
            i <= declarations@.len(),
            locals@ == declared_locals(declarations@.subrange(0, i as int)),
        decreases declarations@.len() - i,
    {
        let (count, ty) = declarations[i];
        let ghost before = locals@;
        let mut k: u32 = 0;
        while k < count
            invariant
                k <= count,
                locals@ == before + Seq::new(k as nat, |_j: int| ty),
            decreases count - k,
        {
            locals.push(ty);
            k = k + 1;
            assert(locals@ =~= before + Seq::new(k as nat, |_j: int| ty));
        }
        i = i + 1;
        let ghost prefix = declarations@.subrange(0, i as int);
        assert(prefix.drop_last() =~= declarations@.subrange(0, i - 1));
        assert(prefix.last() == (count, ty));
    }
    assert(declarations@.subrange(0, declarations@.len() as int) =~= declarations@);
    locals
}

} // verus!
