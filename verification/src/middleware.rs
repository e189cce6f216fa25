//! Reading function bodies through a chain of middlewares that may rewrite
//! the operator stream.
use vstd::prelude::*;
use std::collections::VecDeque;
use smallvec::SmallVec;
use wasmparser::{BinaryReader, Operator, Type};
use crate::errors::CompileError;
use crate::singlepass::{declared_locals, expand_local_declarations};

verus! {

#[verifier::external_type_specification]
#[verifier::external_body]
pub struct ExOperator<'a>(Operator<'a>);

/// A batch of operators handed from one stage of the chain to the next. Its
/// `SmallVec` sits in a field that Verus does not look into: declared as a
/// type of its own, `SmallVec` is refused for the `Array` bound on its
/// parameter.
#[verifier::external_body]
pub struct OperatorBatch<'a> {
    items: SmallVec<[Operator<'a>; 2]>,
}

/// The operators that a batch holds, in order.
pub uninterp spec fn batch_operators(batch: OperatorBatch<'static>) -> Seq<Operator<'static>>;

/// `SmallVec::from_iter` over `VecDeque::drain(0..)`: a batch of all the
/// pending operators, in order, leaving none pending.
#[verifier::external_body]
fn take_pending<'a>(pending: &mut VecDeque<Operator<'a>>) -> (batch: OperatorBatch<'a>)
    ensures
        batch_operators(batch) == old(pending)@,
        final(pending)@ == Seq::<Operator<'a>>::empty(),
{
    OperatorBatch { items: SmallVec::from_iter(pending.drain(0..)) }
}

/// `SmallVec::is_empty`: whether the batch holds no operator.
#[verifier::external_body]
fn batch_is_empty<'a>(batch: &OperatorBatch<'a>) -> (empty: bool)
    ensures
        empty == (batch_operators(*batch).len() == 0),
{
    batch.items.is_empty()
}

/// `SmallVec::remove(0)`: takes the first operator of the batch, the others
/// moving up.
#[verifier::external_body]
fn batch_take_first<'a>(batch: &mut OperatorBatch<'a>) -> (first: Operator<'a>)
    requires
        batch_operators(*old(batch)).len() > 0,
    ensures
        first == batch_operators(*old(batch))[0],
        batch_operators(*final(batch)) == batch_operators(*old(batch)).drop_first(),
{
    batch.items.remove(0)
}

/// Why the bytes of a function body could not be read: the reader's message
/// and the offset in the module at which reading failed.
#[derive(Clone, Debug, PartialEq, Eq)]
pub struct ReaderError {
    /// What went wrong.
    pub message: String,
    /// Where in the module it went wrong.
    pub offset: usize,
}

// ---------------------------------------------------------------------------
// The binary encodings that locals are declared with
// ---------------------------------------------------------------------------

/// A WebAssembly value or block type.
#[derive(Clone, Copy, Debug, PartialEq, Eq, Structural)]
pub enum ValType {
    /// `i32`.
    I32,
    /// `i64`.
    I64,
    /// `f32`.
    F32,
    /// `f64`.
    F64,
    /// `v128`.
    V128,
    /// `funcref`.
    FuncRef,
    /// `externref`.
    ExternRef,
    /// `exnref`.
    ExnRef,
    /// The function type constructor.
    Func,
    /// The empty block type.
    EmptyBlockType,
}

/// The type that a type byte encodes, if any.
pub open spec fn value_type_of_byte(byte: u8) -> Option<ValType> {
    if byte == 0x7f {
        Some(ValType::I32)
    } else if byte == 0x7e {
        Some(ValType::I64)
    } else if byte == 0x7d {
        Some(ValType::F32)
    } else if byte == 0x7c {
        Some(ValType::F64)
    } else if byte == 0x7b {
        Some(ValType::V128)
    } else if byte == 0x70 {
        Some(ValType::FuncRef)
    } else if byte == 0x6f {
        Some(ValType::ExternRef)
    } else if byte == 0x68 {
        Some(ValType::ExnRef)
    } else if byte == 0x60 {
        Some(ValType::Func)
    } else if byte == 0x40 {
        Some(ValType::EmptyBlockType)
    } else {
        None
    }
}

/// The type read from the front of `bytes`: one byte.
pub open spec fn value_type_at(bytes: Seq<u8>) -> Option<ValType> {
    if bytes.len() == 0 {
        None
    } else {
        value_type_of_byte(bytes[0])
    }
}

/// The `u32` read in LEB128 from the front of `bytes`, with the number of
/// bytes it takes, when the byte at the front is the `depth`-th of the
/// number: at most five bytes, the fifth below 16.
pub open spec fn var_u32_at(bytes: Seq<u8>, depth: nat) -> Option<(nat, nat)>
    decreases bytes.len(),
{
    if bytes.len() == 0 {
        None
    } else if depth == 4 && bytes[0] >= 16 {
        None
    } else if bytes[0] < 128 {
        Some((bytes[0] as nat, 1))
    } else {
        match var_u32_at(bytes.drop_first(), depth + 1) {
            Some((value, length)) => Some((((bytes[0] - 128) + 128 * value) as nat, length + 1)),
            None => None,
        }
    }
}

/// `count` local declarations `(count, type)` read from the front of
/// `bytes`, with the number of bytes they take.
pub open spec fn local_declarations_at(bytes: Seq<u8>, count: nat) -> Option<(Seq<(u32, ValType)>, nat)>
    decreases count,
{
    if count == 0 {
        Some((Seq::empty(), 0))
    } else {
        match var_u32_at(bytes, 0) {
            None => None,
            Some((n, l1)) => match value_type_at(bytes.skip(l1 as int)) {
                None => None,
                Some(t) => match local_declarations_at(bytes.skip(l1 + 1 as int), (count - 1) as nat) {
                    None => None,
                    Some((rest, l2)) => Some((seq![(n as u32, t)] + rest, l1 + 1 + l2)),
                },
            },
        }
    }
}

/// The locals of a function body read from the front of `bytes` (a count of
/// declarations, then the declarations), with the number of bytes they take.
pub open spec fn function_locals_at(bytes: Seq<u8>) -> Option<(Seq<ValType>, nat)> {
    match var_u32_at(bytes, 0) {
        None => None,
        Some((count, l1)) => match local_declarations_at(bytes.skip(l1 as int), count) {
            None => None,
            Some((declarations, l2)) => Some((declared_locals(declarations), l1 + l2)),
        },
    }
}

/// The bytes consumed by a failing read of a LEB128 `u32` from the front of
/// `bytes`, the byte at the front being the `depth`-th of the number, and
/// whether the read failed because the bytes ran out (rather than on a fifth
/// byte of 16 or more).
pub open spec fn var_u32_stop(bytes: Seq<u8>, depth: nat) -> (bool, nat)
    decreases bytes.len(),
{
    if bytes.len() == 0 {
        (true, 0)
    } else if depth == 4 && bytes[0] >= 16 {
        (false, 1)
    } else if bytes[0] < 128 {
        (false, 0)
    } else {
        let (ran_out, consumed) = var_u32_stop(bytes.drop_first(), depth + 1);
        (ran_out, consumed + 1)
    }
}

/// The message and module offset of the error reported when a LEB128 `u32`
/// cannot be read from the front of `bytes`, which start at `offset` in the
/// module: running out of bytes is reported where they end, a bad fifth byte
/// where it stands.
pub open spec fn var_u32_failure(bytes: Seq<u8>, offset: nat) -> (Seq<char>, nat) {
    let (ran_out, consumed) = var_u32_stop(bytes, 0);
    if ran_out {
        ("Unexpected EOF"@, offset + consumed)
    } else {
        ("Invalid var_u32"@, (offset + consumed - 1) as nat)
    }
}

/// The bytes consumed by reading a type byte from the front of `bytes`.
pub open spec fn type_stop(bytes: Seq<u8>) -> nat {
    if bytes.len() == 0 { 0 } else { 1 }
}

/// The message and module offset of the error reported when no type can be
/// read from the front of `bytes`, which start at `offset` in the module.
pub open spec fn type_failure(bytes: Seq<u8>, offset: nat) -> (Seq<char>, nat) {
    if bytes.len() == 0 {
        ("Unexpected EOF"@, offset)
    } else if bytes[0] >= 128 {
        ("Invalid var_i7"@, offset)
    } else {
        ("Invalid type"@, offset)
    }
}

/// `error` carries the given message and module offset.
pub open spec fn error_matches(error: ReaderError, failure: (Seq<char>, nat)) -> bool {
    error.message@ == failure.0 && error.offset as nat == failure.1
}

/// What `BinaryReader::read_operator` does on a reader over `data` (which
/// start at `offset` in the module) positioned at `position`: the operator
/// read or the error reported, and the position the reader is left at.
pub uninterp spec fn operator_read_at(data: Seq<u8>, position: nat, offset: nat) -> (Result<Operator<'static>, ReaderError>, nat);

/// Reading from `position` in `data` (which start at `offset` in the module)
/// gives `operators`, one after another: the position reached, or `None`
/// where a read gives something else.
pub open spec fn reads_operators<'a>(data: Seq<u8>, position: nat, offset: nat, operators: Seq<Operator<'a>>) -> Option<nat>
    decreases operators.len(),
{
    if operators.len() == 0 {
        Some(position)
    } else {
        match reads_operators(data, position, offset, operators.drop_last()) {
            Some(before) => {
                let (read, after) = operator_read_at(data, before, offset);
                if read == Ok::<Operator<'a>, ReaderError>(operators.last()) {
                    Some(after)
                } else {
                    None
                }
            },
            None => None,
        }
    }
}

/// `BinaryReader::read_var_u32` on a reader over `data` (which start at
/// `original_offset` in the module) positioned at `position`, its error turned
/// into a `ReaderError`; also the position the reader is left at.
#[verifier::external_body]
fn wasm_read_var_u32(data: &[u8], position: usize, original_offset: usize) -> (read: (Result<u32, ReaderError>, usize))
    requires
        position <= data@.len(),
        original_offset + data@.len() <= usize::MAX,
    ensures
        position <= read.1 <= data@.len(),
        match read.0 {
            Ok(value) => var_u32_at(data@.skip(position as int), 0) == Some(
                (value as nat, (read.1 - position) as nat),
            ),
            Err(e) => var_u32_at(data@.skip(position as int), 0) is None
                && error_matches(e, var_u32_failure(data@.skip(position as int), (original_offset + position) as nat))
                && read.1 == position + var_u32_stop(data@.skip(position as int), 0).1,
        },
{
    let mut reader = BinaryReader::new_with_offset(data, original_offset);
    let _ = reader.skip_bytes(position);
    let value = match reader.read_var_u32() {
        Ok(value) => Ok(value),
        Err(e) => Err(ReaderError { message: e.message().to_string(), offset: e.offset() }),
    };
    (value, reader.current_position())
}

/// `BinaryReader::read_type` on a reader over `data` (which start at
/// `original_offset` in the module) positioned at `position`, converted to
/// `ValType`, its error turned into a `ReaderError`; also the position the
/// reader is left at.
#[verifier::external_body]
fn wasm_read_type(data: &[u8], position: usize, original_offset: usize) -> (read: (Result<ValType, ReaderError>, usize))
    requires
        position <= data@.len(),
        original_offset + data@.len() <= usize::MAX,
    ensures
        read.1 == position + type_stop(data@.skip(position as int)),
        match read.0 {
            Ok(ty) => value_type_at(data@.skip(position as int)) == Some(ty),
            Err(e) => value_type_at(data@.skip(position as int)) is None
                && error_matches(e, type_failure(data@.skip(position as int), (original_offset + position) as nat)),
        },
{
    let mut reader = BinaryReader::new_with_offset(data, original_offset);
    let _ = reader.skip_bytes(position);
    let ty = match reader.read_type() {
        Ok(t) => Ok(match t {
            Type::I32 => ValType::I32, Type::I64 => ValType::I64, Type::F32 => ValType::F32,
            Type::F64 => ValType::F64, Type::V128 => ValType::V128, Type::FuncRef => ValType::FuncRef,
            Type::ExternRef => ValType::ExternRef, Type::ExnRef => ValType::ExnRef,
            Type::Func => ValType::Func, Type::EmptyBlockType => ValType::EmptyBlockType,
        }),
        Err(e) => Err(ReaderError { message: e.message().to_string(), offset: e.offset() }),
    };
    (ty, reader.current_position())
}

/// `BinaryReader::read_operator` on a reader over `data` (which start at
/// `original_offset` in the module) positioned at `position`, its error turned
/// into a `ReaderError`; also the position the reader is left at. The reader
/// only moves forward, within the bytes, and an operator takes at least its
/// opcode byte.
#[verifier::external_body]
fn wasm_read_operator<'a>(data: &'a [u8], position: usize, original_offset: usize) -> (read: (Result<Operator<'a>, ReaderError>, usize))
    requires
        position <= data@.len(),
        original_offset + data@.len() <= usize::MAX,
    ensures
        operator_read_at(data@, position as nat, original_offset as nat) == (read.0, read.1 as nat),
        position <= read.1 <= data@.len(),
        read.0 is Ok ==> position < read.1,
{
    let mut reader = BinaryReader::new_with_offset(data, original_offset);
    let _ = reader.skip_bytes(position);
    let operator = match reader.read_operator() {
        Ok(operator) => Ok(operator),
        Err(e) => Err(ReaderError { message: e.message().to_string(), offset: e.offset() }),
    };
    (operator, reader.current_position())
}

/// The error at which reading `count` local declarations from the front of
/// `bytes` (which start at `offset` in the module) stops, or `None` when all
/// of them are read.
pub open spec fn local_declarations_failure(bytes: Seq<u8>, offset: nat, count: nat) -> Option<(Seq<char>, nat)>
    decreases count,
{
    if count == 0 {
        None
    } else {
        match var_u32_at(bytes, 0) {
            None => Some(var_u32_failure(bytes, offset)),
            Some((_, l1)) => match value_type_at(bytes.skip(l1 as int)) {
                None => Some(type_failure(bytes.skip(l1 as int), offset + l1)),
                Some(_) => local_declarations_failure(bytes.skip(l1 + 1 as int), offset + l1 + 1, (count - 1) as nat),
            },
        }
    }
}

/// The error at which reading the locals at the front of `bytes` (which
/// start at `offset` in the module) stops, or `None` when they are read.
pub open spec fn function_locals_failure(bytes: Seq<u8>, offset: nat) -> Option<(Seq<char>, nat)> {
    match var_u32_at(bytes, 0) {
        None => Some(var_u32_failure(bytes, offset)),
        Some((count, l1)) => local_declarations_failure(bytes.skip(l1 as int), offset + l1, count),
    }
}

// ---------------------------------------------------------------------------
// Reader state and middlewares
// ---------------------------------------------------------------------------

/// The state of the binary reader. Exposed to middlewares to push their outputs.
pub struct MiddlewareReaderState<'a> {
    data: &'a [u8],
    position: usize,
    original_offset: usize,
    pending_operations: VecDeque<Operator<'a>>,
    pushed: Ghost<Seq<Operator<'a>>>,
}

impl<'a> MiddlewareReaderState<'a> {
    /// The read position is within the bytes, the offsets of the bytes fit
    /// in a `usize`, and the pending operators are the last ones pushed, in
    /// the order they were pushed.
    pub open spec fn well_formed(&self) -> bool {
        &&& self.position() <= self.bytes().len()
        &&& self.original_offset() + self.bytes().len() <= usize::MAX
        &&& self.pending().len() <= self.log().len()
        &&& self.pending() == self.log().skip(self.log().len() - self.pending().len())
    }

    /// Every operator ever pushed onto the pending queue, in order.
    pub closed spec fn log(&self) -> Seq<Operator<'a>> {
        self.pushed@
    }

    /// The bytes being read.
    pub closed spec fn bytes(&self) -> Seq<u8> {
        self.data@
    }

    /// How many bytes have been read.
    pub closed spec fn position(&self) -> nat {
        self.position as nat
    }

    /// The offset of the bytes in the whole module.
    pub closed spec fn original_offset(&self) -> nat {
        self.original_offset as nat
    }

    /// The bytes not read yet.
    pub open spec fn remaining(&self) -> Seq<u8> {
        self.bytes().skip(self.position() as int)
    }

    /// The operators pushed by middlewares and not yet handed out.
    pub closed spec fn pending(&self) -> Seq<Operator<'a>> {
        self.pending_operations@
    }

    /// Push an operator.
    pub fn push_operator(&mut self, operator: Operator<'a>)
        ensures
            final(self).pending() == old(self).pending().push(operator),
            final(self).log() == old(self).log().push(operator),
            final(self).bytes() == old(self).bytes(),
            final(self).position() == old(self).position(),
            final(self).original_offset() == old(self).original_offset(),
            old(self).well_formed() ==> final(self).well_formed(),
    {
        let ghost logged = self.pushed@.push(operator);
        let ghost before = *self;
        self.pending_operations.push_back(operator);
        self.pushed = Ghost(logged);
        proof {
            if before.well_formed() {
                let n = self.pending().len();
                assert(self.pending() =~= self.log().skip(self.log().len() - n));
            }
        }
    }

    /// Push operators, in order.
    pub fn extend(&mut self, operators: Vec<Operator<'a>>)
        ensures
            final(self).pending() == old(self).pending() + operators@,
            final(self).log() == old(self).log() + operators@,
            old(self).well_formed() ==> final(self).well_formed(),
            final(self).bytes() == old(self).bytes(),
            final(self).position() == old(self).position(),
            final(self).original_offset() == old(self).original_offset(),
    {
        let mut operators = operators;
        let mut batch: VecDeque<Operator<'a>> = VecDeque::new();
        let ghost all = operators@;
        while operators.len() > 0
            invariant
                operators@ + batch@ == all,
            decreases operators@.len(),
        {
            let ghost before = operators@;
            let ghost prev_batch = batch@;
            let op = operators.pop().unwrap();
            batch.push_front(op);
            assert(before =~= operators@.push(op));
            assert(operators@ + batch@ =~= operators@.push(op) + prev_batch);
        }
        let ghost logged = self.pushed@ + batch@;
        let ghost before = *self;
        self.pending_operations.append(&mut batch);
        self.pushed = Ghost(logged);
        proof {
            if before.well_formed() {
                let n = self.pending().len();
                assert(self.pending() =~= self.log().skip(self.log().len() - n));
            }
        }
    }
}

/// A function middleware specialized for a single function.
pub trait FunctionMiddleware: Send + Sync {
    /// What feeding `operator` to this middleware does to the pending
    /// operators, and what it returns. Unless a middleware says otherwise, it
    /// pushes the operator unchanged and succeeds.
    open spec fn feed_effect<'a>(
        &self,
        operator: Operator<'a>,
        pending_before: Seq<Operator<'a>>,
        pending_after: Seq<Operator<'a>>,
        result: Result<(), ReaderError>,
    ) -> bool {
        result is Ok && pending_after == pending_before.push(operator)
    }

    /// Processes the given operator, doing what `feed_effect` says. A
    /// middleware can only push operators: the bytes and the read position
    /// stay as they are. A middleware that passes the operator on unchanged
    /// pushes it with `state.push_operator(operator)` and returns `Ok(())`,
    /// which is what the default `feed_effect` asks. (There is no default
    /// body: one body checked once for every middleware could not be held to
    /// each middleware's own `feed_effect`.)
    fn feed<'a>(&mut self, operator: Operator<'a>, state: &mut MiddlewareReaderState<'a>) -> (fed: Result<(), ReaderError>)
        ensures
            final(state).bytes() == old(state).bytes(),
            final(state).position() == old(state).position(),
            final(state).original_offset() == old(state).original_offset(),
            old(state).log().len() <= final(state).log().len(),
            final(state).log().subrange(0, old(state).log().len() as int) == old(state).log(),
            old(state).well_formed() ==> final(state).well_formed(),
            old(self).feed_effect(operator, old(state).pending(), final(state).pending(), fed),
        ;
}

/// One run of a stage in a round of a chained read, its calls of `feed` in
/// order, call by call: the middlewares before each call and as each call
/// left them, the operator fed, the operators pending after the call (nothing
/// was pending when the run started), and what the call returned.
pub type StageRun<'a> = (
    Seq<Seq<Box<dyn FunctionMiddleware>>>,
    Seq<Seq<Box<dyn FunctionMiddleware>>>,
    Seq<Operator<'a>>,
    Seq<Seq<Operator<'a>>>,
    Seq<Result<(), ReaderError>>,
);

/// How many calls of `feed` a stage run made.
pub open spec fn run_len<'a>(run: StageRun<'a>) -> nat {
    run.2.len()
}

/// What was pending before call `j` of a stage run.
pub open spec fn pending_before<'a>(run: StageRun<'a>, j: int) -> Seq<Operator<'a>> {
    if j == 0 {
        Seq::empty()
    } else {
        run.3[j - 1]
    }
}

/// What a stage run left pending.
pub open spec fn run_output<'a>(run: StageRun<'a>) -> Seq<Operator<'a>> {
    pending_before(run, run_len(run) as int)
}

/// A stage run ended on a failed call.
pub open spec fn run_failed<'a>(run: StageRun<'a>) -> bool {
    run_len(run) > 0 && run.4.last() is Err
}

/// The middlewares as a stage run, started on `start`, left them.
pub open spec fn run_end<'a>(start: Seq<Box<dyn FunctionMiddleware>>, run: StageRun<'a>) -> Seq<Box<dyn FunctionMiddleware>> {
    if run_len(run) == 0 {
        start
    } else {
        run.1.last()
    }
}

/// The calls of a stage run, started on the middlewares `start`, are calls of
/// the `feed` of stage `i`, one after another: the first is made on `start`
/// and each later one on the middlewares as the call before left them; each
/// does what stage `i`'s `feed_effect` says and leaves the other stages as
/// they were; and every call but the last succeeded.
#[verifier::opaque]
pub open spec fn calls_follow<'a>(start: Seq<Box<dyn FunctionMiddleware>>, i: int, run: StageRun<'a>) -> bool {
    &&& run.0.len() == run_len(run)
    &&& run.1.len() == run_len(run)
    &&& run.3.len() == run_len(run)
    &&& run.4.len() == run_len(run)
    &&& run_len(run) > 0 ==> run.0[0] == start
    &&& forall|j: int| 0 < j < run_len(run) ==> #[trigger] run.0[j] == run.1[j - 1]
    &&& forall|j: int| 0 <= j < run_len(run) ==> #[trigger] run.0[j][i].feed_effect(
        run.2[j],
        pending_before(run, j),
        run.3[j],
        run.4[j],
    )
    &&& forall|j: int| 0 <= j < run_len(run) ==> (#[trigger] run.1[j]).len() == run.0[j].len()
    &&& forall|j: int, k: int|
        0 <= j < run_len(run) && 0 <= k < run.0[j].len() && k != i ==> #[trigger] run.1[j][k] == run.0[j][k]
    &&& forall|j: int| 0 <= j < run_len(run) - 1 ==> #[trigger] run.4[j] is Ok
}

/// After each call of a stage run there are as many middlewares as there
/// were, and those of the other stages are as they were.
proof fn lemma_run_calls_untouched<'a>(start: Seq<Box<dyn FunctionMiddleware>>, i: int, run: StageRun<'a>, k: int, j: int)
    requires
        calls_follow(start, i, run),
        0 <= j < run_len(run),
    ensures
        run.1[j].len() == start.len(),
        0 <= k < start.len() && k != i ==> run.1[j][k] == start[k],
    decreases j,
{
    reveal(calls_follow);
    if j > 0 {
        lemma_run_calls_untouched(start, i, run, k, j - 1);
        assert(run.0[j] == run.1[j - 1]);
    }
    assert(run.1[j].len() == run.0[j].len());
    if 0 <= k < start.len() && k != i {
        assert(run.1[j][k] == run.0[j][k]);
    }
}

/// A stage run leaves as many middlewares as there were, and those of the
/// other stages as they were.
proof fn lemma_run_end_untouched<'a>(start: Seq<Box<dyn FunctionMiddleware>>, i: int, run: StageRun<'a>, k: int)
    requires
        calls_follow(start, i, run),
    ensures
        run_end(start, run).len() == start.len(),
        0 <= k < start.len() && k != i ==> run_end(start, run)[k] == start[k],
{
    reveal(calls_follow);
    if run_len(run) > 0 {
        lemma_run_calls_untouched(start, i, run, k, run_len(run) - 1);
    }
}

/// A stage run fed `input` in order: all of it, or, where it failed, the
/// operators up to and including the one it failed on.
pub open spec fn feeds_in_order<'a>(run: StageRun<'a>, input: Seq<Operator<'a>>) -> bool {
    &&& run_len(run) <= input.len()
    &&& run.2 == input.take(run_len(run) as int)
    &&& !run_failed(run) ==> run_len(run) == input.len()
}

/// What stage `stage` of a round is fed: the raw operator of the round for
/// the first stage, what the previous stage left pending for the others.
pub open spec fn round_input<'a>(raw: Operator<'a>, round: Seq<StageRun<'a>>, stage: int) -> Seq<Operator<'a>> {
    if stage == 0 {
        seq![raw]
    } else {
        run_output(round[stage - 1])
    }
}

/// The middlewares as the runs of `round`, started on `chain`, left them.
pub open spec fn chain_after<'a>(chain: Seq<Box<dyn FunctionMiddleware>>, round: Seq<StageRun<'a>>) -> Seq<Box<dyn FunctionMiddleware>>
    decreases round.len(),
{
    if round.len() == 0 {
        chain
    } else {
        run_end(chain_after(chain, round.drop_last()), round.last())
    }
}

/// Each run of `round` is a run of its stage's `feed` on the middlewares as
/// the runs before it left them.
#[verifier::opaque]
pub open spec fn runs_follow<'a>(chain: Seq<Box<dyn FunctionMiddleware>>, round: Seq<StageRun<'a>>) -> bool {
    forall|i: int| 0 <= i < round.len() ==> calls_follow(chain_after(chain, round.take(i)), i, #[trigger] round[i])
}

/// `round` is what running the raw operator `raw` through the middlewares
/// `chain` does: the stages run in chain order, each a run of calls of its
/// middleware's `feed` (see `runs_follow`), fed in order what it is to be fed
/// (see `round_input`), and every run but the last succeeded.
#[verifier::opaque]
pub open spec fn round_follows<'a>(chain: Seq<Box<dyn FunctionMiddleware>>, raw: Operator<'a>, round: Seq<StageRun<'a>>) -> bool {
    &&& round.len() <= chain.len()
    &&& runs_follow(chain, round)
    &&& forall|i: int| 0 <= i < round.len() ==> feeds_in_order(#[trigger] round[i], round_input(raw, round, i))
    &&& forall|i: int| 0 <= i < round.len() - 1 ==> !run_failed(#[trigger] round[i])
}

/// Runs of the stages before `k` leave as many middlewares as there were,
/// and stage `k` and those after it as they were.
proof fn lemma_chain_after_untouched<'a>(chain: Seq<Box<dyn FunctionMiddleware>>, round: Seq<StageRun<'a>>, k: int)
    requires
        runs_follow(chain, round),
    ensures
        chain_after(chain, round).len() == chain.len(),
        round.len() <= k < chain.len() ==> chain_after(chain, round)[k] == chain[k],
    decreases round.len(),
{
    reveal(runs_follow);
    if round.len() > 0 {
        let shorter = round.drop_last();
        let last = round.len() - 1;
        assert forall|i: int| 0 <= i < shorter.len() implies calls_follow(
            chain_after(chain, shorter.take(i)),
            i,
            #[trigger] shorter[i],
        ) by {
            assert(shorter.take(i) =~= round.take(i));
            assert(calls_follow(chain_after(chain, round.take(i)), i, round[i]));
        }
        lemma_chain_after_untouched(chain, shorter, k);
        assert(round.take(last) =~= shorter);
        assert(calls_follow(chain_after(chain, round.take(last)), last, round[last]));
        lemma_run_end_untouched(chain_after(chain, shorter), last, round.last(), k);
    }
}

/// A round ran every one of `stages` stages without failing, and the last
/// stage left nothing pending.
pub open spec fn round_came_to_nothing<'a>(round: Seq<StageRun<'a>>, stages: nat) -> bool {
    &&& round.len() == stages
    &&& forall|i: int| 0 <= i < stages ==> !run_failed(#[trigger] round[i])
    &&& run_output(round[stages - 1]).len() == 0
}

/// `runs` is what running the raw operators `raws` through the middlewares
/// `chain` gives: a round per raw operator, each following the chain as the
/// rounds before left it (`chains` holds the middlewares at the start of each
/// round), and every round but the last coming to nothing.
#[verifier::opaque]
pub open spec fn chained_runs<'a>(
    chain: Seq<Box<dyn FunctionMiddleware>>,
    raws: Seq<Operator<'a>>,
    runs: Seq<Seq<StageRun<'a>>>,
    chains: Seq<Seq<Box<dyn FunctionMiddleware>>>,
) -> bool {
    &&& chain.len() > 0
    &&& runs.len() == raws.len()
    &&& chains.len() == raws.len()
    &&& runs.len() > 0 ==> chains[0] == chain
    &&& forall|r: int| 0 <= r < runs.len() ==> round_follows(chains[r], raws[r], #[trigger] runs[r])
    &&& forall|r: int| 0 <= r < runs.len() - 1 ==> round_came_to_nothing(#[trigger] runs[r], chain.len())
        && chains[r + 1] == chain_after(chains[r], runs[r])
}

/// The middlewares as the rounds left them.
pub open spec fn chain_now<'a>(
    chain: Seq<Box<dyn FunctionMiddleware>>,
    runs: Seq<Seq<StageRun<'a>>>,
    chains: Seq<Seq<Box<dyn FunctionMiddleware>>>,
) -> Seq<Box<dyn FunctionMiddleware>> {
    if runs.len() == 0 {
        chain
    } else {
        chain_after(chains.last(), runs.last())
    }
}

/// One more call of stage `i`'s `feed`, made where the run's previous call
/// left the middlewares and the pending operators, keeps the run's calls
/// following one another.
proof fn lemma_extend_run<'a>(start: Seq<Box<dyn FunctionMiddleware>>, i: int, run: StageRun<'a>, longer: StageRun<'a>)
    requires
        calls_follow(start, i, run),
        !run_failed(run),
        run_len(longer) == run_len(run) + 1,
        longer.0 == run.0.push(run_end(start, run)),
        longer.1 == run.1.push(longer.1.last()),
        longer.2 == run.2.push(longer.2.last()),
        longer.3 == run.3.push(longer.3.last()),
        longer.4 == run.4.push(longer.4.last()),
        longer.1.last().len() == run_end(start, run).len(),
        forall|k: int| 0 <= k < run_end(start, run).len() && k != i ==> #[trigger] longer.1.last()[k] == run_end(start, run)[k],
        run_end(start, run)[i].feed_effect(longer.2.last(), run_output(run), longer.3.last(), longer.4.last()),
    ensures
        calls_follow(start, i, longer),
        run_output(longer) == longer.3.last(),
        run_end(start, longer) == longer.1.last(),
        run_failed(longer) == longer.4.last() is Err,
{
    reveal(calls_follow);
    let n = run_len(run) as int;
    assert(longer.0[n] == run_end(start, run));
    assert forall|j: int| 0 < j < run_len(longer) implies #[trigger] longer.0[j] == longer.1[j - 1] by {
        if j < n {
            assert(run.0[j] == run.1[j - 1]);
        }
    }
    assert forall|j: int| 0 <= j < run_len(longer) implies #[trigger] longer.0[j][i].feed_effect(
        longer.2[j],
        pending_before(longer, j),
        longer.3[j],
        longer.4[j],
    ) by {
        if j < n {
            assert(run.0[j][i].feed_effect(run.2[j], pending_before(run, j), run.3[j], run.4[j]));
            assert(pending_before(longer, j) == pending_before(run, j));
        } else {
            assert(pending_before(longer, j) == run_output(run));
        }
    }
    assert forall|j: int| 0 <= j < run_len(longer) implies (#[trigger] longer.1[j]).len() == longer.0[j].len() by {
        if j < n {
            assert(run.1[j].len() == run.0[j].len());
        }
    }
    assert forall|j: int, k: int|
        0 <= j < run_len(longer) && 0 <= k < longer.0[j].len() && k != i implies #[trigger] longer.1[j][k]
            == longer.0[j][k] by {
        if j < n {
            assert(run.1[j][k] == run.0[j][k]);
        }
    }
    assert forall|j: int| 0 <= j < run_len(longer) - 1 implies #[trigger] longer.4[j] is Ok by {
        if j < n - 1 {
            assert(run.4[j] is Ok);
        }
    }
}

/// Recording one more stage run, started where the runs before left the
/// middlewares, keeps the runs following one another.
proof fn lemma_extend_runs_follow<'a>(chain: Seq<Box<dyn FunctionMiddleware>>, round: Seq<StageRun<'a>>, run: StageRun<'a>)
    requires
        runs_follow(chain, round),
        calls_follow(chain_after(chain, round), round.len() as int, run),
    ensures
        runs_follow(chain, round.push(run)),
        chain_after(chain, round.push(run)) == run_end(chain_after(chain, round), run),
{
    reveal(runs_follow);
    let longer = round.push(run);
    assert(longer.drop_last() =~= round);
    assert forall|i: int| 0 <= i < longer.len() implies calls_follow(
        chain_after(chain, longer.take(i)),
        i,
        #[trigger] longer[i],
    ) by {
        if i < round.len() {
            assert(longer.take(i) =~= round.take(i));
            assert(longer[i] == round[i]);
        } else {
            assert(longer.take(i) =~= round);
        }
    }
}

/// A round that follows the chain has its runs following one another.
proof fn lemma_round_runs_follow<'a>(chain: Seq<Box<dyn FunctionMiddleware>>, raw: Operator<'a>, round: Seq<StageRun<'a>>)
    requires
        round_follows(chain, raw, round),
    ensures
        runs_follow(chain, round),
        round.len() <= chain.len(),
{
    reveal(round_follows);
}

/// Recording one more stage run, fed what it was to be fed, keeps the round
/// following the chain.
proof fn lemma_extend_round<'a>(
    chain: Seq<Box<dyn FunctionMiddleware>>,
    raw: Operator<'a>,
    round: Seq<StageRun<'a>>,
    run: StageRun<'a>,
)
    requires
        round_follows(chain, raw, round),
        round.len() < chain.len(),
        round.len() > 0 ==> !run_failed(round.last()),
        calls_follow(chain_after(chain, round), round.len() as int, run),
        feeds_in_order(run, round_input(raw, round, round.len() as int)),
    ensures
        round_follows(chain, raw, round.push(run)),
        chain_after(chain, round.push(run)) == run_end(chain_after(chain, round), run),
{
    reveal(round_follows);
    lemma_extend_runs_follow(chain, round, run);
    let longer = round.push(run);
    assert forall|i: int| 0 <= i < longer.len() implies feeds_in_order(
        #[trigger] longer[i],
        round_input(raw, longer, i),
    ) by {
        assert(round_input(raw, longer, i) == round_input(raw, round, i));
    }
    assert forall|i: int| 0 <= i < longer.len() - 1 implies !run_failed(#[trigger] longer[i]) by {
        assert(longer[i] == round[i]);
    }
}

/// One more round, on the middlewares as the rounds before left them, after
/// rounds that came to nothing keeps the runs chained.
proof fn lemma_add_round<'a>(
    chain: Seq<Box<dyn FunctionMiddleware>>,
    raws: Seq<Operator<'a>>,
    runs: Seq<Seq<StageRun<'a>>>,
    chains: Seq<Seq<Box<dyn FunctionMiddleware>>>,
    raw: Operator<'a>,
    round: Seq<StageRun<'a>>,
)
    requires
        chained_runs(chain, raws, runs, chains),
        runs.len() > 0 ==> round_came_to_nothing(runs.last(), chain.len()),
        round_follows(chain_now(chain, runs, chains), raw, round),
    ensures
        chained_runs(chain, raws.push(raw), runs.push(round), chains.push(chain_now(chain, runs, chains))),
        chain_now(chain, runs.push(round), chains.push(chain_now(chain, runs, chains)))
            == chain_after(chain_now(chain, runs, chains), round),
{
    reveal(chained_runs);
    let raws2 = raws.push(raw);
    let runs2 = runs.push(round);
    let chains2 = chains.push(chain_now(chain, runs, chains));
    assert forall|r: int| 0 <= r < runs2.len() implies round_follows(chains2[r], raws2[r], #[trigger] runs2[r]) by {
        if r < runs.len() {
            assert(runs2[r] == runs[r]);
        }
    }
    assert forall|r: int| 0 <= r < runs2.len() - 1 implies round_came_to_nothing(#[trigger] runs2[r], chain.len())
        && chains2[r + 1] == chain_after(chains2[r], runs2[r]) by {
        assert(runs2[r] == runs[r]);
    }
}

/// The start of a read: no rounds yet.
proof fn lemma_no_rounds_yet<'a>(chain: Seq<Box<dyn FunctionMiddleware>>, raws: Seq<Operator<'a>>)
    requires
        chain.len() > 0,
        raws.len() == 0,
    ensures
        chained_runs(chain, raws, Seq::<Seq<StageRun<'a>>>::empty(), Seq::empty()),
{
    reveal(chained_runs);
}

/// The start of a round, or of a stage run: nothing run yet.
proof fn lemma_nothing_run_yet<'a>(chain: Seq<Box<dyn FunctionMiddleware>>, raw: Operator<'a>, i: int)
    ensures
        round_follows(chain, raw, Seq::<StageRun<'a>>::empty()),
        calls_follow(chain, i, (Seq::empty(), Seq::empty(), Seq::<Operator<'a>>::empty(), Seq::empty(), Seq::empty())),
{
    reveal(round_follows);
    reveal(runs_follow);
    reveal(calls_follow);
}

/// A round whose stages all ran, the last one succeeding and leaving nothing
/// pending, came to nothing.
proof fn lemma_round_came_to_nothing<'a>(
    chain: Seq<Box<dyn FunctionMiddleware>>,
    raws: Seq<Operator<'a>>,
    runs: Seq<Seq<StageRun<'a>>>,
    chains: Seq<Seq<Box<dyn FunctionMiddleware>>>,
)
    requires
        chained_runs(chain, raws, runs, chains),
        runs.len() > 0,
        runs.last().len() == chain.len(),
        !run_failed(runs.last().last()),
        run_output(runs.last().last()).len() == 0,
    ensures
        round_came_to_nothing(runs.last(), chain.len()),
{
    reveal(chained_runs);
    reveal(round_follows);
    assert(round_follows(chains[runs.len() - 1], raws[runs.len() - 1], runs[runs.len() - 1]));
}

/// A read through the middlewares `chain`, from `position` in `data` (which
/// start at `offset` in the module) with nothing pending, that read the raw
/// operators `raws`, ran the middlewares as `runs` records (`chains` holding
/// them as they stood at the start of each round), returned `result` and left
/// the reader at `end` with `pending` still queued and the middlewares as
/// `chain_end`: the raw operators are read one after another, each run
/// through every stage in chain order by calls of the stages' `feed`, and
/// - an operator is returned when the last stage of the last round left some
///   pending: the first of them, the rest staying queued;
/// - an error is returned when the last call of `feed` failed with it, or
///   when, every round having come to nothing, reading the next raw operator
///   failed with it.
pub open spec fn chained_read<'a>(
    chain: Seq<Box<dyn FunctionMiddleware>>,
    data: Seq<u8>,
    position: nat,
    offset: nat,
    raws: Seq<Operator<'a>>,
    runs: Seq<Seq<StageRun<'a>>>,
    chains: Seq<Seq<Box<dyn FunctionMiddleware>>>,
    result: Result<Operator<'a>, ReaderError>,
    end: nat,
    pending: Seq<Operator<'a>>,
    chain_end: Seq<Box<dyn FunctionMiddleware>>,
) -> bool {
    let read_to = reads_operators(data, position, offset, raws);
    &&& chained_runs(chain, raws, runs, chains)
    &&& read_to is Some
    &&& chain_end == chain_now(chain, runs, chains)
    &&& match result {
        Ok(op) => {
            &&& runs.len() > 0
            &&& runs.last().len() == chain.len()
            &&& !run_failed(runs.last().last())
            &&& run_output(runs.last().last()).len() > 0
            &&& op == run_output(runs.last().last())[0]
            &&& pending == run_output(runs.last().last()).drop_first()
            &&& end == read_to->Some_0
        },
        Err(e) => {
            ||| runs.len() > 0 && runs.last().len() > 0 && run_failed(runs.last().last())
                && runs.last().last().4.last() == Err::<(), ReaderError>(e) && end == read_to->Some_0
            ||| (runs.len() == 0 || round_came_to_nothing(runs.last(), chain.len())) && pending.len() == 0
                && operator_read_at(data, read_to->Some_0, offset) == (Err::<Operator<'a>, ReaderError>(e), end)
        },
    }
}

/// Feeding any of the middlewares `chain` only ever pushes the operator fed,
/// unchanged, and succeeds.
pub open spec fn all_pass_on(chain: Seq<Box<dyn FunctionMiddleware>>) -> bool {
    forall|k: int, operator: Operator<'static>, before: Seq<Operator<'static>>, after: Seq<Operator<'static>>, result: Result<(), ReaderError>|
        0 <= k < chain.len() && #[trigger] chain[k].feed_effect(operator, before, after, result)
            ==> result is Ok && after == before.push(operator)
}

/// In the first round of a read through middlewares that pass operators on,
/// each stage is fed the raw operator once and leaves just it pending.
proof fn lemma_pass_through_round<'a>(
    chain: Seq<Box<dyn FunctionMiddleware>>,
    raw: Operator<'a>,
    round: Seq<StageRun<'a>>,
    i: int,
)
    requires
        round_follows(chain, raw, round),
        all_pass_on(chain),
        0 <= i < round.len(),
    ensures
        run_len(round[i]) == 1,
        !run_failed(round[i]),
        run_output(round[i]) == seq![raw],
    decreases i,
{
    reveal(round_follows);
    reveal(runs_follow);
    reveal(calls_follow);
    if i > 0 {
        lemma_pass_through_round(chain, raw, round, i - 1);
    }
    let run = round[i];
    let start = chain_after(chain, round.take(i));
    assert(calls_follow(start, i, run));
    assert(feeds_in_order(run, round_input(raw, round, i)));
    assert(round_input(raw, round, i) == seq![raw]);
    assert forall|m: int| 0 <= m < round.take(i).len() implies calls_follow(
        chain_after(chain, round.take(i).take(m)),
        m,
        #[trigger] round.take(i)[m],
    ) by {
        assert(round.take(i).take(m) =~= round.take(m));
    }
    lemma_chain_after_untouched(chain, round.take(i), i);
    assert(run_len(run) > 0);
    assert(run.0[0] == start);
    assert(run.0[0][i].feed_effect(run.2[0], pending_before(run, 0), run.3[0], run.4[0]));
    assert(chain[i].feed_effect(run.2[0], pending_before(run, 0), run.3[0], run.4[0]));
    assert(run.2[0] == seq![raw][0]);
    assert(pending_before(run, 0).push(raw) =~= seq![raw]);
}

/// A read through middlewares that, as they stand before the read, only pass
/// operators on is a plain read: it gives the operator or the error that
/// reading the bytes gives, leaves the reader where that read does, and
/// leaves nothing pending.
pub proof fn lemma_pass_through_reads_plainly<'a>(
    chain: Seq<Box<dyn FunctionMiddleware>>,
    data: Seq<u8>,
    position: nat,
    offset: nat,
    raws: Seq<Operator<'a>>,
    runs: Seq<Seq<StageRun<'a>>>,
    chains: Seq<Seq<Box<dyn FunctionMiddleware>>>,
    result: Result<Operator<'a>, ReaderError>,
    end: nat,
    pending: Seq<Operator<'a>>,
    chain_end: Seq<Box<dyn FunctionMiddleware>>,
)
    requires
        chained_read(chain, data, position, offset, raws, runs, chains, result, end, pending, chain_end),
        all_pass_on(chain),
    ensures
        operator_read_at(data, position, offset) == (result, end),
        pending.len() == 0,
{
    reveal(chained_runs);
    if runs.len() > 0 {
        let last = runs.len() - 1;
        assert(round_follows(chains[0], raws[0], runs[0]));
        if runs.len() > 1 {
            assert(round_came_to_nothing(runs[0], chain.len()));
            lemma_pass_through_round(chain, raws[0], runs[0], chain.len() - 1);
            assert(false);
        }
        if runs[last].len() > 0 {
            lemma_pass_through_round(chain, raws[0], runs[0], runs[last].len() - 1);
        }
        assert(raws.drop_last() =~= Seq::<Operator<'a>>::empty());
        assert(reads_operators(data, position, offset, raws.drop_last()) == Some(position));
        match result {
            Ok(op) => {
                assert(op == raws[0]);
                assert(pending =~= Seq::<Operator<'a>>::empty());
            },
            Err(e) => {
                assert(round_came_to_nothing(runs.last(), chain.len()));
                assert(false);
            },
        }
    } else {
        assert(raws =~= Seq::<Operator<'a>>::empty());
    }
}

/// A middleware binary reader of the WebAssembly structures and types.
pub struct MiddlewareBinaryReader<'a> {
    state: MiddlewareReaderState<'a>,
    chain: Vec<Box<dyn FunctionMiddleware>>,
    trace: Ghost<(Seq<Operator<'a>>, Seq<Seq<StageRun<'a>>>, Seq<Seq<Box<dyn FunctionMiddleware>>>)>,
}

/// A reader error, as a code generation error carrying its message.
pub fn to_compile_error(error: ReaderError) -> (converted: CompileError)
    ensures
        converted == CompileError::Codegen(error.message),
{
    CompileError::Codegen(error.message)
}

impl<'a> MiddlewareBinaryReader<'a> {
    /// The parsing state.
    pub closed spec fn state(&self) -> MiddlewareReaderState<'a> {
        self.state
    }

    /// The middleware chain, first stage first.
    pub closed spec fn chain(&self) -> Seq<Box<dyn FunctionMiddleware>> {
        self.chain@
    }

    /// How many middlewares the chain has.
    pub open spec fn chain_len(&self) -> nat {
        self.chain().len()
    }

    /// The raw operators that the last read through the chain took from the
    /// bytes, in order.
    pub closed spec fn raw_operators(&self) -> Seq<Operator<'a>> {
        self.trace@.0
    }

    /// The stage runs of the last read through the chain: a round per raw
    /// operator, a run per stage in chain order.
    pub closed spec fn stage_runs(&self) -> Seq<Seq<StageRun<'a>>> {
        self.trace@.1
    }

    /// The middlewares as they stood at the start of each round of the last
    /// read through the chain.
    pub closed spec fn round_chains(&self) -> Seq<Seq<Box<dyn FunctionMiddleware>>> {
        self.trace@.2
    }

    /// Constructs a `MiddlewareBinaryReader` with an explicit starting offset.
    pub fn new_with_offset(data: &'a [u8], original_offset: usize) -> (reader: Self)
        requires
            original_offset + data@.len() <= usize::MAX,
        ensures
            reader.state().well_formed(),
            reader.state().bytes() == data@,
            reader.state().position() == 0,
            reader.state().original_offset() == original_offset,
            reader.state().pending() == Seq::<Operator<'a>>::empty(),
            reader.state().log() == Seq::<Operator<'a>>::empty(),
            reader.chain_len() == 0,
    {
        assert(Seq::<Operator<'a>>::empty().skip(0) =~= Seq::<Operator<'a>>::empty());
        Self {
            state: MiddlewareReaderState {
                data,
                position: 0,
                original_offset,
                pending_operations: VecDeque::new(),
                pushed: Ghost(Seq::empty()),
            },
            chain: Vec::new(),
            trace: Ghost((Seq::empty(), Seq::empty(), Seq::empty())),
        }
    }

    /// Replaces the middleware chain with a new one.
    pub fn set_middleware_chain(&mut self, stages: Vec<Box<dyn FunctionMiddleware>>)
        ensures
            final(self).state() == old(self).state(),
            final(self).chain() == stages@,
    {
        self.chain = stages;
    }

    /// Read a `count` indicating the number of times to call `read_local_decl`.
    pub fn read_local_count(&mut self) -> (count: Result<u32, ReaderError>)
        requires
            old(self).state().well_formed(),
        ensures
            final(self).state().well_formed(),
            final(self).state().bytes() == old(self).state().bytes(),
            final(self).state().original_offset() == old(self).state().original_offset(),
            final(self).state().pending() == old(self).state().pending(),
            final(self).state().log() == old(self).state().log(),
            final(self).chain() == old(self).chain(),
            old(self).state().position() <= final(self).state().position(),
            match count {
                Ok(n) => var_u32_at(old(self).state().remaining(), 0) == Some(
                    (n as nat, (final(self).state().position() - old(self).state().position()) as nat),
                ),
                Err(e) => var_u32_at(old(self).state().remaining(), 0) is None && error_matches(
                    e,
                    var_u32_failure(
                        old(self).state().remaining(),
                        old(self).state().original_offset() + old(self).state().position(),
                    ),
                ) && final(self).state().position() == old(self).state().position()
                    + var_u32_stop(old(self).state().remaining(), 0).1,
            },
    {
        let (count, position) = wasm_read_var_u32(self.state.data, self.state.position, self.state.original_offset);
        self.state.position = position;
        count
    }

    /// Read a `(count, value_type)` declaration of local variables of the same type.
    pub fn read_local_decl(&mut self) -> (declaration: Result<(u32, ValType), ReaderError>)
        requires
            old(self).state().well_formed(),
        ensures
            final(self).state().well_formed(),
            final(self).state().bytes() == old(self).state().bytes(),
            final(self).state().original_offset() == old(self).state().original_offset(),
            final(self).state().pending() == old(self).state().pending(),
            final(self).state().log() == old(self).state().log(),
            final(self).chain() == old(self).chain(),
            old(self).state().position() <= final(self).state().position(),
            match declaration {
                Ok((n, ty)) => exists|l: nat| {
                    &&& var_u32_at(old(self).state().remaining(), 0) == Some((n as nat, l))
                    &&& value_type_at(old(self).state().remaining().skip(l as int)) == Some(ty)
                    &&& final(self).state().position() == old(self).state().position() + l + 1
                },
                Err(e) => match var_u32_at(old(self).state().remaining(), 0) {
                    None => error_matches(
                        e,
                        var_u32_failure(
                            old(self).state().remaining(),
                            old(self).state().original_offset() + old(self).state().position(),
                        ),
                    ) && final(self).state().position() == old(self).state().position()
                        + var_u32_stop(old(self).state().remaining(), 0).1,
                    Some((_, l)) => value_type_at(old(self).state().remaining().skip(l as int)) is None
                        && error_matches(
                        e,
                        type_failure(
                            old(self).state().remaining().skip(l as int),
                            old(self).state().original_offset() + old(self).state().position() + l,
                        ),
                    ) && final(self).state().position() == old(self).state().position() + l
                        + type_stop(old(self).state().remaining().skip(l as int)),
                },
            },
    {
        let ghost start = self.state.remaining();
        let count = match self.read_local_count() {
            Ok(count) => count,
            Err(e) => {
                return Err(e);
            },
        };
        let ghost l = (self.state.position() - old(self).state().position()) as nat;
        assert(self.state.remaining() =~= start.skip(l as int));
        let (ty, position) = wasm_read_type(self.state.data, self.state.position, self.state.original_offset);
        self.state.position = position;
        match ty {
            Ok(ty) => Ok((count, ty)),
            Err(e) => Err(e),
        }
    }

    /// Reads the next available `Operator`. Without a middleware chain the
    /// raw operator is returned. With one, pending operators are handed out
    /// first; when there are none, raw operators are read and run through
    /// every stage, the output of each stage feeding the next, until the last
    /// stage leaves some operator pending; the first of those is returned.
    /// An error from reading or from a stage ends the read and is returned.
    pub fn read_operator(&mut self) -> (operator: Result<Operator<'a>, ReaderError>)
        requires
            old(self).state().well_formed(),
        ensures
            final(self).state().well_formed(),
            final(self).state().bytes() == old(self).state().bytes(),
            final(self).state().original_offset() == old(self).state().original_offset(),
            final(self).chain_len() == old(self).chain_len(),
            old(self).state().position() <= final(self).state().position(),
            old(self).state().log().len() <= final(self).state().log().len(),
            final(self).state().log().subrange(0, old(self).state().log().len() as int)
                == old(self).state().log(),
            old(self).chain_len() == 0 ==> {
                &&& final(self).state().pending() == old(self).state().pending()
                &&& final(self).state().log() == old(self).state().log()
                &&& operator_read_at(
                    old(self).state().bytes(),
                    old(self).state().position(),
                    old(self).state().original_offset(),
                ) == (operator, final(self).state().position())
            },
            old(self).chain_len() > 0 && old(self).state().pending().len() > 0 ==> {
                &&& operator == Ok::<Operator<'a>, ReaderError>(old(self).state().pending()[0])
                &&& final(self).state().pending() == old(self).state().pending().drop_first()
                &&& final(self).state().log() == old(self).state().log()
                &&& final(self).state().position() == old(self).state().position()
                &&& final(self).chain() == old(self).chain()
            },
            old(self).chain_len() > 0 && old(self).state().pending().len() == 0 ==> chained_read(
                old(self).chain(),
                old(self).state().bytes(),
                old(self).state().position(),
                old(self).state().original_offset(),
                final(self).raw_operators(),
                final(self).stage_runs(),
                final(self).round_chains(),
                operator,
                final(self).state().position(),
                final(self).state().pending(),
                final(self).chain(),
            ),
    {
        if self.chain.len() == 0 {
            let (operator, position) = wasm_read_operator(
                self.state.data,
                self.state.position,
                self.state.original_offset,
            );
            self.state.position = position;
            return operator;
        }
        if self.state.pending_operations.len() > 0 {
            let ghost n = self.state.pending().len();
            let ghost log = self.state.log();
            let operator = self.state.pending_operations.pop_front().unwrap();
            assert(self.state.pending() =~= log.skip(log.len() - (n - 1)));
            return Ok(operator);
        }
        self.trace = Ghost((Seq::empty(), Seq::empty(), Seq::empty()));
        proof {
            lemma_no_rounds_yet(self.chain@, self.raw_operators());
        }
        let ghost data = self.state.bytes();
        let ghost offset = self.state.original_offset();
        let ghost start = self.state.position();
        let ghost start_log = self.state.log();
        let ghost chain = self.chain@;
        while self.state.pending_operations.len() == 0
            invariant
                self.state.well_formed(),
                self.state.bytes() == data,
                self.state.original_offset() == offset,
                data == old(self).state().bytes(),
                offset == old(self).state().original_offset(),
                start == old(self).state().position(),
                start_log == old(self).state().log(),
                old(self).state().pending().len() == 0,
                chain == old(self).chain(),
                chain.len() > 0,
                self.chain@ == chain_now(chain, self.stage_runs(), self.round_chains()),
                self.chain@.len() == chain.len(),
                start <= self.state.position(),
                start_log.len() <= self.state.log().len(),
                self.state.log().subrange(0, start_log.len() as int) == start_log,
                chained_runs(chain, self.raw_operators(), self.stage_runs(), self.round_chains()),
                reads_operators(data, start, offset, self.raw_operators()) == Some(self.state.position()),
                self.stage_runs().len() == 0 ==> self.state.pending().len() == 0,
                self.stage_runs().len() > 0 ==> {
                    &&& self.stage_runs().last().len() == chain.len()
                    &&& !run_failed(self.stage_runs().last().last())
                    &&& run_output(self.stage_runs().last().last()) == self.state.pending()
                },
            decreases data.len() - self.state.position(),
        {
            let (read, position) = wasm_read_operator(
                self.state.data,
                self.state.position,
                self.state.original_offset,
            );
            self.state.position = position;
            proof {
                if self.stage_runs().len() > 0 {
                    lemma_round_came_to_nothing(chain, self.raw_operators(), self.stage_runs(), self.round_chains());
                }
            }
            let raw = match read {
                Ok(operator) => operator,
                Err(e) => {
                    return Err(e);
                },
            };
            let ghost raws = self.raw_operators();
            let ghost runs = self.stage_runs();
            let ghost chains = self.round_chains();
            assert(raws.push(raw).drop_last() =~= raws);
            let ran = self.run_chain(raw);
            proof {
                lemma_add_round(chain, raws, runs, chains, raw, self.stage_runs().last());
                assert(self.stage_runs() =~= runs.push(self.stage_runs().last()));
            }
            match ran {
                Ok(()) => {},
                Err(e) => {
                    return Err(e);
                },
            }
        }
        let ghost n = self.state.pending().len();
        let ghost log = self.state.log();
        let operator = self.state.pending_operations.pop_front().unwrap();
        assert(self.state.pending() =~= log.skip(log.len() - (n - 1)));
        Ok(operator)
    }

    /// Runs `raw` through every stage of the chain, in chain order: the first
    /// stage's `feed` is called on `raw`, each later stage's, in order, on the
    /// operators that the stage before it left pending. The first error from
    /// a stage ends the round and is returned. The round is recorded after
    /// those of the read so far.
    pub fn run_chain(&mut self, raw: Operator<'a>) -> (ran: Result<(), ReaderError>)
        requires
            old(self).state().well_formed(),
            old(self).state().pending().len() == 0,
            old(self).chain_len() > 0,
        ensures
            final(self).state().well_formed(),
            final(self).state().bytes() == old(self).state().bytes(),
            final(self).state().original_offset() == old(self).state().original_offset(),
            final(self).state().position() == old(self).state().position(),
            old(self).state().log().len() <= final(self).state().log().len(),
            final(self).state().log().subrange(0, old(self).state().log().len() as int)
                == old(self).state().log(),
            final(self).raw_operators() == old(self).raw_operators().push(raw),
            final(self).stage_runs().len() == old(self).stage_runs().len() + 1,
            final(self).stage_runs().drop_last() == old(self).stage_runs(),
            final(self).round_chains() == old(self).round_chains().push(old(self).chain()),
            round_follows(old(self).chain(), raw, final(self).stage_runs().last()),
            final(self).chain() == chain_after(old(self).chain(), final(self).stage_runs().last()),
            final(self).chain_len() == old(self).chain_len(),
            match ran {
                Ok(()) => {
                    &&& final(self).stage_runs().last().len() == old(self).chain_len()
                    &&& !run_failed(final(self).stage_runs().last().last())
                    &&& run_output(final(self).stage_runs().last().last()) == final(self).state().pending()
                },
                Err(e) => {
                    &&& final(self).stage_runs().last().len() > 0
                    &&& run_failed(final(self).stage_runs().last().last())
                    &&& final(self).stage_runs().last().last().4.last() == Err::<(), ReaderError>(e)
                },
            },
    {
        let ghost start_log = self.state.log();
        let ghost chain = self.chain@;
        let ghost position = self.state.position();
        let ghost raws = self.raw_operators();
        let ghost runs = self.stage_runs();
        let ghost chains = self.round_chains();
        let ghost mut round: Seq<StageRun<'a>> = Seq::empty();
        let ghost log_before_push = self.state.log();
        self.state.push_operator(raw);
        assert(self.state.log().subrange(0, start_log.len() as int) =~= log_before_push.subrange(0, start_log.len() as int));
        assert(self.state.pending() =~= seq![raw]);
        proof {
            lemma_nothing_run_yet(chain, raw, 0);
        }
        let mut i: usize = 0;
        while i < self.chain.len()
            invariant
                self.state.well_formed(),
                self.state.bytes() == old(self).state().bytes(),
                self.state.original_offset() == old(self).state().original_offset(),
                self.state.position() == position,
                position == old(self).state().position(),
                start_log == old(self).state().log(),
                chain == old(self).chain(),
                chain.len() > 0,
                self.chain@ == chain_after(chain, round),
                self.chain@.len() == chain.len(),
                raws == old(self).raw_operators(),
                runs == old(self).stage_runs(),
                chains == old(self).round_chains(),
                self.trace == old(self).trace,
                start_log.len() <= self.state.log().len(),
                self.state.log().subrange(0, start_log.len() as int) == start_log,
                round_follows(chain, raw, round),
                round.len() == i,
                i <= chain.len(),
                i > 0 ==> !run_failed(round.last()),
                i == 0 ==> self.state.pending() == seq![raw],
                i > 0 ==> self.state.pending() == run_output(round.last()),
            decreases chain.len() - i,
        {
            let ghost input = self.state.pending();
            assert(input == round_input(raw, round, i as int));
            let ghost cur = self.chain@;
            proof {
                lemma_round_runs_follow(chain, raw, round);
                lemma_chain_after_untouched(chain, round, i as int);
            }
            let mut batch = take_pending(&mut self.state.pending_operations);
            assert(self.state.pending() =~= self.state.log().skip(self.state.log().len() - 0));
            let ghost mut run: StageRun<'a> = (Seq::empty(), Seq::empty(), Seq::empty(), Seq::empty(), Seq::empty());
            proof {
                lemma_nothing_run_yet(cur, raw, i as int);
            }
            assert(run.2 + batch_operators(batch) =~= input);
            while !batch_is_empty(&batch)
                invariant
                    self.state.well_formed(),
                    self.state.bytes() == old(self).state().bytes(),
                    self.state.original_offset() == old(self).state().original_offset(),
                    self.state.position() == position,
                    position == old(self).state().position(),
                    start_log == old(self).state().log(),
                    chain == old(self).chain(),
                    chain.len() > 0,
                    cur == chain_after(chain, round),
                    cur.len() == chain.len(),
                    self.chain@ == run_end(cur, run),
                    self.chain@.len() == chain.len(),
                    raws == old(self).raw_operators(),
                    runs == old(self).stage_runs(),
                    chains == old(self).round_chains(),
                    self.trace == old(self).trace,
                    start_log.len() <= self.state.log().len(),
                    self.state.log().subrange(0, start_log.len() as int) == start_log,
                    round_follows(chain, raw, round),
                    round.len() == i,
                    i < chain.len(),
                    i > 0 ==> !run_failed(round.last()),
                    input == round_input(raw, round, i as int),
                    run.2 + batch_operators(batch) == input,
                    calls_follow(cur, i as int, run),
                    !run_failed(run),
                    self.state.pending() == run_output(run),
                decreases batch_operators(batch).len(),
            {
                let ghost rest = batch_operators(batch);
                let operator = batch_take_first(&mut batch);
                let ghost log_before = self.state.log();
                let ghost chain_before = self.chain@;
                let mut stage = self.chain.remove(i);
                let fed_result = stage.feed(operator, &mut self.state);
                self.chain.insert(i, stage);
                let ghost longer: StageRun<'a> = (
                    run.0.push(chain_before),
                    run.1.push(self.chain@),
                    run.2.push(operator),
                    run.3.push(self.state.pending()),
                    run.4.push(fed_result),
                );
                proof {
                    chain_before.remove_ensures(i as int);
                    chain_before.remove(i as int).insert_ensures(i as int, stage);
                    assert(self.state.log().subrange(0, start_log.len() as int) =~= log_before.subrange(0, start_log.len() as int));
                    assert(rest[0] == operator);
                    assert(longer.2 + batch_operators(batch) =~= run.2 + rest);
                    assert forall|k: int| 0 <= k < chain_before.len() && k != i implies #[trigger] self.chain@[k]
                        == chain_before[k] by {
                        if k < i {
                            assert(chain_before.remove(i as int)[k] == chain_before[k]);
                        } else {
                            assert(chain_before.remove(i as int)[k - 1] == chain_before[k]);
                        }
                    }
                    lemma_extend_run(cur, i as int, run, longer);
                    run = longer;
                }
                match fed_result {
                    Ok(()) => {},
                    Err(e) => {
                        proof {
                            assert(run.2 =~= input.take(run_len(run) as int));
                            lemma_extend_round(chain, raw, round, run);
                            assert(round.push(run).drop_last() =~= round);
                            round = round.push(run);
                        }
                        self.trace = Ghost((raws.push(raw), runs.push(round), chains.push(chain)));
                        assert(self.stage_runs().drop_last() =~= runs);
                        return Err(e);
                    },
                }
            }
            proof {
                assert(run.2 =~= input);
                assert(run.2 =~= input.take(run_len(run) as int));
                lemma_extend_round(chain, raw, round, run);
                round = round.push(run);
            }
            i = i + 1;
        }
        self.trace = Ghost((raws.push(raw), runs.push(round), chains.push(chain)));
        assert(self.stage_runs().drop_last() =~= runs);
        Ok(())
    }

    /// Returns the inner reader's current position.
    pub fn current_position(&self) -> (position: usize)
        ensures
            position == self.state().position(),
    {
        self.state.position
    }

    /// Returns the inner reader's original position (with the offset).
    pub fn original_position(&self) -> (position: usize)
        requires
            self.state().well_formed(),
        ensures
            position == self.state().original_offset() + self.state().position(),
    {
        self.state.original_offset + self.state.position
    }

    /// Returns the number of bytes remaining in the inner reader.
    pub fn bytes_remaining(&self) -> (remaining: usize)
        requires
            self.state().well_formed(),
        ensures
            remaining == self.state().bytes().len() - self.state().position(),
    {
        self.state.data.len() - self.state.position
    }

    /// Returns the number of bytes in the inner reader.
    pub fn len(&self) -> (length: usize)
        requires
            self.state().well_formed(),
        ensures
            length == self.state().bytes().len(),
    {
        self.state.data.len()
    }

    /// Returns whether the inner reader has reached the end of the bytes.
    pub fn eof(&self) -> (at_end: bool)
        ensures
            at_end == (self.state().position() >= self.state().bytes().len()),
    {
        self.state.position >= self.state.data.len()
    }
}

/// Reads the local declarations at the start of a function body, as
/// compiling a function starts with: the count of declarations, then each
/// `(count, type)` declaration, expanded into one entry per local (arguments
/// excluded). A malformed declaration is a code generation error.
pub fn read_function_locals(reader: &mut MiddlewareBinaryReader<'_>) -> (locals: Result<Vec<ValType>, CompileError>)
    requires
        old(reader).state().well_formed(),
    ensures
        final(reader).state().well_formed(),
        final(reader).state().bytes() == old(reader).state().bytes(),
        final(reader).state().original_offset() == old(reader).state().original_offset(),
        final(reader).state().pending() == old(reader).state().pending(),
        final(reader).chain() == old(reader).chain(),
        match function_locals_at(old(reader).state().remaining()) {
            Some((expected, length)) => locals matches Ok(found) && found@ == expected
                && final(reader).state().position() == old(reader).state().position() + length,
            None => function_locals_failure(
                old(reader).state().remaining(),
                old(reader).state().original_offset() + old(reader).state().position(),
            ) matches Some(failure) && locals matches Err(CompileError::Codegen(message)) && message@ == failure.0,
        },
{
    let ghost start = reader.state().remaining();
    let ghost base = reader.state().original_offset();
    let ghost p0 = reader.state().position();
    let count = match reader.read_local_count() {
        Ok(count) => count,
        Err(e) => {
            return Err(to_compile_error(e));
        },
    };
    let ghost p1 = reader.state().position();
    let ghost after_count = reader.state().remaining();
    assert(after_count =~= start.skip((p1 - p0) as int));
    let mut declarations: Vec<(u32, ValType)> = Vec::new();
    let mut k: u32 = 0;
    while k < count
        invariant
            k <= count,
            reader.state().well_formed(),
            reader.state().bytes() == old(reader).state().bytes(),
            reader.state().original_offset() == old(reader).state().original_offset(),
            reader.state().pending() == old(reader).state().pending(),
            reader.chain() == old(reader).chain(),
            p1 <= reader.state().position(),
            p0 == old(reader).state().position(),
            p0 <= p1,
            start == old(reader).state().remaining(),
            var_u32_at(start, 0) == Some((count as nat, (p1 - p0) as nat)),
            after_count == start.skip((p1 - p0) as int),
            after_count == reader.state().bytes().skip(p1 as int),
            base == reader.state().original_offset(),
            k < count ==> local_declarations_failure(after_count, base + p1, count as nat)
                == local_declarations_failure(
                reader.state().remaining(),
                base + reader.state().position(),
                (count - k) as nat,
            ),
            local_declarations_at(after_count, count as nat) == match local_declarations_at(
                reader.state().remaining(),
                (count - k) as nat,
            ) {
                Some((rest, m)) => Some((declarations@ + rest, ((reader.state().position() - p1) + m) as nat)),
                None => None,
            },
        decreases count - k,
    {
        let ghost here = reader.state().remaining();
        let ghost pos = reader.state().position();
        let declaration = match reader.read_local_decl() {
            Ok(declaration) => declaration,
            Err(e) => {
                assert(local_declarations_at(here, (count - k) as nat) is None);
                assert(function_locals_at(start) is None);
                assert(local_declarations_failure(here, base + pos, (count - k) as nat) matches Some(f)
                    && error_matches(e, f));
                assert(function_locals_failure(start, base + p0) == local_declarations_failure(
                    after_count, base + p1, count as nat));
                return Err(to_compile_error(e));
            },
        };
        let ghost l = (reader.state().position() - pos - 1) as nat;
        assert(reader.state().remaining() =~= here.skip(l + 1 as int));
        let ghost prev = declarations@;
        declarations.push(declaration);
        k = k + 1;
        proof {
            match local_declarations_at(reader.state().remaining(), (count - k) as nat) {
                Some((rest, m)) => {
                    assert(declarations@ + rest =~= prev + (seq![declaration] + rest));
                },
                None => {},
            }
        }
    }
    assert(declarations@ + Seq::<(u32, ValType)>::empty() =~= declarations@);
    Ok(expand_local_declarations(declarations.as_slice()))
}

} // verus!
