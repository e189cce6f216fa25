use wasmer_kit::errors::CompileError;
use wasmer_kit::middleware::{
    read_function_locals, to_compile_error, FunctionMiddleware, MiddlewareBinaryReader,
    MiddlewareReaderState, ReaderError, ValType,
};
use wasmparser::Operator;

#[test]
fn locals_are_read_and_expanded() {
    // Two declarations: 1 x i32, 2 x i64; then `end`.
    let body = [0x02, 0x01, 0x7f, 0x02, 0x7e, 0x0b];
    let mut reader = MiddlewareBinaryReader::new_with_offset(&body, 100);
    let locals = read_function_locals(&mut reader).unwrap();
    assert_eq!(locals, vec![ValType::I32, ValType::I64, ValType::I64]);
    assert_eq!(reader.current_position(), 5);
    assert_eq!(reader.original_position(), 105);
    assert_eq!(reader.bytes_remaining(), 1);
    assert!(matches!(reader.read_operator(), Ok(Operator::End)));
    assert!(reader.eof());
}

#[test]
fn multi_byte_counts_are_read() {
    // 1 declaration of 130 f32 locals.
    let body = [0x01, 0x82, 0x01, 0x7d];
    let mut reader = MiddlewareBinaryReader::new_with_offset(&body, 0);
    let locals = read_function_locals(&mut reader).unwrap();
    assert_eq!(locals.len(), 130);
    assert!(locals.iter().all(|t| *t == ValType::F32));
}

#[test]
fn malformed_locals_are_codegen_errors() {
    for body in [&[][..], &[0x01][..], &[0x01, 0x01, 0x55][..], &[0x80, 0x80, 0x80, 0x80, 0x10][..]] {
        let mut reader = MiddlewareBinaryReader::new_with_offset(body, 0);
        assert!(matches!(read_function_locals(&mut reader), Err(CompileError::Codegen(_))));
    }
}

#[test]
fn reader_positions() {
    let body = [0x01, 0x0b, 0x0b];
    let mut reader = MiddlewareBinaryReader::new_with_offset(&body, 7);
    assert_eq!(reader.len(), 3);
    assert_eq!(reader.current_position(), 0);
    assert_eq!(reader.original_position(), 7);
    assert!(!reader.eof());
    assert!(matches!(reader.read_operator(), Ok(Operator::Nop)));
    assert_eq!(reader.bytes_remaining(), 2);
    assert_eq!(reader.read_local_count().unwrap(), 0x0b);
    assert_eq!(reader.current_position(), 2);
}

#[test]
fn declaration_reads_count_then_type() {
    let body = [0x03, 0x7c, 0x01, 0x99];
    let mut reader = MiddlewareBinaryReader::new_with_offset(&body, 0);
    assert_eq!(reader.read_local_decl().unwrap(), (3, ValType::F64));
    assert!(reader.read_local_decl().is_err());
}

/// Emits every operator twice.
struct Doubler;

impl FunctionMiddleware for Doubler {
    fn feed<'a>(
        &mut self,
        operator: Operator<'a>,
        state: &mut MiddlewareReaderState<'a>,
    ) -> Result<(), ReaderError> {
        state.push_operator(operator.clone());
        state.push_operator(operator);
        Ok(())
    }
}

/// Drops `nop` operators.
struct DropNops;

impl FunctionMiddleware for DropNops {
    fn feed<'a>(
        &mut self,
        operator: Operator<'a>,
        state: &mut MiddlewareReaderState<'a>,
    ) -> Result<(), ReaderError> {
        if !matches!(operator, Operator::Nop) {
            state.extend(vec![operator]);
        }
        Ok(())
    }
}

/// Passes operators through unchanged.
struct Passthrough;

impl FunctionMiddleware for Passthrough {
    fn feed<'a>(
        &mut self,
        operator: Operator<'a>,
        state: &mut MiddlewareReaderState<'a>,
    ) -> Result<(), ReaderError> {
        state.push_operator(operator);
        Ok(())
    }
}

#[test]
fn middleware_chain_rewrites_operators() {
    // nop, drop, end
    let body = [0x01, 0x1a, 0x0b];
    let mut reader = MiddlewareBinaryReader::new_with_offset(&body, 0);
    reader.set_middleware_chain(vec![Box::new(DropNops), Box::new(Doubler), Box::new(Passthrough)]);
    assert!(matches!(reader.read_operator(), Ok(Operator::Drop)));
    assert_eq!(reader.current_position(), 2);
    assert!(matches!(reader.read_operator(), Ok(Operator::Drop)));
    assert_eq!(reader.current_position(), 2);
    assert!(matches!(reader.read_operator(), Ok(Operator::End)));
    assert!(matches!(reader.read_operator(), Ok(Operator::End)));
    assert!(reader.read_operator().is_err());
}

#[test]
fn reading_past_the_end_fails() {
    let mut reader = MiddlewareBinaryReader::new_with_offset(&[], 0);
    assert!(reader.read_operator().is_err());
    assert!(reader.read_local_count().is_err());
}

#[test]
fn reader_errors_carry_message_and_offset() {
    let mut reader = MiddlewareBinaryReader::new_with_offset(&[0x01, 0x01, 0x55], 40);
    let error = read_function_locals(&mut reader).unwrap_err();
    let mut reader = MiddlewareBinaryReader::new_with_offset(&[0x01, 0x55], 40);
    let raw = reader.read_local_decl().unwrap_err();
    assert_eq!(raw.offset, 41);
    assert!(!raw.message.is_empty());
    assert_eq!(to_compile_error(raw.clone()), CompileError::Codegen(raw.message));
    assert!(matches!(error, CompileError::Codegen(m) if !m.is_empty()));
}

#[test]
fn passthrough_stages_pass_operators_on() {
    let body = [0x01, 0x0b];
    let mut reader = MiddlewareBinaryReader::new_with_offset(&body, 0);
    reader.set_middleware_chain(vec![Box::new(Passthrough), Box::new(Passthrough)]);
    assert!(matches!(reader.read_operator(), Ok(Operator::Nop)));
    assert!(matches!(reader.read_operator(), Ok(Operator::End)));
}

#[test]
fn passthrough_chain_reads_like_no_chain() {
    // i32.const 5, drop, nop, end, then a truncated i32.const.
    let body = [0x41, 0x05, 0x1a, 0x01, 0x0b, 0x41];
    let mut plain = MiddlewareBinaryReader::new_with_offset(&body, 3);
    let mut chained = MiddlewareBinaryReader::new_with_offset(&body, 3);
    chained.set_middleware_chain(vec![Box::new(Passthrough), Box::new(Passthrough)]);
    for _ in 0..5 {
        let a = plain.read_operator();
        let b = chained.read_operator();
        assert_eq!(format!("{:?}", a), format!("{:?}", b));
        assert_eq!(plain.current_position() <= body.len(), true);
    }
    assert!(plain.read_operator().is_err());
}

#[test]
fn unchained_reads_match_the_wasm_reader() {
    // nop; br_table with one over-long target and default 0; end; then a truncated i32.const.
    let body = [0x01, 0x0e, 0x01, 0x80, 0x80, 0x80, 0x80, 0x7f, 0x00, 0x0b, 0x41];
    let mut ours = MiddlewareBinaryReader::new_with_offset(&body, 100);
    let mut theirs = wasmparser::BinaryReader::new_with_offset(&body, 100);
    for _ in 0..4 {
        match (ours.read_operator(), theirs.read_operator()) {
            (Ok(a), Ok(b)) => assert_eq!(format!("{:?}", a), format!("{:?}", b)),
            (Err(a), Err(b)) => {
                assert_eq!(a.message, b.message());
                assert_eq!(a.offset, b.offset());
            }
            (a, b) => panic!("{:?} against {:?}", a, b),
        }
        assert_eq!(ours.current_position(), theirs.current_position());
        assert_eq!(ours.original_position(), theirs.original_position());
    }
    assert!(ours.eof());
}

#[test]
fn count_errors_report_where_reading_stopped() {
    let mut reader = MiddlewareBinaryReader::new_with_offset(&[0x80], 10);
    let error = reader.read_local_count().unwrap_err();
    assert_eq!(error.message, "Unexpected EOF");
    assert_eq!(error.offset, 11);
    assert_eq!(reader.current_position(), 1);

    let mut reader = MiddlewareBinaryReader::new_with_offset(&[0x80, 0x80, 0x80, 0x80, 0x10, 0x00], 10);
    let error = reader.read_local_count().unwrap_err();
    assert_eq!(error.message, "Invalid var_u32");
    assert_eq!(error.offset, 14);
    assert_eq!(reader.current_position(), 5);
}

#[test]
fn declaration_type_errors_report_where_reading_stopped() {
    let mut reader = MiddlewareBinaryReader::new_with_offset(&[0x01, 0x80], 0);
    let error = reader.read_local_decl().unwrap_err();
    assert_eq!(error.message, "Invalid var_i7");
    assert_eq!(error.offset, 1);
    assert_eq!(reader.current_position(), 2);

    let mut reader = MiddlewareBinaryReader::new_with_offset(&[0x01], 0);
    let error = reader.read_local_decl().unwrap_err();
    assert_eq!(error.message, "Unexpected EOF");
    assert_eq!(error.offset, 1);
    assert_eq!(reader.current_position(), 1);

    let mut reader = MiddlewareBinaryReader::new_with_offset(&[0x01, 0x55], 40);
    let error = read_function_locals(&mut reader).unwrap_err();
    assert_eq!(error, CompileError::Codegen("Unexpected EOF".to_string()));
}

/// Turns `drop` into `nop`.
struct DropToNop;

impl FunctionMiddleware for DropToNop {
    fn feed<'a>(
        &mut self,
        operator: Operator<'a>,
        state: &mut MiddlewareReaderState<'a>,
    ) -> Result<(), ReaderError> {
        if matches!(operator, Operator::Drop) {
            state.push_operator(Operator::Nop);
        } else {
            state.push_operator(operator);
        }
        Ok(())
    }
}

#[test]
fn stages_run_in_chain_order() {
    let body = [0x1a, 0x0b];
    let mut first_rewrite = MiddlewareBinaryReader::new_with_offset(&body, 0);
    first_rewrite.set_middleware_chain(vec![Box::new(DropToNop), Box::new(DropNops)]);
    assert!(matches!(first_rewrite.read_operator(), Ok(Operator::End)));
    assert_eq!(first_rewrite.current_position(), 2);

    let mut first_drop = MiddlewareBinaryReader::new_with_offset(&body, 0);
    first_drop.set_middleware_chain(vec![Box::new(DropNops), Box::new(DropToNop)]);
    assert!(matches!(first_drop.read_operator(), Ok(Operator::Nop)));
    assert_eq!(first_drop.current_position(), 1);
}

/// Fails on `end`.
struct RejectEnd;

impl FunctionMiddleware for RejectEnd {
    fn feed<'a>(
        &mut self,
        operator: Operator<'a>,
        state: &mut MiddlewareReaderState<'a>,
    ) -> Result<(), ReaderError> {
        if matches!(operator, Operator::End) {
            return Err(ReaderError { message: "end rejected".to_string(), offset: 77 });
        }
        state.push_operator(operator);
        Ok(())
    }
}

#[test]
fn stage_errors_are_returned_unchanged() {
    let body = [0x01, 0x0b];
    let mut reader = MiddlewareBinaryReader::new_with_offset(&body, 0);
    reader.set_middleware_chain(vec![Box::new(Doubler), Box::new(RejectEnd)]);
    assert!(matches!(reader.read_operator(), Ok(Operator::Nop)));
    assert!(matches!(reader.read_operator(), Ok(Operator::Nop)));
    let error = reader.read_operator().unwrap_err();
    assert_eq!(error, ReaderError { message: "end rejected".to_string(), offset: 77 });
}

#[test]
fn running_the_chain_queues_what_the_last_stage_leaves() {
    let body = [0x0b];
    let mut reader = MiddlewareBinaryReader::new_with_offset(&body, 0);
    reader.set_middleware_chain(vec![Box::new(DropToNop), Box::new(Doubler)]);
    assert!(reader.run_chain(Operator::Drop).is_ok());
    assert_eq!(reader.current_position(), 0);
    assert!(matches!(reader.read_operator(), Ok(Operator::Nop)));
    assert!(matches!(reader.read_operator(), Ok(Operator::Nop)));
    assert_eq!(reader.current_position(), 0);
    assert!(matches!(reader.read_operator(), Ok(Operator::End)));
    assert!(matches!(reader.read_operator(), Ok(Operator::End)));
    assert_eq!(reader.current_position(), 1);
}

#[test]
fn running_the_chain_stops_at_a_failing_stage() {
    let mut reader = MiddlewareBinaryReader::new_with_offset(&[], 0);
    reader.set_middleware_chain(vec![Box::new(RejectEnd), Box::new(Doubler)]);
    let error = reader.run_chain(Operator::End).unwrap_err();
    assert_eq!(error, ReaderError { message: "end rejected".to_string(), offset: 77 });
    assert!(reader.read_operator().is_err());
}
