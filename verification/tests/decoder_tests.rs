use whipsnake::wasm::decoder::{
    decode_code_section, decode_code_section_func_body, decode_function_section,
    decode_module_header, decode_type_section, decode_wasm,
};
use whipsnake::wasm::binary::BinaryReader;
use whipsnake::wasm::{Function, FuncType, Instruction, Module, Opcode, SectionCode, ValueType};

#[test]
fn decode_empty_module() {
    let wasm = wat::parse_str("(module)").expect("unit test input WAT invalid");

    let decoded = decode_wasm(&wasm).unwrap();
    let expected = Module::new();
    assert_eq!(decoded, expected);
}

#[test]
fn decode_empty_single_func_module() {
    let wasm = wat::parse_str("(module (func))").expect("unit test input WAT invalid");

    let decoded = decode_wasm(&wasm).unwrap();

    let mut expected = Module::new();
    expected.type_section = Some(vec![FuncType { params: vec![], results: vec![] }]);
    expected.function_section = Some(vec![0]);
    expected.code_section = Some(vec![Function { locals: vec![], code: vec![Instruction::End] }]);

    assert_eq!(decoded, expected);
}

#[test]
fn decode_module_with_params_and_results() {
    let wasm = wat::parse_str("(module (func (param i32 i64) (result i32) local.get 0))")
        .expect("unit test input WAT invalid");

    let decoded = decode_wasm(&wasm).unwrap();

    let mut expected = Module::new();
    expected.type_section = Some(vec![FuncType {
        params: vec![ValueType::I32, ValueType::I64],
        results: vec![ValueType::I32],
    }]);
    expected.function_section = Some(vec![0]);
    expected.code_section = Some(vec![Function { locals: vec![], code: vec![Instruction::LocalGet(0)] }]);
    assert_eq!(decoded, expected);
}

#[test]
fn decode_module_with_locals() {
    let wasm = wat::parse_str("(module (func (local i32 i32 i64) local.get 2))")
        .expect("unit test input WAT invalid");

    let decoded = decode_wasm(&wasm).unwrap();
    let code = decoded.code_section.unwrap();
    assert_eq!(code.len(), 1);
    assert_eq!(code[0].locals.len(), 2);
    assert_eq!(code[0].locals[0].type_count, 2);
    assert_eq!(code[0].locals[0].value_type, ValueType::I32);
    assert_eq!(code[0].locals[1].type_count, 1);
    assert_eq!(code[0].locals[1].value_type, ValueType::I64);
    assert_eq!(code[0].code, vec![Instruction::LocalGet(2)]);
}

#[test]
fn decode_wasm_rejects_an_unknown_section() {
    // a memory section (id 5) after the header
    let bytes: &[u8] = &[0x00, 0x61, 0x73, 0x6D, 0x01, 0x00, 0x00, 0x00, 0x05, 0x03, 0x01, 0x00, 0x01];
    assert_eq!(decode_wasm(bytes), Err(String::from("unsupported section code 5 provided")));
}

#[test]
fn decode_module_header_reads_magic_and_version() {
    let bytes: &[u8] = &[0x00, 0x61, 0x73, 0x6D, 0x01, 0x00, 0x00, 0x00];
    let mut reader = BinaryReader::new(bytes);
    let (magic, version) = decode_module_header(&mut reader).unwrap();
    assert_eq!(magic, "\0asm");
    assert_eq!(version, 1);
    assert!(reader.is_done());
}

#[test]
fn decode_wasm_rejects_a_bad_magic_number() {
    let bytes: &[u8] = &[0x00, 0x61, 0x73, 0x6E, 0x01, 0x00, 0x00, 0x00];
    assert_eq!(decode_wasm(bytes), Err(String::from("bad magic in Wasm binary")));
}

#[test]
fn decode_wasm_rejects_a_bad_version() {
    let bytes: &[u8] = &[0x00, 0x61, 0x73, 0x6D, 0x02, 0x00, 0x00, 0x00];
    assert_eq!(decode_wasm(bytes), Err(String::from("bad version 2 parsed from binary")));
}

#[test]
fn decode_wasm_rejects_a_truncated_header() {
    let bytes: &[u8] = &[0x00, 0x61, 0x73];
    assert!(decode_wasm(bytes).is_err());
}

#[test]
fn decode_type_section_with_value_types() {
    // one type: (i32, i64) -> (i32)
    let contents: &[u8] = &[0x01, 0x60, 0x02, 0x7F, 0x7E, 0x01, 0x7F];
    let types = decode_type_section(contents).unwrap();
    assert_eq!(
        types,
        vec![FuncType { params: vec![ValueType::I32, ValueType::I64], results: vec![ValueType::I32] }]
    );
}

#[test]
fn decode_type_section_rejects_a_non_function_type() {
    let contents: &[u8] = &[0x01, 0x61, 0x00, 0x00];
    assert_eq!(
        decode_type_section(contents),
        Err(String::from("expected 'func' marker (0x60) as first byte of func type 0"))
    );
}

#[test]
fn decode_function_section_reads_indices() {
    let contents: &[u8] = &[0x03, 0x00, 0x01, 0x80, 0x01];
    assert_eq!(decode_function_section(contents), Ok(vec![0, 1, 128]));
}

#[test]
fn decode_code_section_reads_bodies() {
    // two bodies: no locals and `end`; one group of two i32 locals and `end`
    let contents: &[u8] = &[0x02, 0x02, 0x00, 0x0B, 0x04, 0x01, 0x02, 0x7F, 0x0B];
    let functions = decode_code_section(contents).unwrap();
    assert_eq!(functions.len(), 2);
    assert_eq!(functions[0], Function { locals: vec![], code: vec![Instruction::End] });
    assert_eq!(functions[1].code, vec![Instruction::End]);
    assert_eq!(functions[1].locals.len(), 1);
    assert_eq!(functions[1].locals[0].type_count, 2);
    assert_eq!(functions[1].locals[0].value_type, ValueType::I32);
}

#[test]
fn decode_code_section_func_body_reads_locals_and_code() {
    let contents: &[u8] = &[0x00, 0x0B];
    assert_eq!(
        decode_code_section_func_body(contents),
        Ok(Function { locals: vec![], code: vec![Instruction::End] })
    );
}

#[test]
fn section_code_from_byte() {
    assert_eq!(SectionCode::from(1), Ok(SectionCode::Type));
    assert_eq!(SectionCode::from(10), Ok(SectionCode::Code));
    assert_eq!(SectionCode::from(3), Ok(SectionCode::Function));
    assert_eq!(SectionCode::from(13), Err(String::from("unsupported section code 13 provided")));
}

#[test]
fn value_type_from_byte() {
    assert_eq!(ValueType::from(0x7F), Ok(ValueType::I32));
    assert_eq!(ValueType::from(0x7E), Ok(ValueType::I64));
    assert_eq!(ValueType::from(0x7C), Err(String::from("unsupported value type 124 provided")));
}

#[test]
fn opcode_from_byte() {
    assert_eq!(Opcode::from(0x0B), Ok(Opcode::End));
    assert_eq!(Opcode::from(0x20), Ok(Opcode::LocalGet));
    assert_eq!(Opcode::from(0x6A), Ok(Opcode::I32Add));
    assert_eq!(Opcode::from(0x41), Err(String::from("unsupported instruction code 65 provided")));
}
