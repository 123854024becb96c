use lox_chunk::chunk::Chunk;
use lox_chunk::disassembler::simple_instruction;
use lox_chunk::opcode::OpCode;

fn constant_texts(chunk: &Chunk) -> Vec<String> {
    chunk
        .constants()
        .iter()
        .map(|b| f64::from_bits(*b).to_string())
        .collect()
}

#[test]
fn constant_then_return_on_one_line() {
    let mut chunk = Chunk::new();
    let index = chunk.add_constant(1.2f64.to_bits()).unwrap();
    chunk.write(vec![OpCode::Constant.into(), index], 123);
    chunk.write(vec![OpCode::Return.into()], 123);
    let text = chunk.disassemble("test chunk", &constant_texts(&chunk));
    assert_eq!(
        text,
        "== test chunk ==\n0000  123 OP_CONSTANT         0 '1.2'\n0002    | OP_RETURN\n"
    );
}

#[test]
fn demonstration_listing() {
    let mut chunk = Chunk::new();
    let c0 = chunk.add_constant(1.2f64.to_bits()).unwrap();
    chunk.write(vec![OpCode::Constant.into(), c0], 123);
    chunk.write(vec![OpCode::Return.into()], 124);
    let c1 = chunk.add_constant(5.4f64.to_bits()).unwrap();
    let c2 = chunk.add_constant(0.2f64.to_bits()).unwrap();
    chunk.write(
        vec![OpCode::Constant.into(), c1, OpCode::Constant.into(), c2],
        125,
    );
    chunk.write(vec![OpCode::Return.into()], 126);
    let texts = constant_texts(&chunk);
    assert!(chunk.operands_in_range(texts.len()));
    assert_eq!(
        chunk.disassemble("test chunk", &texts),
        "== test chunk ==\n\
         0000  123 OP_CONSTANT         0 '1.2'\n\
         0002  124 OP_RETURN\n\
         0003  125 OP_CONSTANT         1 '5.4'\n\
         0005    | OP_CONSTANT         2 '0.2'\n\
         0007  126 OP_RETURN\n"
    );
}

#[test]
fn unknown_opcode_gets_a_row_and_the_walk_goes_on() {
    let mut chunk = Chunk::new();
    chunk.write(vec![7, 1], 1);
    chunk.write(vec![200], 2);
    let text = chunk.disassemble("bad", &vec![]);
    assert_eq!(
        text,
        "== bad ==\n0000    1 Unknown opcode 7\n0001    | OP_RETURN\n0002    2 Unknown opcode 200\n"
    );
}

#[test]
fn empty_chunk_lists_only_the_header() {
    let chunk = Chunk::new();
    assert_eq!(chunk.disassemble("empty", &vec![]), "== empty ==\n");
}

#[test]
fn wide_fields_are_not_truncated() {
    let mut chunk = Chunk::new();
    for _ in 0..20 {
        chunk.add_constant(0).unwrap();
    }
    let mut code = vec![1u8; 10000];
    code.push(0);
    code.push(19);
    chunk.write(code, 12345);
    let texts: Vec<String> = (0..20).map(|i| format!("c{i}")).collect();
    let text = chunk.disassemble("wide", &texts);
    assert!(text.starts_with("== wide ==\n0000 12345 OP_RETURN\n0001    | OP_RETURN\n"));
    assert!(text.ends_with("9999    | OP_RETURN\n10000    | OP_CONSTANT        19 'c19'\n"));
}

#[test]
fn operand_check_finds_missing_operands() {
    let mut chunk = Chunk::new();
    chunk.add_constant(0).unwrap();
    chunk.write(vec![0, 0, 1], 1);
    assert!(chunk.operands_in_range(1));
    assert!(!chunk.operands_in_range(0));
    chunk.write(vec![0], 2);
    assert!(!chunk.operands_in_range(1));
}

#[test]
fn simple_instruction_appends_name_and_newline() {
    let mut f = String::from("x ");
    assert_eq!(simple_instruction(&mut f, "OP_RETURN", 41), 42);
    assert_eq!(f, "x OP_RETURN\n");
}
