use lox_chunk::chunk::{Chunk, ChunkError, LineRun, MAX_CONSTANTS};
use lox_chunk::opcode::OpCode;

fn run_sum(chunk: &Chunk) -> usize {
    chunk.lines().iter().map(|r| r.length).sum()
}

#[test]
fn new_chunk_is_empty() {
    let chunk = Chunk::new();
    assert!(chunk.code().is_empty());
    assert!(chunk.constants().is_empty());
    assert!(chunk.lines().is_empty());
}

#[test]
fn line_table_sum_matches_code_length() {
    let mut chunk = Chunk::new();
    let lines = [1u32, 1, 2, 7, 7, 7, 3, 1];
    for (i, line) in lines.iter().enumerate() {
        let bytes: Vec<u8> = (0..(i % 3 + 1) as u8).collect();
        chunk.write(bytes, *line);
        assert_eq!(run_sum(&chunk), chunk.code().len());
    }
    assert_eq!(chunk.code().len(), 1 + 2 + 3 + 1 + 2 + 3 + 1 + 2);
}

#[test]
fn same_line_instructions_share_a_run() {
    let mut chunk = Chunk::new();
    chunk.append_instruction(OpCode::Constant, &vec![0], 5);
    chunk.append_instruction(OpCode::Return, &vec![], 5);
    chunk.append_instruction(OpCode::Constant, &vec![1], 6);
    assert_eq!(
        chunk.lines(),
        &vec![LineRun { length: 3, line: 5 }, LineRun { length: 2, line: 6 }]
    );
    assert_eq!(chunk.code(), &vec![0, 0, 1, 0, 1]);
}

#[test]
fn write_keeps_bytes_in_order() {
    let mut chunk = Chunk::new();
    chunk.write(vec![0, 3], 10);
    chunk.write(vec![1], 11);
    assert_eq!(chunk.code(), &vec![0, 3, 1]);
    assert_eq!(
        chunk.lines(),
        &vec![LineRun { length: 2, line: 10 }, LineRun { length: 1, line: 11 }]
    );
}

#[test]
fn empty_write_changes_nothing() {
    let mut chunk = Chunk::new();
    chunk.write(vec![1], 4);
    chunk.write(vec![], 9);
    assert_eq!(chunk.code(), &vec![1]);
    assert_eq!(chunk.lines(), &vec![LineRun { length: 1, line: 4 }]);
}

#[test]
fn line_at_walks_runs() {
    let mut chunk = Chunk::new();
    chunk.write(vec![0, 0], 123);
    chunk.write(vec![1], 124);
    chunk.write(vec![0, 1, 0, 2], 125);
    assert_eq!(chunk.line_at(0), 123);
    assert_eq!(chunk.line_at(1), 123);
    assert_eq!(chunk.line_at(2), 124);
    assert_eq!(chunk.line_at(3), 125);
    assert_eq!(chunk.line_at(6), 125);
}

#[test]
fn line_at_past_the_code_is_zero() {
    let mut chunk = Chunk::new();
    assert_eq!(chunk.line_at(0), 0);
    chunk.write(vec![1], 8);
    assert_eq!(chunk.line_at(1), 0);
    assert_eq!(chunk.line_at(usize::MAX), 0);
}

#[test]
fn constant_pool_capacity() {
    let mut chunk = Chunk::new();
    for i in 0..255usize {
        assert_eq!(chunk.add_constant(i as u64), Ok(i as u8));
    }
    assert_eq!(chunk.add_constant(1.5f64.to_bits()), Ok(255));
    assert_eq!(chunk.constants().len(), MAX_CONSTANTS);
    assert_eq!(
        chunk.add_constant(2.5f64.to_bits()),
        Err(ChunkError::ConstantPoolExhausted)
    );
    assert_eq!(chunk.constants().len(), 256);
    assert_eq!(chunk.constants()[255], 1.5f64.to_bits());
}
