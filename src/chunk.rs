//! The chunk: an instruction stream, its constant pool, and a run-length-encoded
//! table from instruction offsets to source lines.

use vstd::prelude::*;
use crate::opcode::OpCode;

verus! {

/// One record of the line table: `length` consecutive bytes of code came from
/// source line `line`.
#[derive(Clone, Copy, Debug, PartialEq, Eq, Structural)]
pub struct LineRun {
    pub length: usize,
    pub line: u32,
}

/// A constant: the IEEE-754 bit pattern of a double-precision number.
pub type Value = u64;

/// Most constants a chunk can hold: an index is carried in one byte.
pub const MAX_CONSTANTS: usize = 256;

/// Why a chunk refused an addition.
#[derive(Clone, Copy, Debug, PartialEq, Eq, Structural)]
pub enum ChunkError {
    /// The constant pool already holds `MAX_CONSTANTS` values.
    ConstantPoolExhausted,
}

/// Total number of bytes covered by a line table.
pub open spec fn run_total(runs: Seq<LineRun>) -> nat
    decreases runs.len(),
{
    if runs.len() == 0 {
        0
    } else {
        runs[0].length as nat + run_total(runs.drop_first())
    }
}

/// The source line of the byte at `offset`, or 0 when the table does not cover it.
pub open spec fn line_of(runs: Seq<LineRun>, offset: int) -> u32
    decreases runs.len(),
{
    if runs.len() == 0 {
        0
    } else if offset < runs[0].length {
        runs[0].line
    } else {
        line_of(runs.drop_first(), offset - runs[0].length)
    }
}

/// Every run covers at least one byte, and neighbouring runs name different lines.
pub open spec fn runs_compact(runs: Seq<LineRun>) -> bool {
    &&& forall|i: int| 0 <= i < runs.len() ==> runs[i].length > 0
    &&& forall|i: int| 0 < i < runs.len() ==> runs[i - 1].line != #[trigger] runs[i].line
}

/// The table after `width` more bytes from `line`: the last run grows when it
/// names the same line, else a new run is added; nothing changes for no bytes.
pub open spec fn extend_runs(runs: Seq<LineRun>, width: nat, line: u32) -> Seq<LineRun> {
    if width == 0 {
        runs
    } else if runs.len() > 0 && runs.last().line == line {
        runs.update(
            runs.len() - 1,
            LineRun { length: (runs.last().length + width) as usize, line },
        )
    } else {
        runs.push(LineRun { length: width as usize, line })
    }
}

proof fn lemma_push(runs: Seq<LineRun>, r: LineRun, offset: int)
    ensures
        run_total(runs.push(r)) == run_total(runs) + r.length,
        0 <= offset < run_total(runs) ==> line_of(runs.push(r), offset) == line_of(runs, offset),
        run_total(runs) <= offset < run_total(runs) + r.length ==> line_of(runs.push(r), offset)
            == r.line,
    decreases runs.len(),
{
    if runs.len() == 0 {
        assert(runs.push(r).drop_first() =~= Seq::<LineRun>::empty());
        assert(runs =~= Seq::<LineRun>::empty());
        assert(run_total(Seq::<LineRun>::empty()) == 0);
        assert(run_total(runs.push(r)) == r.length + run_total(runs.push(r).drop_first()));
    } else {
        assert(runs.push(r)[0] == runs[0]);
        assert(runs.push(r).drop_first() =~= runs.drop_first().push(r));
        lemma_push(runs.drop_first(), r, offset - runs[0].length);
        assert(run_total(runs) == runs[0].length + run_total(runs.drop_first()));
        if offset >= runs[0].length {
            assert(line_of(runs, offset) == line_of(runs.drop_first(), offset - runs[0].length));
            assert(line_of(runs.push(r), offset) == line_of(
                runs.drop_first().push(r),
                offset - runs[0].length,
            ));
        } else {
            assert(line_of(runs, offset) == runs[0].line);
            assert(line_of(runs.push(r), offset) == runs[0].line);
        }
    }
}

proof fn lemma_grow_last(runs: Seq<LineRun>, k: nat, offset: int)
    requires
        runs.len() > 0,
        runs.last().length + k <= usize::MAX,
    ensures
        ({
            let g = runs.update(
                runs.len() - 1,
                LineRun { length: (runs.last().length + k) as usize, line: runs.last().line },
            );
            &&& run_total(g) == run_total(runs) + k
            &&& 0 <= offset < run_total(runs) ==> line_of(g, offset) == line_of(runs, offset)
            &&& run_total(runs) <= offset < run_total(runs) + k ==> line_of(g, offset)
                == runs.last().line
        }),
    decreases runs.len(),
{
    let g = runs.update(
        runs.len() - 1,
        LineRun { length: (runs.last().length + k) as usize, line: runs.last().line },
    );
    if runs.len() == 1 {
        assert(runs.drop_first() =~= Seq::<LineRun>::empty());
        assert(g.drop_first() =~= Seq::<LineRun>::empty());
        assert(run_total(Seq::<LineRun>::empty()) == 0);
        assert(run_total(runs) == runs[0].length + run_total(runs.drop_first()));
        assert(run_total(g) == g[0].length + run_total(g.drop_first()));
        assert(line_of(g, offset) == if offset < g[0].length {
            g[0].line
        } else {
            line_of(g.drop_first(), offset - g[0].length)
        });
    } else {
        let t = runs.drop_first();
        assert(g[0] == runs[0]);
        assert(t.last() == runs.last());
        assert(g.drop_first() =~= t.update(
            t.len() - 1,
            LineRun { length: (t.last().length + k) as usize, line: t.last().line },
        ));
        lemma_grow_last(t, k, offset - runs[0].length);
        if offset >= runs[0].length {
            assert(line_of(g, offset) == line_of(g.drop_first(), offset - runs[0].length));
        }
    }
}

/// Extending the table by `width` bytes from `line` covers `width` more bytes,
/// keeps the line of every byte it covered, and gives each new byte `line`.
pub proof fn lemma_extend_runs(runs: Seq<LineRun>, width: nat, line: u32, offset: int)
    requires
        runs.len() > 0 && runs.last().line == line ==> runs.last().length + width <= usize::MAX,
        width <= usize::MAX,
    ensures
        run_total(extend_runs(runs, width, line)) == run_total(runs) + width,
        0 <= offset < run_total(runs) ==> line_of(extend_runs(runs, width, line), offset) == line_of(
            runs,
            offset,
        ),
        run_total(runs) <= offset < run_total(runs) + width ==> line_of(
            extend_runs(runs, width, line),
            offset,
        ) == line,
{
    if width > 0 {
        if runs.len() > 0 && runs.last().line == line {
            lemma_grow_last(runs, width, offset);
        } else {
            lemma_push(runs, LineRun { length: width as usize, line }, offset);
        }
    }
}

/// Past the bytes a table covers, the line is the sentinel 0.
pub proof fn lemma_line_of_beyond(runs: Seq<LineRun>, offset: int)
    requires
        offset >= run_total(runs),
    ensures
        line_of(runs, offset) == 0,
    decreases runs.len(),
{
    if runs.len() > 0 {
        lemma_line_of_beyond(runs.drop_first(), offset - runs[0].length);
    }
}

proof fn lemma_last_run_bounded(runs: Seq<LineRun>)
    requires
        runs.len() > 0,
    ensures
        runs.last().length <= run_total(runs),
    decreases runs.len(),
{
    if runs.len() > 1 {
        lemma_last_run_bounded(runs.drop_first());
    }
}

/// The code built by a sequence of writes, each a group of bytes and its line,
/// on an empty chunk.
pub open spec fn code_of_writes(writes: Seq<(Seq<u8>, u32)>) -> Seq<u8>
    decreases writes.len(),
{
    if writes.len() == 0 {
        Seq::empty()
    } else {
        code_of_writes(writes.drop_last()) + writes.last().0
    }
}

/// The line table built by the same sequence of writes.
pub open spec fn runs_of_writes(writes: Seq<(Seq<u8>, u32)>) -> Seq<LineRun>
    decreases writes.len(),
{
    if writes.len() == 0 {
        Seq::empty()
    } else {
        extend_runs(runs_of_writes(writes.drop_last()), writes.last().0.len(), writes.last().1)
    }
}

/// After any sequence of writes on an empty chunk, the run lengths add up to
/// the length of the code, no run is empty, and neighbouring runs name
/// different lines (writes from one line in a row share a run).
pub proof fn lemma_writes_cover_code(writes: Seq<(Seq<u8>, u32)>)
    requires
        code_of_writes(writes).len() <= usize::MAX,
    ensures
        run_total(runs_of_writes(writes)) == code_of_writes(writes).len(),
        runs_compact(runs_of_writes(writes)),
    decreases writes.len(),
{
    if writes.len() > 0 {
        let prev = writes.drop_last();
        let runs = runs_of_writes(prev);
        let width = writes.last().0.len();
        let line = writes.last().1;
        lemma_writes_cover_code(prev);
        if runs.len() > 0 {
            lemma_last_run_bounded(runs);
        }
        lemma_extend_runs(runs, width, line, 0);
        let ext = extend_runs(runs, width, line);
        assert(runs_compact(ext)) by {
            if width > 0 && !(runs.len() > 0 && runs.last().line == line) {
                assert forall|i: int| 0 < i < ext.len() implies ext[i - 1].line != #[trigger] ext[i].line by {
                    if i < runs.len() {
                        assert(ext[i - 1] == runs[i - 1] && ext[i] == runs[i]);
                    }
                }
            }
        }
    } else {
        assert(run_total(runs_of_writes(writes)) == 0);
    }
}

/// A unit of bytecode: instructions, constants, and their source lines.
pub struct Chunk {
    code: Vec<u8>,
    constants: Vec<Value>,
    lines: Vec<LineRun>,
}

impl Chunk {
    pub closed spec fn code_view(&self) -> Seq<u8> {
        self.code@
    }

    pub closed spec fn constants_view(&self) -> Seq<Value> {
        self.constants@
    }

    pub closed spec fn lines_view(&self) -> Seq<LineRun> {
        self.lines@
    }

    /// The line table covers exactly the code, is compact, and the pool fits
    /// one-byte indices.
    pub open spec fn wf(&self) -> bool {
        &&& run_total(self.lines_view()) == self.code_view().len()
        &&& runs_compact(self.lines_view())
        &&& self.constants_view().len() <= MAX_CONSTANTS
    }

    pub fn new() -> (r: Chunk)
        ensures
            r.wf(),
            r.code_view() == Seq::<u8>::empty(),
            r.constants_view() == Seq::<Value>::empty(),
            r.lines_view() == Seq::<LineRun>::empty(),
    {
        Chunk { code: Vec::new(), constants: Vec::new(), lines: Vec::new() }
    }

    pub fn code(&self) -> (r: &Vec<u8>)
        ensures
            r@ == self.code_view(),
    {
        &self.code
    }

    pub fn constants(&self) -> (r: &Vec<Value>)
        ensures
            r@ == self.constants_view(),
    {
        &self.constants
    }

    pub fn lines(&self) -> (r: &Vec<LineRun>)
        ensures
            r@ == self.lines_view(),
    {
        &self.lines
    }

    /// Appends `bytes` to the code as one group from source line `line`, and
    /// extends the line table to cover them.
    pub fn write(&mut self, bytes: Vec<u8>, line: u32)
        requires
            old(self).wf(),
            old(self).code_view().len() + bytes@.len() <= usize::MAX,
        ensures
            final(self).wf(),
            final(self).code_view() == old(self).code_view() + bytes@,
            final(self).constants_view() == old(self).constants_view(),
            final(self).lines_view() == extend_runs(old(self).lines_view(), bytes@.len(), line),
            forall|off: int|
                0 <= off < old(self).code_view().len() ==> line_of(final(self).lines_view(), off)
                    == line_of(old(self).lines_view(), off),
            forall|off: int|
                old(self).code_view().len() <= off < final(self).code_view().len() ==> line_of(
                    final(self).lines_view(),
                    off,
                ) == line,
    {
        let ghost old_runs = self.lines@;
        let ghost old_code = self.code@;
        let width = bytes.len();
        let mut i: usize = 0;
        while i < width
            invariant
                i <= width,
                width == bytes@.len(),
                self.code@ == old_code + bytes@.subrange(0, i as int),
                self.lines@ == old_runs,
                self.constants@ == old(self).constants@,
                old_code.len() + width <= usize::MAX,
            decreases width - i,
        {
            self.code.push(bytes[i]);
            i = i + 1;
            assert(self.code@ =~= old_code + bytes@.subrange(0, i as int));
        }
        assert(bytes@.subrange(0, width as int) =~= bytes@);
        if width > 0 {
            let n = self.lines.len();
            if n > 0 && self.lines[n - 1].line == line {
                proof {
                    lemma_last_run_bounded(old_runs);
                }
                let last = self.lines[n - 1];
                self.lines.set(n - 1, LineRun { length: last.length + width, line });
            } else {
                self.lines.push(LineRun { length: width, line });
            }
        }
        proof {
            assert(self.lines@ =~= extend_runs(old_runs, width as nat, line));
            lemma_extend_runs(old_runs, width as nat, line, 0);
            assert forall|off: int|
                0 <= off < old_code.len() implies line_of(self.lines@, off) == line_of(
                    old_runs,
                    off,
                ) by {
                lemma_extend_runs(old_runs, width as nat, line, off);
            }
            assert forall|off: int| old_code.len() <= off < self.code@.len() implies line_of(
                self.lines@,
                off,
            ) == line by {
                lemma_extend_runs(old_runs, width as nat, line, off);
            }
        }
    }

    /// Appends an instruction: its opcode byte followed by its operand bytes,
    /// all from source line `line`.
    pub fn append_instruction(&mut self, opcode: OpCode, operands: &Vec<u8>, line: u32)
        requires
            old(self).wf(),
            old(self).code_view().len() + operands@.len() < usize::MAX,
        ensures
            final(self).wf(),
            final(self).code_view() == old(self).code_view() + seq![opcode.spec_encode()]
                + operands@,
            final(self).constants_view() == old(self).constants_view(),
            final(self).lines_view() == extend_runs(
                old(self).lines_view(),
                operands@.len() + 1,
                line,
            ),
    {
        let mut bytes: Vec<u8> = Vec::new();
        bytes.push(opcode.encode());
        let mut i: usize = 0;
        while i < operands.len()
            invariant
                i <= operands@.len(),
                bytes@ == seq![opcode.spec_encode()] + operands@.subrange(0, i as int),
            decreases operands@.len() - i,
        {
            bytes.push(operands[i]);
            i = i + 1;
            assert(bytes@ =~= seq![opcode.spec_encode()] + operands@.subrange(0, i as int));
        }
        assert(operands@.subrange(0, operands@.len() as int) =~= operands@);
        self.write(bytes, line);
    }

    /// Adds a constant to the pool and returns its index, unless the pool is full.
    pub fn add_constant(&mut self, value: Value) -> (r: Result<u8, ChunkError>)
        requires
            old(self).wf(),
        ensures
            final(self).wf(),
            final(self).code_view() == old(self).code_view(),
            final(self).lines_view() == old(self).lines_view(),
            old(self).constants_view().len() < MAX_CONSTANTS ==> {
                &&& r == Ok::<u8, ChunkError>(old(self).constants_view().len() as u8)
                &&& final(self).constants_view() == old(self).constants_view().push(value)
            },
            old(self).constants_view().len() >= MAX_CONSTANTS ==> {
                &&& r == Err::<u8, ChunkError>(ChunkError::ConstantPoolExhausted)
                &&& final(self).constants_view() == old(self).constants_view()
            },
    {
        if self.constants.len() >= MAX_CONSTANTS {
            Err(ChunkError::ConstantPoolExhausted)
        } else {
            let index = self.constants.len() as u8;
            self.constants.push(value);
            Ok(index)
        }
    }

    /// The source line of the byte at `offset`; 0 when `offset` is past the code.
    pub fn line_at(&self, offset: usize) -> (r: u32)
        requires
            self.wf(),
        ensures
            r == line_of(self.lines_view(), offset as int),
            offset >= self.code_view().len() ==> r == 0,
    {
        proof {
            if offset >= self.code@.len() {
                lemma_line_of_beyond(self.lines@, offset as int);
            }
        }
        let mut remaining: usize = offset;
        let mut i: usize = 0;
        assert(self.lines@.subrange(0, self.lines@.len() as int) =~= self.lines@);
        while i < self.lines.len()
            invariant
                i <= self.lines@.len(),
                offset >= self.code@.len() ==> line_of(self.lines@, offset as int) == 0,
                line_of(self.lines@, offset as int) == line_of(
                    self.lines@.subrange(i as int, self.lines@.len() as int),
                    remaining as int,
                ),
            decreases self.lines@.len() - i,
        {
            let run = self.lines[i];
            let ghost rest = self.lines@.subrange(i as int, self.lines@.len() as int);
            assert(rest.drop_first() =~= self.lines@.subrange(i + 1, self.lines@.len() as int));
            if remaining < run.length {
                return run.line;
            }
            remaining = remaining - run.length;
            i = i + 1;
        }
        0
    }
}

} // verus!
