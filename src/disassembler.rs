//! Renders a chunk's instruction stream as a text listing, one row per instruction.

use vstd::prelude::*;
use crate::chunk::{Chunk, LineRun, line_of};
use crate::opcode::OpCode;

verus! {

pub open spec fn digit_char(d: nat) -> char {
    if d == 0 {
        '0'
    } else if d == 1 {
        '1'
    } else if d == 2 {
        '2'
    } else if d == 3 {
        '3'
    } else if d == 4 {
        '4'
    } else if d == 5 {
        '5'
    } else if d == 6 {
        '6'
    } else if d == 7 {
        '7'
    } else if d == 8 {
        '8'
    } else {
        '9'
    }
}

/// The decimal digits of `n`, most significant first, without leading zeros.
pub open spec fn decimal(n: nat) -> Seq<char>
    decreases n,
{
    if n < 10 {
        seq![digit_char(n)]
    } else {
        decimal(n / 10).push(digit_char(n % 10))
    }
}

/// `k` copies of `c`.
pub open spec fn fill(c: char, k: nat) -> Seq<char> {
    Seq::new(k, |_i: int| c)
}

/// `s` right-aligned in a field of `width` characters filled with `c`.
pub open spec fn pad_left(s: Seq<char>, width: nat, c: char) -> Seq<char> {
    if s.len() >= width {
        s
    } else {
        fill(c, (width - s.len()) as nat) + s
    }
}

/// `s` left-aligned in a field of `width` characters filled with spaces.
pub open spec fn pad_right(s: Seq<char>, width: nat) -> Seq<char> {
    if s.len() >= width {
        s
    } else {
        s + fill(' ', (width - s.len()) as nat)
    }
}

/// The first line of a listing.
pub open spec fn header(name: Seq<char>) -> Seq<char> {
    "== "@ + name + " ==\n"@
}

/// The line column of a row: a placeholder when the line repeats the previous
/// byte's line, else the line number right-aligned in four characters.
pub open spec fn line_field(runs: Seq<LineRun>, offset: nat) -> Seq<char> {
    if offset > 0 && line_of(runs, offset as int) == line_of(runs, offset - 1) {
        "   | "@
    } else {
        pad_left(decimal(line_of(runs, offset as int) as nat), 4, ' ') + " "@
    }
}

/// How many operand bytes follow the byte at `offset`; none for an unknown byte.
pub open spec fn operand_width(code: Seq<u8>, offset: nat) -> nat {
    match OpCode::spec_decode(code[offset as int]) {
        Some(op) => op.operand_count(),
        None => 0,
    }
}

/// The part of a row after the line column.
pub open spec fn instruction_text(code: Seq<u8>, texts: Seq<Seq<char>>, offset: nat) -> Seq<
    char,
> {
    match OpCode::spec_decode(code[offset as int]) {
        Some(OpCode::Constant) => {
            let index = code[offset + 1int];
            pad_right(OpCode::Constant.spec_mnemonic(), 16) + " "@ + pad_left(
                decimal(index as nat),
                4,
                ' ',
            ) + " '"@ + texts[index as int] + "'\n"@
        },
        Some(op) => op.spec_mnemonic() + "\n"@,
        None => "Unknown opcode "@ + decimal(code[offset as int] as nat) + "\n"@,
    }
}

/// The start of a row: the offset zero-padded to four digits, then the line column.
pub open spec fn row_prefix(runs: Seq<LineRun>, offset: nat) -> Seq<char> {
    pad_left(decimal(offset), 4, '0') + " "@ + line_field(runs, offset)
}

/// One row of the listing: zero-padded offset, line column, instruction.
pub open spec fn row(code: Seq<u8>, runs: Seq<LineRun>, texts: Seq<Seq<char>>, offset: nat) -> Seq<
    char,
> {
    row_prefix(runs, offset) + instruction_text(code, texts, offset)
}

/// The rows of the instructions from `offset` to the end of the code.
pub open spec fn listing(
    code: Seq<u8>,
    runs: Seq<LineRun>,
    texts: Seq<Seq<char>>,
    offset: nat,
) -> Seq<char>
    decreases if offset < code.len() {
        code.len() - offset
    } else {
        0
    },
{
    if offset < code.len() {
        row(code, runs, texts, offset) + listing(
            code,
            runs,
            texts,
            offset + 1 + operand_width(code, offset),
        )
    } else {
        Seq::empty()
    }
}

/// Walking the code from `offset`, every constant-load has its operand byte,
/// and that operand is an index below `n`.
pub open spec fn operands_resolve(code: Seq<u8>, n: nat, offset: nat) -> bool
    decreases code.len() - offset,
{
    if offset < code.len() {
        match OpCode::spec_decode(code[offset as int]) {
            Some(OpCode::Constant) => offset + 1 < code.len() && code[offset + 1int] < n
                && operands_resolve(code, n, offset + 2),
            _ => operands_resolve(code, n, offset + 1),
        }
    } else {
        true
    }
}

/// The instruction at `offset` is complete: a constant-load there has its
/// operand byte, and that operand is an index below `n`.
pub open spec fn operand_present(code: Seq<u8>, n: nat, offset: nat) -> bool {
    OpCode::spec_decode(code[offset as int]) == Some(OpCode::Constant) ==> offset + 1 < code.len()
        && code[offset + 1int] < n
}

/// The printed forms of the constants.
pub open spec fn texts_view(texts: Seq<String>) -> Seq<Seq<char>> {
    texts.map_values(|s: String| s@)
}

fn digit_str(d: usize) -> (r: &'static str)
    requires
        d < 10,
    ensures
        r@ == seq![digit_char(d as nat)],
{
    proof {
        reveal_strlit("0");
        reveal_strlit("1");
        reveal_strlit("2");
        reveal_strlit("3");
        reveal_strlit("4");
        reveal_strlit("5");
        reveal_strlit("6");
        reveal_strlit("7");
        reveal_strlit("8");
        reveal_strlit("9");
    }
    let r = if d == 0 {
        "0"
    } else if d == 1 {
        "1"
    } else if d == 2 {
        "2"
    } else if d == 3 {
        "3"
    } else if d == 4 {
        "4"
    } else if d == 5 {
        "5"
    } else if d == 6 {
        "6"
    } else if d == 7 {
        "7"
    } else if d == 8 {
        "8"
    } else {
        "9"
    };
    assert(r@ =~= seq![digit_char(d as nat)]);
    r
}

fn decimal_len(n: usize) -> (r: usize)
    ensures
        r as nat == decimal(n as nat).len(),
        1 <= r <= n + 1,
    decreases n,
{
    if n < 10 {
        1
    } else {
        let k = decimal_len(n / 10);
        k + 1
    }
}

fn push_decimal(f: &mut String, n: usize)
    ensures
        final(f)@ == old(f)@ + decimal(n as nat),
    decreases n,
{
    if n >= 10 {
        push_decimal(f, n / 10);
    }
    f.append(digit_str(n % 10));
    assert(f@ =~= old(f)@ + decimal(n as nat));
}

fn push_fill(f: &mut String, zero: bool, count: usize)
    ensures
        final(f)@ == old(f)@ + fill(if zero { '0' } else { ' ' }, count as nat),
{
    let ghost c = if zero { '0' } else { ' ' };
    let mut i: usize = 0;
    while i < count
        invariant
            i <= count,
            c == if zero { '0' } else { ' ' },
            f@ == old(f)@ + fill(c, i as nat),
        decreases count - i,
    {
        proof {
            reveal_strlit("0");
            reveal_strlit(" ");
        }
        if zero {
            f.append("0");
        } else {
            f.append(" ");
        }
        i = i + 1;
        assert(f@ =~= old(f)@ + fill(c, i as nat));
    }
}

fn push_padded_number(f: &mut String, n: usize, width: usize, zero: bool)
    ensures
        final(f)@ == old(f)@ + pad_left(decimal(n as nat), width as nat, if zero { '0' } else { ' ' }),
{
    let len = decimal_len(n);
    if len < width {
        push_fill(f, zero, width - len);
    }
    push_decimal(f, n);
    assert(f@ =~= old(f)@ + pad_left(decimal(n as nat), width as nat, if zero { '0' } else { ' ' }));
}

fn push_padded_name(f: &mut String, s: &str, width: usize)
    ensures
        final(f)@ == old(f)@ + pad_right(s@, width as nat),
{
    f.append(s);
    let len = s.unicode_len();
    if len < width {
        push_fill(f, false, width - len);
    }
    assert(f@ =~= old(f)@ + pad_right(s@, width as nat));
}

/// Writes the row text of an instruction without operands and returns the
/// offset of the next instruction.
pub fn simple_instruction(f: &mut String, name: &str, offset: usize) -> (r: usize)
    requires
        offset < usize::MAX,
    ensures
        final(f)@ == old(f)@ + name@ + "\n"@,
        r == offset + 1,
{
    f.append(name);
    f.append("\n");
    offset + 1
}


/// A byte that is no opcode gets a row of its own, and the listing goes on
/// with the very next byte.
pub proof fn lemma_unknown_byte_row(
    code: Seq<u8>,
    runs: Seq<LineRun>,
    texts: Seq<Seq<char>>,
    offset: nat,
)
    requires
        offset < code.len(),
        OpCode::spec_decode(code[offset as int]) is None,
    ensures
        listing(code, runs, texts, offset) == row_prefix(runs, offset) + "Unknown opcode "@
            + decimal(code[offset as int] as nat) + "\n"@ + listing(code, runs, texts, offset + 1),
{
    assert(listing(code, runs, texts, offset) =~= row_prefix(runs, offset) + "Unknown opcode "@
        + decimal(code[offset as int] as nat) + "\n"@ + listing(code, runs, texts, offset + 1));
}


/// Whether the walk over the code that starts at `from` visits offset `to`.
pub open spec fn walk_reaches(code: Seq<u8>, from: nat, to: nat) -> bool
    decreases if from < code.len() {
        code.len() - from
    } else {
        0
    },
{
    if from == to {
        true
    } else if from < code.len() && from < to {
        walk_reaches(code, from + 1 + operand_width(code, from), to)
    } else {
        false
    }
}

/// The rows the walk from `from` produces before it gets to `to`.
pub open spec fn listing_between(
    code: Seq<u8>,
    runs: Seq<LineRun>,
    texts: Seq<Seq<char>>,
    from: nat,
    to: nat,
) -> Seq<char>
    decreases if from < code.len() {
        code.len() - from
    } else {
        0
    },
{
    if from != to && from < code.len() && from < to {
        row(code, runs, texts, from) + listing_between(
            code,
            runs,
            texts,
            from + 1 + operand_width(code, from),
            to,
        )
    } else {
        Seq::empty()
    }
}

proof fn lemma_listing_split(
    code: Seq<u8>,
    runs: Seq<LineRun>,
    texts: Seq<Seq<char>>,
    from: nat,
    to: nat,
)
    requires
        walk_reaches(code, from, to),
    ensures
        listing(code, runs, texts, from) == listing_between(code, runs, texts, from, to) + listing(
            code,
            runs,
            texts,
            to,
        ),
    decreases if from < code.len() {
        code.len() - from
    } else {
        0
    },
{
    if from == to {
        assert(listing(code, runs, texts, from) =~= listing_between(code, runs, texts, from, to)
            + listing(code, runs, texts, to));
    } else {
        let next = from + 1 + operand_width(code, from);
        lemma_listing_split(code, runs, texts, next, to);
        assert(listing(code, runs, texts, from) =~= listing_between(code, runs, texts, from, to)
            + listing(code, runs, texts, to));
    }
}

/// Where the walk from the start of the code visits a byte that is no opcode,
/// the listing holds an unknown-opcode row for that byte, and the walk goes on
/// with the very next byte rather than stopping.
pub proof fn lemma_unknown_byte_in_walk(
    code: Seq<u8>,
    runs: Seq<LineRun>,
    texts: Seq<Seq<char>>,
    offset: nat,
)
    requires
        walk_reaches(code, 0, offset),
        offset < code.len(),
        OpCode::spec_decode(code[offset as int]) is None,
    ensures
        listing(code, runs, texts, 0) == listing_between(code, runs, texts, 0, offset)
            + row_prefix(runs, offset) + "Unknown opcode "@ + decimal(code[offset as int] as nat)
            + "\n"@ + listing(code, runs, texts, offset + 1),
{
    lemma_listing_split(code, runs, texts, 0, offset);
    lemma_unknown_byte_row(code, runs, texts, offset);
    assert(listing(code, runs, texts, 0) =~= listing_between(code, runs, texts, 0, offset)
        + row_prefix(runs, offset) + "Unknown opcode "@ + decimal(code[offset as int] as nat)
        + "\n"@ + listing(code, runs, texts, offset + 1));
}

impl Chunk {
    /// Whether every constant-load met on a walk of the code has its operand
    /// byte, and that operand is below `constant_count`.
    pub fn operands_in_range(&self, constant_count: usize) -> (r: bool)
        ensures
            r == operands_resolve(self.code_view(), constant_count as nat, 0),
    {
        let code = self.code();
        let len = code.len();
        let mut offset: usize = 0;
        while offset < len
            invariant
                code@ == self.code_view(),
                len == code@.len(),
                offset <= len,
                operands_resolve(code@, constant_count as nat, 0) == operands_resolve(
                    code@,
                    constant_count as nat,
                    offset as nat,
                ),
            decreases len - offset,
        {
            if code[offset] == OpCode::Constant.encode() {
                if offset + 1 >= len || code[offset + 1] as usize >= constant_count {
                    assert(OpCode::spec_decode(code@[offset as int]) == Some(OpCode::Constant));
                    assert(!operands_resolve(code@, constant_count as nat, offset as nat));
                    return false;
                }
                offset = offset + 2;
            } else {
                offset = offset + 1;
            }
        }
        true
    }
    /// Renders the chunk as a listing titled `name`; `constant_text[i]` is the
    /// printed form of constant `i`. Unknown opcode bytes get a row of their own
    /// and the walk goes on with the next byte.
    pub fn disassemble(&self, name: &str, constant_text: &Vec<String>) -> (r: String)
        requires
            self.wf(),
            constant_text@.len() == self.constants_view().len(),
            operands_resolve(self.code_view(), constant_text@.len() as nat, 0),
        ensures
            r@ == header(name@) + listing(
                self.code_view(),
                self.lines_view(),
                texts_view(constant_text@),
                0,
            ),
    {
        let ghost code = self.code_view();
        let ghost runs = self.lines_view();
        let ghost texts = texts_view(constant_text@);
        let ghost n = constant_text@.len() as nat;
        let mut f = String::new();
        f.append("== ");
        f.append(name);
        f.append(" ==\n");
        let mut offset: usize = 0;
        while offset < self.code().len()
            invariant
                self.wf(),
                code == self.code_view(),
                runs == self.lines_view(),
                texts == texts_view(constant_text@),
                n == constant_text@.len(),
                offset <= code.len(),
                operands_resolve(code, n, offset as nat),
                f@ + listing(code, runs, texts, offset as nat) == header(name@) + listing(
                    code,
                    runs,
                    texts,
                    0,
                ),
            decreases code.len() - offset,
        {
            let ghost before = f@;
            let ghost prev = offset as nat;
            offset = self.disassemble_instruction(&mut f, offset, constant_text);
            assert(listing(code, runs, texts, prev) == row(code, runs, texts, prev) + listing(
                code,
                runs,
                texts,
                offset as nat,
            ));
            assert(f@ + listing(code, runs, texts, offset as nat) =~= before + listing(
                code,
                runs,
                texts,
                prev,
            ));
        }
        assert(f@ + listing(code, runs, texts, offset as nat) =~= f@);
        f
    }

    fn disassemble_instruction(
        &self,
        f: &mut String,
        offset: usize,
        constant_text: &Vec<String>,
    ) -> (r: usize)
        requires
            self.wf(),
            offset < self.code_view().len(),
            operand_present(self.code_view(), constant_text@.len() as nat, offset as nat),
        ensures
            final(f)@ == old(f)@ + row(
                self.code_view(),
                self.lines_view(),
                texts_view(constant_text@),
                offset as nat,
            ),
            r == offset + 1 + operand_width(self.code_view(), offset as nat),
            r <= self.code_view().len(),
            operands_resolve(self.code_view(), constant_text@.len() as nat, offset as nat)
                ==> operands_resolve(self.code_view(), constant_text@.len() as nat, r as nat),
    {
        let ghost start = f@;
        self.write_row_prefix(f, offset);
        let r = self.write_instruction_text(f, offset, constant_text);
        assert(f@ =~= start + row(
            self.code_view(),
            self.lines_view(),
            texts_view(constant_text@),
            offset as nat,
        ));
        r
    }

    fn write_row_prefix(&self, f: &mut String, offset: usize)
        requires
            self.wf(),
        ensures
            final(f)@ == old(f)@ + row_prefix(self.lines_view(), offset as nat),
    {
        push_padded_number(f, offset, 4, true);
        f.append(" ");
        let line = self.line_at(offset);
        if offset > 0 && line == self.line_at(offset - 1) {
            f.append("   | ");
        } else {
            push_padded_number(f, line as usize, 4, false);
            f.append(" ");
        }
        assert(f@ =~= old(f)@ + row_prefix(self.lines_view(), offset as nat));
    }

    fn write_instruction_text(
        &self,
        f: &mut String,
        offset: usize,
        constant_text: &Vec<String>,
    ) -> (r: usize)
        requires
            offset < self.code_view().len(),
            operand_present(self.code_view(), constant_text@.len() as nat, offset as nat),
        ensures
            final(f)@ == old(f)@ + instruction_text(
                self.code_view(),
                texts_view(constant_text@),
                offset as nat,
            ),
            r == offset + 1 + operand_width(self.code_view(), offset as nat),
            r <= self.code_view().len(),
            operands_resolve(self.code_view(), constant_text@.len() as nat, offset as nat)
                ==> operands_resolve(self.code_view(), constant_text@.len() as nat, r as nat),
    {
        let code = self.code();
        let code_len = code.len();
        assert(offset < code_len);
        let ghost texts = texts_view(constant_text@);
        let instruction = code[offset];
        match OpCode::decode(instruction) {
            Ok(opcode) => match opcode {
                OpCode::Constant => {
                    let r = self.constant_instruction(f, opcode.mnemonic(), offset, constant_text);
                    assert(f@ =~= old(f)@ + instruction_text(code@, texts, offset as nat));
                    r
                },
                OpCode::Return => {
                    let r = simple_instruction(f, opcode.mnemonic(), offset);
                    assert(f@ =~= old(f)@ + instruction_text(code@, texts, offset as nat));
                    r
                },
            },
            Err(_) => {
                f.append("Unknown opcode ");
                push_decimal(f, instruction as usize);
                f.append("\n");
                assert(f@ =~= old(f)@ + instruction_text(code@, texts, offset as nat));
                offset + 1
            },
        }
    }

    fn constant_instruction(
        &self,
        f: &mut String,
        name: &str,
        offset: usize,
        constant_text: &Vec<String>,
    ) -> (r: usize)
        requires
            offset + 1 < self.code_view().len(),
            self.code_view()[offset + 1] < constant_text@.len(),
        ensures
            final(f)@ == old(f)@ + pad_right(name@, 16) + " "@ + pad_left(
                decimal(self.code_view()[offset + 1] as nat),
                4,
                ' ',
            ) + " '"@ + constant_text@[self.code_view()[offset + 1] as int]@ + "'\n"@,
            r == offset + 2,
    {
        let code = self.code();
        let code_len = code.len();
        assert(offset + 2 <= code_len);
        let constant_index = code[offset + 1] as usize;
        push_padded_name(f, name, 16);
        f.append(" ");
        push_padded_number(f, constant_index, 4, false);
        f.append(" '");
        f.append(constant_text[constant_index].as_str());
        f.append("'\n");
        offset + 2
    }
}

} // verus!
