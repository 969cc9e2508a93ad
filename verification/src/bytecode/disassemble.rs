//! A textual listing of a chunk.

use vstd::prelude::*;

use crate::bytecode::chunk::{Chunk, OpCode};
use crate::text::{push_zero_padded, zero_padded};

verus! {

/// The listing line of the instruction at `offset`, without its offset.
pub open spec fn instruction_text(op: OpCode) -> Seq<char> {
    match op {
        OpCode::Return => "Return"@,
    }
}

/// The listing lines of the instructions of `code` from index `i` on.
pub open spec fn listing_from(code: Seq<OpCode>, i: nat) -> Seq<char>
    decreases code.len() - i,
{
    if i >= code.len() {
        Seq::empty()
    } else {
        zero_padded(i, 4) + " "@ + instruction_text(code[i as int]) + "\n"@ + listing_from(code, i + 1)
    }
}

/// The listing of a chunk: a title line `== name ==`, then one line per
/// instruction, its offset written with four digits.
pub open spec fn listing(code: Seq<OpCode>, name: Seq<char>) -> Seq<char> {
    "== "@ + name + " ==\n"@ + listing_from(code, 0)
}

/// Appends the listing line of the instruction at `offset` to `out` and
/// yields the offset of the next instruction.
fn disassemble_instruction(chunk: &Chunk, offset: usize, out: &mut String) -> (next: usize)
    requires
        offset < chunk.code@.len() < usize::MAX,
    ensures
        next == offset + 1,
        final(out)@ == old(out)@ + zero_padded(offset as nat, 4) + " "@ + instruction_text(
            chunk.code@[offset as int],
        ) + "\n"@,
{
    push_zero_padded(out, offset as u64, 4);
    out.append(" ");
    match chunk.code[offset] {
        OpCode::Return => simple_instruction("Return", offset, out),
    }
}

/// Appends the line of an instruction without operands.
fn simple_instruction(name: &str, offset: usize, out: &mut String) -> (next: usize)
    requires
        offset < usize::MAX,
    ensures
        next == offset + 1,
        final(out)@ == old(out)@ + name@ + "\n"@,
{
    out.append(name);
    out.append("\n");
    offset + 1
}

/// The listing of `chunk` under the title `name`.
pub fn disassemble_chunk(chunk: &Chunk, name: &str) -> (r: String)
    requires
        chunk.code@.len() < usize::MAX,
    ensures
        r@ == listing(chunk.code@, name@),
{
    let mut out = String::from_str("== ");
    out.append(name);
    out.append(" ==\n");
    let ghost title = out@;
    let mut offset: usize = 0;
    while offset < chunk.code.len()
        invariant
            offset <= chunk.code@.len() < usize::MAX,
            title == "== "@ + name@ + " ==\n"@,
            out@ + listing_from(chunk.code@, offset as nat) == listing(chunk.code@, name@),
        decreases chunk.code.len() - offset,
    {
        let ghost before = out@;
        offset = disassemble_instruction(chunk, offset, &mut out);
        proof {
            let code = chunk.code@;
            let i = (offset - 1) as nat;
            assert(listing_from(code, i) == zero_padded(i, 4) + " "@ + instruction_text(code[i as int])
                + "\n"@ + listing_from(code, offset as nat));
            assert(before + listing_from(code, i) =~= out@ + listing_from(code, offset as nat));
        }
    }
    proof {
        assert(out@ + Seq::<char>::empty() =~= out@);
    }
    out
}

} // verus!
