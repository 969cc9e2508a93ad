//! Decoding a WebAssembly binary into a [`Module`].
//!
//! The `spec` functions below state the binary format that the decoder
//! accepts, each as a reading from the front of a byte sequence that yields
//! a value and the bytes that follow it, or an error message.

use vstd::prelude::*;

use crate::text::{decimal, message_with_number};
use crate::wasm::binary::{
    eof_message, spec_read_byte, spec_read_le_u32, spec_read_slice, spec_read_uleb, uleb_outcome_from,
    uleb_value, BinaryReader, UlebOutcome,
};
use crate::wasm::{
    empty_module, func_types_view, functions_view, unsupported_opcode_message,
    unsupported_section_message, unsupported_value_type_message, FuncType, FuncTypeView, Function,
    FunctionLocal, FunctionView, Instruction, Module, ModuleView, Opcode, SectionCode, ValueType,
};

verus! {

/// Reading elements `i` up to (not including) `n` one after the other with
/// `f`, which is also told the index of each element.
pub open spec fn repeat<T>(
    f: spec_fn(Seq<u8>, nat) -> Result<(T, Seq<u8>), Seq<char>>,
    s: Seq<u8>,
    i: nat,
    n: nat,
) -> Result<(Seq<T>, Seq<u8>), Seq<char>>
    decreases n - i,
{
    if i >= n {
        Ok((Seq::empty(), s))
    } else {
        match f(s, i) {
            Ok((x, r)) => match repeat(f, r, i + 1, n) {
                Ok((xs, r2)) => Ok((seq![x] + xs, r2)),
                Err(e) => Err(e),
            },
            Err(e) => Err(e),
        }
    }
}

/// `acc` in front of the elements that a reading yields.
pub open spec fn prepend<T>(acc: Seq<T>, r: Result<(Seq<T>, Seq<u8>), Seq<char>>) -> Result<
    (Seq<T>, Seq<u8>),
    Seq<char>,
> {
    match r {
        Ok((xs, rest)) => Ok((acc + xs, rest)),
        Err(e) => Err(e),
    }
}

proof fn lemma_repeat_step<T>(
    f: spec_fn(Seq<u8>, nat) -> Result<(T, Seq<u8>), Seq<char>>,
    acc: Seq<T>,
    s: Seq<u8>,
    i: nat,
    n: nat,
)
    requires
        i < n,
    ensures
        match f(s, i) {
            Ok((x, r)) => prepend(acc, repeat(f, s, i, n)) == prepend(acc.push(x), repeat(f, r, i + 1, n)),
            Err(e) => prepend(acc, repeat(f, s, i, n)) == Err::<(Seq<T>, Seq<u8>), Seq<char>>(e),
        },
{
    match f(s, i) {
        Ok((x, r)) => {
            match repeat(f, r, i + 1, n) {
                Ok((xs, r2)) => {
                    assert(acc + (seq![x] + xs) =~= acc.push(x) + xs);
                },
                Err(e) => {},
            }
        },
        Err(e) => {},
    }
}

proof fn lemma_repeat_done<T>(
    f: spec_fn(Seq<u8>, nat) -> Result<(T, Seq<u8>), Seq<char>>,
    acc: Seq<T>,
    s: Seq<u8>,
    i: nat,
    n: nat,
)
    requires
        i >= n,
    ensures
        prepend(acc, repeat(f, s, i, n)) == Ok::<(Seq<T>, Seq<u8>), Seq<char>>((acc, s)),
{
    assert(acc + Seq::<T>::empty() =~= acc);
}

/// Reading one value type byte.
pub open spec fn value_type_at(s: Seq<u8>, i: nat) -> Result<(ValueType, Seq<u8>), Seq<char>> {
    match spec_read_byte(s) {
        Ok((b, r)) => match ValueType::spec_from(b) {
            Some(t) => Ok((t, r)),
            None => Err(unsupported_value_type_message(b)),
        },
        Err(e) => Err(e),
    }
}

/// [`value_type_at`] as a value.
pub open spec fn value_type_reader() -> spec_fn(Seq<u8>, nat) -> Result<(ValueType, Seq<u8>), Seq<char>> {
    |s: Seq<u8>, i: nat| value_type_at(s, i)
}

/// The message of a function type that does not start with `0x60`.
pub open spec fn func_marker_message(i: nat) -> Seq<char> {
    "expected 'func' marker (0x60) as first byte of func type "@ + decimal(i) + ""@
}

/// Reading function type number `i`: the marker `0x60`, then the parameter
/// types and the result types, each a count followed by that many types.
pub open spec fn func_type_at(s: Seq<u8>, i: nat) -> Result<(FuncTypeView, Seq<u8>), Seq<char>> {
    match spec_read_byte(s) {
        Err(e) => Err(e),
        Ok((marker, r0)) => if marker != 0x60 {
            Err(func_marker_message(i))
        } else {
            match spec_read_uleb(r0) {
                Err(e) => Err(e),
                Ok((num_params, r1)) => match repeat(value_type_reader(), r1, 0, num_params as nat) {
                    Err(e) => Err(e),
                    Ok((params, r2)) => match spec_read_uleb(r2) {
                        Err(e) => Err(e),
                        Ok((num_results, r3)) => match repeat(
                            value_type_reader(),
                            r3,
                            0,
                            num_results as nat,
                        ) {
                            Err(e) => Err(e),
                            Ok((results, r4)) => Ok((FuncTypeView { params, results }, r4)),
                        },
                    },
                },
            }
        },
    }
}

/// [`func_type_at`] as a value.
pub open spec fn func_type_reader() -> spec_fn(Seq<u8>, nat) -> Result<(FuncTypeView, Seq<u8>), Seq<char>> {
    |s: Seq<u8>, i: nat| func_type_at(s, i)
}

/// Reading an unsigned LEB128 `u32`, whatever its index.
pub open spec fn uleb_reader() -> spec_fn(Seq<u8>, nat) -> Result<(u32, Seq<u8>), Seq<char>> {
    |s: Seq<u8>, i: nat| spec_read_uleb(s)
}

/// The type section: a count, then that many function types. Bytes after
/// them are ignored.
pub open spec fn type_section(c: Seq<u8>) -> Result<Seq<FuncTypeView>, Seq<char>> {
    match spec_read_uleb(c) {
        Err(e) => Err(e),
        Ok((n, r)) => match repeat(func_type_reader(), r, 0, n as nat) {
            Ok((types, _)) => Ok(types),
            Err(e) => Err(e),
        },
    }
}

/// The function section: a count, then that many type indices.
pub open spec fn function_section(c: Seq<u8>) -> Result<Seq<u32>, Seq<char>> {
    match spec_read_uleb(c) {
        Err(e) => Err(e),
        Ok((n, r)) => match repeat(uleb_reader(), r, 0, n as nat) {
            Ok((indices, _)) => Ok(indices),
            Err(e) => Err(e),
        },
    }
}

/// Reading one local declaration: a count, then a value type.
pub open spec fn local_at(s: Seq<u8>, i: nat) -> Result<(FunctionLocal, Seq<u8>), Seq<char>> {
    match spec_read_uleb(s) {
        Err(e) => Err(e),
        Ok((type_count, r)) => match value_type_at(r, 0) {
            Err(e) => Err(e),
            Ok((value_type, r2)) => Ok((FunctionLocal { type_count, value_type }, r2)),
        },
    }
}

/// [`local_at`] as a value.
pub open spec fn local_reader() -> spec_fn(Seq<u8>, nat) -> Result<(FunctionLocal, Seq<u8>), Seq<char>> {
    |s: Seq<u8>, i: nat| local_at(s, i)
}

/// A function body: the local declarations, then a single instruction (an
/// opcode, with an index after `local.get`).
pub open spec fn func_body(c: Seq<u8>) -> Result<FunctionView, Seq<char>> {
    match spec_read_uleb(c) {
        Err(e) => Err(e),
        Ok((n, r)) => match repeat(local_reader(), r, 0, n as nat) {
            Err(e) => Err(e),
            Ok((locals, r2)) => match spec_read_byte(r2) {
                Err(e) => Err(e),
                Ok((b, r3)) => match Opcode::spec_from(b) {
                    None => Err(unsupported_opcode_message(b)),
                    Some(Opcode::End) => Ok(FunctionView { locals, code: seq![Instruction::End] }),
                    Some(Opcode::I32Add) => Ok(
                        FunctionView { locals, code: seq![Instruction::I32Add] },
                    ),
                    Some(Opcode::LocalGet) => match spec_read_uleb(r3) {
                        Err(e) => Err(e),
                        Ok((index, _)) => Ok(
                            FunctionView { locals, code: seq![Instruction::LocalGet(index)] },
                        ),
                    },
                },
            },
        },
    }
}

/// Reading one entry of the code section: a size, then a body of that many
/// bytes.
pub open spec fn function_at(s: Seq<u8>, i: nat) -> Result<(FunctionView, Seq<u8>), Seq<char>> {
    match spec_read_uleb(s) {
        Err(e) => Err(e),
        Ok((size, r)) => match spec_read_slice(r, size as nat) {
            Err(e) => Err(e),
            Ok((body, r2)) => match func_body(body) {
                Err(e) => Err(e),
                Ok(f) => Ok((f, r2)),
            },
        },
    }
}

/// [`function_at`] as a value.
pub open spec fn function_reader() -> spec_fn(Seq<u8>, nat) -> Result<(FunctionView, Seq<u8>), Seq<char>> {
    |s: Seq<u8>, i: nat| function_at(s, i)
}

/// The code section: a count, then that many sized function bodies.
pub open spec fn code_section(c: Seq<u8>) -> Result<Seq<FunctionView>, Seq<char>> {
    match spec_read_uleb(c) {
        Err(e) => Err(e),
        Ok((n, r)) => match repeat(function_reader(), r, 0, n as nat) {
            Ok((functions, _)) => Ok(functions),
            Err(e) => Err(e),
        },
    }
}

/// The message of a header that does not start with `"\0asm"`.
pub open spec fn bad_magic_message() -> Seq<char> {
    "bad magic in Wasm binary"@
}

/// The message of a header with a version other than 1.
pub open spec fn bad_version_message(version: u32) -> Seq<char> {
    "bad version "@ + decimal(version as nat) + " parsed from binary"@
}

/// The module header: the bytes `0x00 0x61 0x73 0x6D` (`"\0asm"`), then the
/// version 1 as a little-endian `u32`. Yields the bytes after it.
pub open spec fn module_header(s: Seq<u8>) -> Result<Seq<u8>, Seq<char>> {
    if s.len() < 4 {
        Err(eof_message())
    } else if s.take(4) != seq![0x00u8, 0x61u8, 0x73u8, 0x6Du8] {
        Err(bad_magic_message())
    } else {
        match spec_read_le_u32(s.skip(4)) {
            Err(e) => Err(e),
            Ok((version, r)) => if version != 1 {
                Err(bad_version_message(version))
            } else {
                Ok(r)
            },
        }
    }
}

/// `m` with the section `code` decoded from `contents`.
pub open spec fn apply_section(m: ModuleView, code: SectionCode, contents: Seq<u8>) -> Result<
    ModuleView,
    Seq<char>,
> {
    match code {
        SectionCode::Type => match type_section(contents) {
            Ok(t) => Ok(ModuleView { type_section: Some(t), ..m }),
            Err(e) => Err(e),
        },
        SectionCode::Function => match function_section(contents) {
            Ok(f) => Ok(ModuleView { function_section: Some(f), ..m }),
            Err(e) => Err(e),
        },
        SectionCode::Code => match code_section(contents) {
            Ok(c) => Ok(ModuleView { code_section: Some(c), ..m }),
            Err(e) => Err(e),
        },
    }
}

pub proof fn lemma_uleb_outcome_len(s: Seq<u8>, i: nat)
    ensures
        uleb_outcome_from(s, i) matches UlebOutcome::Read(n) ==> i < n <= s.len(),
    decreases 5 - i,
{
    if i < s.len() && !(i >= 4 && s[i as int] >= 128) && !(i >= 4 && s[i as int] % 128 >= 16)
        && !(s[i as int] < 128 || i >= 4) {
        lemma_uleb_outcome_len(s, i + 1);
    }
}

/// What follows an unsigned LEB128 number is a suffix of the input.
pub proof fn lemma_read_uleb_shrinks(s: Seq<u8>)
    ensures
        spec_read_uleb(s) matches Ok((v, r)) ==> r.len() < s.len(),
{
    lemma_uleb_outcome_len(s, 0);
}

/// A section header: the id byte of a section that the decoder reads, then
/// the size of its contents.
pub open spec fn section_header(s: Seq<u8>) -> Result<((SectionCode, u32), Seq<u8>), Seq<char>> {
    match spec_read_byte(s) {
        Err(e) => Err(e),
        Ok((b, r0)) => match SectionCode::spec_from(b) {
            None => Err(unsupported_section_message(b)),
            Some(code) => match spec_read_uleb(r0) {
                Err(e) => Err(e),
                Ok((size, r1)) => Ok(((code, size), r1)),
            },
        },
    }
}

/// What follows a section header is shorter than the input.
pub proof fn lemma_section_header_shrinks(s: Seq<u8>)
    ensures
        section_header(s) matches Ok((h, r)) ==> r.len() < s.len(),
{
    if s.len() >= 1 {
        lemma_read_uleb_shrinks(s.skip(1));
    }
}

/// The sections in `s`, one after the other, each applied to `m`: a section
/// header, then as many bytes of contents as it says. A later section of the
/// same kind replaces an earlier one.
pub open spec fn module_sections(s: Seq<u8>, m: ModuleView) -> Result<ModuleView, Seq<char>>
    decreases s.len(),
{
    if s.len() == 0 {
        Ok(m)
    } else {
        match section_header(s) {
            Err(e) => Err(e),
            Ok(((code, size), r1)) => {
                proof {
                    lemma_section_header_shrinks(s);
                }
                match spec_read_slice(r1, size as nat) {
                    Err(e) => Err(e),
                    Ok((contents, r2)) => match apply_section(m, code, contents) {
                        Err(e) => Err(e),
                        Ok(m2) => module_sections(r2, m2),
                    },
                }
            },
        }
    }
}

/// The module that `bytes` encode: the header, then the sections.
pub open spec fn spec_decode_wasm(bytes: Seq<u8>) -> Result<ModuleView, Seq<char>> {
    match module_header(bytes) {
        Err(e) => Err(e),
        Ok(r) => module_sections(r, empty_module()),
    }
}

proof fn lemma_prepend_empty<T>(r: Result<(Seq<T>, Seq<u8>), Seq<char>>)
    ensures
        prepend(Seq::<T>::empty(), r) == r,
{
    match r {
        Ok((xs, rest)) => {
            assert(Seq::<T>::empty() + xs =~= xs);
        },
        Err(e) => {},
    }
}

/// Reads `count` value type bytes.
fn decode_value_types(reader: &mut BinaryReader, count: u32) -> (r: Result<Vec<ValueType>, String>)
    ensures
        match r {
            Ok(v) => repeat(value_type_reader(), old(reader)@, 0, count as nat) == Ok::<
                (Seq<ValueType>, Seq<u8>),
                Seq<char>,
            >((v@, final(reader)@)),
            Err(e) => repeat(value_type_reader(), old(reader)@, 0, count as nat) == Err::<
                (Seq<ValueType>, Seq<u8>),
                Seq<char>,
            >(e@),
        },
{
    let ghost f = value_type_reader();
    let ghost s0 = reader@;
    let mut v: Vec<ValueType> = Vec::new();
    let mut i: u32 = 0;
    proof {
        lemma_prepend_empty(repeat(f, s0, 0, count as nat));
    }
    while i < count
        invariant
            i <= count,
            s0 == old(reader)@,
            f == value_type_reader(),
            repeat(f, s0, 0, count as nat) == prepend(v@, repeat(f, reader@, i as nat, count as nat)),
        decreases count - i,
    {
        proof {
            lemma_repeat_step(f, v@, reader@, i as nat, count as nat);
        }
        let value_type = ValueType::from(reader.read_byte()?)?;
        v.push(value_type);
        i += 1;
    }
    proof {
        lemma_repeat_done(f, v@, reader@, i as nat, count as nat);
    }
    Ok(v)
}

/// Reads function type number `index` of a type section.
fn decode_func_type(reader: &mut BinaryReader, index: u32) -> (r: Result<FuncType, String>)
    ensures
        match r {
            Ok(t) => func_type_at(old(reader)@, index as nat) == Ok::<(FuncTypeView, Seq<u8>), Seq<char>>(
                (t@, final(reader)@),
            ),
            Err(e) => func_type_at(old(reader)@, index as nat) == Err::<
                (FuncTypeView, Seq<u8>),
                Seq<char>,
            >(e@),
        },
{
    if reader.read_byte()? != 0x60 {
        return Err(
            message_with_number(
                "expected 'func' marker (0x60) as first byte of func type ",
                index as u64,
                "",
            ),
        );
    }
    let num_params = reader.read_uleb128_u32()?;
    let params = decode_value_types(reader, num_params)?;
    let num_results = reader.read_uleb128_u32()?;
    let results = decode_value_types(reader, num_results)?;
    Ok(FuncType { params, results })
}

/// Decodes the contents of a type section.
pub fn decode_type_section(contents: &[u8]) -> (r: Result<Vec<FuncType>, String>)
    ensures
        match r {
            Ok(v) => type_section(contents@) == Ok::<Seq<FuncTypeView>, Seq<char>>(func_types_view(v@)),
            Err(e) => type_section(contents@) == Err::<Seq<FuncTypeView>, Seq<char>>(e@),
        },
{
    let mut reader = BinaryReader::new(contents);
    let num_types = reader.read_uleb128_u32()?;
    let ghost f = func_type_reader();
    let ghost s0 = reader@;
    let mut func_types: Vec<FuncType> = Vec::new();
    let mut i: u32 = 0;
    proof {
        lemma_prepend_empty(repeat(f, s0, 0, num_types as nat));
        assert(func_types_view(func_types@) =~= Seq::<FuncTypeView>::empty());
    }
    while i < num_types
        invariant
            i <= num_types,
            f == func_type_reader(),
            spec_read_uleb(contents@) == Ok::<(u32, Seq<u8>), Seq<char>>((num_types, s0)),
            repeat(f, s0, 0, num_types as nat) == prepend(
                func_types_view(func_types@),
                repeat(f, reader@, i as nat, num_types as nat),
            ),
        decreases num_types - i,
    {
        proof {
            lemma_repeat_step(f, func_types_view(func_types@), reader@, i as nat, num_types as nat);
        }
        let func_type = decode_func_type(&mut reader, i)?;
        let ghost before = func_types@;
        func_types.push(func_type);
        proof {
            assert(func_types_view(func_types@) =~= func_types_view(before).push(func_type@));
        }
        i += 1;
    }
    proof {
        lemma_repeat_done(f, func_types_view(func_types@), reader@, i as nat, num_types as nat);
    }
    Ok(func_types)
}

/// Decodes the contents of a function section.
pub fn decode_function_section(contents: &[u8]) -> (r: Result<Vec<u32>, String>)
    ensures
        match r {
            Ok(v) => function_section(contents@) == Ok::<Seq<u32>, Seq<char>>(v@),
            Err(e) => function_section(contents@) == Err::<Seq<u32>, Seq<char>>(e@),
        },
{
    let mut reader = BinaryReader::new(contents);
    let num_functions = reader.read_uleb128_u32()?;
    let ghost f = uleb_reader();
    let ghost s0 = reader@;
    let mut func_indices: Vec<u32> = Vec::new();
    let mut i: u32 = 0;
    proof {
        lemma_prepend_empty(repeat(f, s0, 0, num_functions as nat));
    }
    while i < num_functions
        invariant
            i <= num_functions,
            f == uleb_reader(),
            spec_read_uleb(contents@) == Ok::<(u32, Seq<u8>), Seq<char>>((num_functions, s0)),
            repeat(f, s0, 0, num_functions as nat) == prepend(
                func_indices@,
                repeat(f, reader@, i as nat, num_functions as nat),
            ),
        decreases num_functions - i,
    {
        proof {
            lemma_repeat_step(f, func_indices@, reader@, i as nat, num_functions as nat);
        }
        func_indices.push(reader.read_uleb128_u32()?);
        i += 1;
    }
    proof {
        lemma_repeat_done(f, func_indices@, reader@, i as nat, num_functions as nat);
    }
    Ok(func_indices)
}

/// Decodes the contents of a code section.
pub fn decode_code_section(contents: &[u8]) -> (r: Result<Vec<Function>, String>)
    ensures
        match r {
            Ok(v) => code_section(contents@) == Ok::<Seq<FunctionView>, Seq<char>>(functions_view(v@)),
            Err(e) => code_section(contents@) == Err::<Seq<FunctionView>, Seq<char>>(e@),
        },
{
    let mut reader = BinaryReader::new(contents);
    let num_functions = reader.read_uleb128_u32()?;
    let ghost f = function_reader();
    let ghost s0 = reader@;
    let mut functions: Vec<Function> = Vec::new();
    let mut i: u32 = 0;
    proof {
        lemma_prepend_empty(repeat(f, s0, 0, num_functions as nat));
        assert(functions_view(functions@) =~= Seq::<FunctionView>::empty());
    }
    while i < num_functions
        invariant
            i <= num_functions,
            f == function_reader(),
            spec_read_uleb(contents@) == Ok::<(u32, Seq<u8>), Seq<char>>((num_functions, s0)),
            repeat(f, s0, 0, num_functions as nat) == prepend(
                functions_view(functions@),
                repeat(f, reader@, i as nat, num_functions as nat),
            ),
        decreases num_functions - i,
    {
        proof {
            lemma_repeat_step(f, functions_view(functions@), reader@, i as nat, num_functions as nat);
        }
        let func_body_size = reader.read_uleb128_u32()?;
        let func_body = reader.read_slice(func_body_size as usize)?;
        let function = decode_code_section_func_body(func_body);
        let ghost before = functions@;
        functions.push(function?);
        proof {
            assert(functions_view(functions@) =~= functions_view(before).push(functions@.last()@));
        }
        i += 1;
    }
    proof {
        lemma_repeat_done(f, functions_view(functions@), reader@, i as nat, num_functions as nat);
    }
    Ok(functions)
}

/// Decodes a function body: its local declarations, then its first
/// instruction.
pub fn decode_code_section_func_body(contents: &[u8]) -> (r: Result<Function, String>)
    ensures
        match r {
            Ok(func) => func_body(contents@) == Ok::<FunctionView, Seq<char>>(func@),
            Err(e) => func_body(contents@) == Err::<FunctionView, Seq<char>>(e@),
        },
{
    let mut reader = BinaryReader::new(contents);
    let local_decl_count = reader.read_uleb128_u32()?;
    let ghost f = local_reader();
    let ghost s0 = reader@;
    let mut locals: Vec<FunctionLocal> = Vec::new();
    let mut i: u32 = 0;
    proof {
        lemma_prepend_empty(repeat(f, s0, 0, local_decl_count as nat));
    }
    while i < local_decl_count
        invariant
            i <= local_decl_count,
            f == local_reader(),
            spec_read_uleb(contents@) == Ok::<(u32, Seq<u8>), Seq<char>>((local_decl_count, s0)),
            repeat(f, s0, 0, local_decl_count as nat) == prepend(
                locals@,
                repeat(f, reader@, i as nat, local_decl_count as nat),
            ),
        decreases local_decl_count - i,
    {
        proof {
            lemma_repeat_step(f, locals@, reader@, i as nat, local_decl_count as nat);
        }
        let type_count = reader.read_uleb128_u32()?;
        let value_type = ValueType::from(reader.read_byte()?)?;
        locals.push(FunctionLocal { type_count, value_type });
        i += 1;
    }
    proof {
        lemma_repeat_done(f, locals@, reader@, i as nat, local_decl_count as nat);
    }
    let mut instructions: Vec<Instruction> = Vec::new();
    let opcode = Opcode::from(reader.read_byte()?)?;
    instructions.push(
        match opcode {
            Opcode::End => Instruction::End,
            Opcode::LocalGet => {
                let index = reader.read_uleb128_u32()?;
                Instruction::LocalGet(index)
            },
            Opcode::I32Add => Instruction::I32Add,
        },
    );
    proof {
        assert(instructions@ =~= seq![instructions@[0]]);
    }
    Ok(Function { locals, code: instructions })
}

/// Decodes the module header; yields the magic and the version.
pub fn decode_module_header(reader: &mut BinaryReader) -> (r: Result<(String, u32), String>)
    ensures
        match r {
            Ok((magic, version)) => {
                &&& module_header(old(reader)@) == Ok::<Seq<u8>, Seq<char>>(final(reader)@)
                &&& magic@ == "\0asm"@
                &&& version == 1
            },
            Err(e) => module_header(old(reader)@) == Err::<Seq<u8>, Seq<char>>(e@),
        },
{
    let ghost s = reader@;
    let magic = reader.read_bytes::<4>()?;
    if !(magic[0] == 0x00 && magic[1] == 0x61 && magic[2] == 0x73 && magic[3] == 0x6D) {
        proof {
            let expected = seq![0x00u8, 0x61u8, 0x73u8, 0x6Du8];
            if s.take(4) == expected {
                assert(magic@[0] == expected[0]);
                assert(magic@[1] == expected[1]);
                assert(magic@[2] == expected[2]);
                assert(magic@[3] == expected[3]);
            }
        }
        return Err(String::from_str("bad magic in Wasm binary"));
    }
    proof {
        assert(s.take(4) =~= seq![0x00u8, 0x61u8, 0x73u8, 0x6Du8]);
    }
    let version = reader.read_le_u32()?;
    if version != 1 {
        return Err(message_with_number("bad version ", version as u64, " parsed from binary"));
    }
    Ok((String::from_str("\0asm"), version))
}

/// Decodes a section header; yields the section and the size of its
/// contents.
pub fn decode_section_header(reader: &mut BinaryReader) -> (r: Result<(SectionCode, u32), String>)
    ensures
        match r {
            Ok((code, size)) => section_header(old(reader)@) == Ok::<
                ((SectionCode, u32), Seq<u8>),
                Seq<char>,
            >(((code, size), final(reader)@)),
            Err(e) => section_header(old(reader)@) == Err::<((SectionCode, u32), Seq<u8>), Seq<char>>(
                e@,
            ),
        },
{
    let section_code = SectionCode::from(reader.read_byte()?)?;
    let section_size = reader.read_uleb128_u32()?;
    Ok((section_code, section_size))
}

/// Decodes a WebAssembly binary: its header, then every section in it.
pub fn decode_wasm(bytes: &[u8]) -> (r: Result<Module, String>)
    ensures
        match r {
            Ok(m) => spec_decode_wasm(bytes@) == Ok::<ModuleView, Seq<char>>(m@),
            Err(e) => spec_decode_wasm(bytes@) == Err::<ModuleView, Seq<char>>(e@),
        },
{
    let mut reader = BinaryReader::new(bytes);
    let (magic, version) = decode_module_header(&mut reader)?;
    let mut module = Module::new();
    module.magic = magic;
    module.version = version;
    proof {
        assert(module@ == empty_module());
    }
    while !reader.is_done()
        invariant
            spec_decode_wasm(bytes@) == module_sections(reader@, module@),
        decreases reader@.len(),
    {
        proof {
            lemma_section_header_shrinks(reader@);
        }
        let (section_code, section_size) = decode_section_header(&mut reader)?;
        let section_contents = reader.read_slice(section_size as usize)?;
        match section_code {
            SectionCode::Type => {
                let types = decode_type_section(&section_contents)?;
                module.type_section = Some(types);
            },
            SectionCode::Function => {
                let func_indices = decode_function_section(&section_contents)?;
                module.function_section = Some(func_indices);
            },
            SectionCode::Code => {
                let functions = decode_code_section(&section_contents)?;
                module.code_section = Some(functions);
            },
        }
    }
    Ok(module)
}

} // verus!
