//! Decoding of WebAssembly binaries: the pieces of a module that the decoder
//! understands, and their encodings.

pub mod binary;
pub mod decoder;
pub mod runtime;
pub mod store;

use vstd::prelude::*;

use crate::text::{decimal, message_with_number};

verus! {

/// The sections of a module that the decoder reads.
#[derive(Debug, Clone, Copy, PartialEq, Eq)]
pub enum SectionCode {
    Type,
    Function,
    Code,
}

/// The message of a section id that the decoder does not read.
pub open spec fn unsupported_section_message(code: u8) -> Seq<char> {
    "unsupported section code "@ + decimal(code as nat) + " provided"@
}

impl SectionCode {
    /// The section with id `code`, if the decoder reads it.
    pub open spec fn spec_from(code: u8) -> Option<SectionCode> {
        if code == 0x01 {
            Some(SectionCode::Type)
        } else if code == 0x03 {
            Some(SectionCode::Function)
        } else if code == 0x0A {
            Some(SectionCode::Code)
        } else {
            None
        }
    }

    /// The section with id `code`; an error for any id other than
    /// `0x01`, `0x03` and `0x0A`.
    pub fn from(code: u8) -> (r: Result<Self, String>)
        ensures
            match r {
                Ok(c) => Self::spec_from(code) == Some(c),
                Err(e) => Self::spec_from(code) is None && e@ == unsupported_section_message(code),
            },
    {
        if code == 0x01 {
            Ok(Self::Type)
        } else if code == 0x03 {
            Ok(Self::Function)
        } else if code == 0x0A {
            Ok(Self::Code)
        } else {
            Err(message_with_number("unsupported section code ", code as u64, " provided"))
        }
    }
}

/// The type of a value.
#[derive(Debug, Clone, Copy, PartialEq, Eq)]
pub enum ValueType {
    I32,
    I64,
}

/// The message of a value type byte that the decoder does not know.
pub open spec fn unsupported_value_type_message(value: u8) -> Seq<char> {
    "unsupported value type "@ + decimal(value as nat) + " provided"@
}

impl ValueType {
    /// The value type encoded by `value`, if any.
    pub open spec fn spec_from(value: u8) -> Option<ValueType> {
        if value == 0x7F {
            Some(ValueType::I32)
        } else if value == 0x7E {
            Some(ValueType::I64)
        } else {
            None
        }
    }

    /// The value type encoded by `value`: `0x7F` is `i32`, `0x7E` is `i64`;
    /// any other byte is an error.
    pub fn from(value: u8) -> (r: Result<Self, String>)
        ensures
            match r {
                Ok(t) => Self::spec_from(value) == Some(t),
                Err(e) => Self::spec_from(value) is None && e@ == unsupported_value_type_message(
                    value,
                ),
            },
    {
        if value == 0x7F {
            Ok(Self::I32)
        } else if value == 0x7E {
            Ok(Self::I64)
        } else {
            Err(message_with_number("unsupported value type ", value as u64, " provided"))
        }
    }
}

/// A function signature.
#[derive(Debug, PartialEq)]
pub struct FuncType {
    pub params: Vec<ValueType>,
    pub results: Vec<ValueType>,
}

/// The contents of a [`FuncType`].
pub struct FuncTypeView {
    pub params: Seq<ValueType>,
    pub results: Seq<ValueType>,
}

impl View for FuncType {
    type V = FuncTypeView;

    open spec fn view(&self) -> FuncTypeView {
        FuncTypeView { params: self.params@, results: self.results@ }
    }
}

/// A copy of a sequence of value types.
pub fn copy_value_types(v: &Vec<ValueType>) -> (r: Vec<ValueType>)
    ensures
        r@ == v@,
{
    let mut r: Vec<ValueType> = Vec::new();
    let mut i: usize = 0;
    while i < v.len()
        invariant
            i <= v.len(),
            r@ == v@.take(i as int),
        decreases v.len() - i,
    {
        r.push(v[i]);
        i += 1;
        assert(r@ =~= v@.take(i as int));
    }
    assert(v@.take(v.len() as int) =~= v@);
    r
}

impl FuncType {
    /// A copy of this signature.
    pub fn copy(&self) -> (r: FuncType)
        ensures
            r@ == self@,
    {
        FuncType { params: copy_value_types(&self.params), results: copy_value_types(&self.results) }
    }
}

/// A function body: its local declarations and its instructions.
#[derive(Debug, PartialEq)]
pub struct Function {
    pub locals: Vec<FunctionLocal>,
    pub code: Vec<Instruction>,
}

/// The contents of a [`Function`].
pub struct FunctionView {
    pub locals: Seq<FunctionLocal>,
    pub code: Seq<Instruction>,
}

impl View for Function {
    type V = FunctionView;

    open spec fn view(&self) -> FunctionView {
        FunctionView { locals: self.locals@, code: self.code@ }
    }
}

impl Function {
    /// A copy of this function body.
    pub fn copy(&self) -> (r: Function)
        ensures
            r@ == self@,
    {
        let mut locals: Vec<FunctionLocal> = Vec::new();
        let mut i: usize = 0;
        while i < self.locals.len()
            invariant
                i <= self.locals.len(),
                locals@ == self.locals@.take(i as int),
            decreases self.locals.len() - i,
        {
            locals.push(self.locals[i]);
            i += 1;
            assert(locals@ =~= self.locals@.take(i as int));
        }
        assert(self.locals@.take(self.locals.len() as int) =~= self.locals@);
        let mut code: Vec<Instruction> = Vec::new();
        let mut j: usize = 0;
        while j < self.code.len()
            invariant
                j <= self.code.len(),
                code@ == self.code@.take(j as int),
            decreases self.code.len() - j,
        {
            code.push(self.code[j]);
            j += 1;
            assert(code@ =~= self.code@.take(j as int));
        }
        assert(self.code@.take(self.code.len() as int) =~= self.code@);
        Function { locals, code }
    }
}

/// A run of locals of one type.
#[derive(Debug, Clone, Copy, PartialEq, Eq)]
pub struct FunctionLocal {
    pub type_count: u32,
    pub value_type: ValueType,
}

/// A decoded instruction.
#[derive(Debug, Clone, Copy, PartialEq, Eq)]
pub enum Instruction {
    End,
    LocalGet(u32),
    I32Add,
}

/// The instruction opcodes that the decoder knows.
#[derive(Debug, Clone, Copy, PartialEq, Eq)]
pub enum Opcode {
    End,
    LocalGet,
    I32Add,
}

/// The message of an opcode that the decoder does not know.
pub open spec fn unsupported_opcode_message(value: u8) -> Seq<char> {
    "unsupported instruction code "@ + decimal(value as nat) + " provided"@
}

impl Opcode {
    /// The opcode encoded by `value`, if any.
    pub open spec fn spec_from(value: u8) -> Option<Opcode> {
        if value == 0x0B {
            Some(Opcode::End)
        } else if value == 0x20 {
            Some(Opcode::LocalGet)
        } else if value == 0x6A {
            Some(Opcode::I32Add)
        } else {
            None
        }
    }

    /// The opcode encoded by `value`: `0x0B` is `end`, `0x20` is
    /// `local.get`, `0x6A` is `i32.add`; any other byte is an error.
    pub fn from(value: u8) -> (r: Result<Self, String>)
        ensures
            match r {
                Ok(o) => Self::spec_from(value) == Some(o),
                Err(e) => Self::spec_from(value) is None && e@ == unsupported_opcode_message(value),
            },
    {
        if value == 0x0B {
            Ok(Self::End)
        } else if value == 0x20 {
            Ok(Self::LocalGet)
        } else if value == 0x6A {
            Ok(Self::I32Add)
        } else {
            Err(message_with_number("unsupported instruction code ", value as u64, " provided"))
        }
    }
}

/// The outcome of decoding: the header and the sections that were present.
#[derive(Debug, PartialEq)]
pub struct Module {
    pub magic: String,
    pub version: u32,
    pub type_section: Option<Vec<FuncType>>,
    pub function_section: Option<Vec<u32>>,
    pub code_section: Option<Vec<Function>>,
}

/// The contents of a [`Module`].
pub struct ModuleView {
    pub magic: Seq<char>,
    pub version: u32,
    pub type_section: Option<Seq<FuncTypeView>>,
    pub function_section: Option<Seq<u32>>,
    pub code_section: Option<Seq<FunctionView>>,
}

/// The contents of a sequence of signatures.
pub open spec fn func_types_view(v: Seq<FuncType>) -> Seq<FuncTypeView> {
    v.map_values(|f: FuncType| f@)
}

/// The contents of a sequence of function bodies.
pub open spec fn functions_view(v: Seq<Function>) -> Seq<FunctionView> {
    v.map_values(|f: Function| f@)
}

impl View for Module {
    type V = ModuleView;

    open spec fn view(&self) -> ModuleView {
        ModuleView {
            magic: self.magic@,
            version: self.version,
            type_section: match self.type_section {
                Some(v) => Some(func_types_view(v@)),
                None => None,
            },
            function_section: match self.function_section {
                Some(v) => Some(v@),
                None => None,
            },
            code_section: match self.code_section {
                Some(v) => Some(functions_view(v@)),
                None => None,
            },
        }
    }
}

/// A module with the standard header and no sections.
pub open spec fn empty_module() -> ModuleView {
    ModuleView {
        magic: "\0asm"@,
        version: 1,
        type_section: None,
        function_section: None,
        code_section: None,
    }
}

impl Module {
    /// A module with the magic `"\0asm"`, version 1 and no sections.
    pub fn new() -> (r: Self)
        ensures
            r@ == empty_module(),
    {
        Module {
            magic: String::from_str("\0asm"),
            version: 1,
            type_section: None,
            function_section: None,
            code_section: None,
        }
    }
}

} // verus!
