//! The runtime that executes an instantiated module.

use vstd::prelude::*;

use crate::wasm::decoder::{decode_wasm, spec_decode_wasm};
use crate::wasm::store::{spec_store, FuncInstView, Store};
use crate::wasm::{Instruction, ModuleView};

verus! {

/// A value on the operand stack or in a local.
#[derive(Debug, Clone, Copy, PartialEq, Eq)]
pub enum Value {
    I32(i32),
    I64(i64),
}

/// An activation of a function.
#[allow(unused)]
pub struct Frame {
    pc: isize,
    sp: usize,
    instructions: Vec<Instruction>,
    arity: usize,
    locals: Vec<Value>,
}

/// A module ready to run: its store, an operand stack and a call stack.
pub struct Runtime {
    store: Store,
    stack: Vec<Value>,
    call_stack: Vec<Frame>,
}

/// The store of the module that `wasm` encodes.
pub open spec fn spec_instantiate(wasm: Seq<u8>) -> Result<Seq<FuncInstView>, Seq<char>> {
    match spec_decode_wasm(wasm) {
        Err(e) => Err(e),
        Ok(m) => spec_store(m),
    }
}

impl Runtime {
    /// The function instances of the store.
    pub closed spec fn functions(&self) -> Seq<FuncInstView> {
        self.store@
    }

    /// The depth of the operand stack.
    pub closed spec fn stack_depth(&self) -> nat {
        self.stack@.len()
    }

    /// The depth of the call stack.
    pub closed spec fn call_depth(&self) -> nat {
        self.call_stack@.len()
    }

    /// Decodes `wasm` and builds its store; both stacks start empty.
    pub fn instantiate(wasm: &[u8]) -> (r: Result<Self, String>)
        ensures
            match r {
                Ok(rt) => {
                    &&& spec_instantiate(wasm@) == Ok::<Seq<FuncInstView>, Seq<char>>(rt.functions())
                    &&& rt.stack_depth() == 0
                    &&& rt.call_depth() == 0
                },
                Err(e) => spec_instantiate(wasm@) == Err::<Seq<FuncInstView>, Seq<char>>(e@),
            },
    {
        let module = decode_wasm(wasm)?;
        let store = Store::new(module)?;
        Ok(Self { store, stack: vec![], call_stack: vec![] })
    }

    /// The number of function instances of the store.
    pub fn function_count(&self) -> (r: usize)
        ensures
            r == self.functions().len(),
    {
        self.store.len()
    }
}

} // verus!
