//! The store: the function instances of an instantiated module.

use vstd::prelude::*;

use crate::text::{decimal, message_with_number};
use crate::wasm::{
    func_types_view, functions_view, FuncType, FuncTypeView, Function, FunctionView, Module,
    ModuleView,
};

verus! {

/// A function defined by the module itself.
#[allow(unused)]
pub struct InternalFuncInst {
    func_type: FuncType,
    code: Function,
}

/// A function instance.
#[allow(unused)]
pub enum FuncInst {
    Internal(InternalFuncInst),
}

/// The contents of a [`FuncInst`]: its signature and its body.
pub struct FuncInstView {
    pub func_type: FuncTypeView,
    pub code: FunctionView,
}

impl View for FuncInst {
    type V = FuncInstView;

    closed spec fn view(&self) -> FuncInstView {
        match self {
            FuncInst::Internal(f) => FuncInstView { func_type: f.func_type@, code: f.code@ },
        }
    }
}

/// The function instances of a module.
#[allow(unused)]
pub struct Store {
    functions: Vec<FuncInst>,
}

impl View for Store {
    type V = Seq<FuncInstView>;

    closed spec fn view(&self) -> Seq<FuncInstView> {
        self.functions@.map_values(|f: FuncInst| f@)
    }
}

/// The message of a module with code but no type section.
pub open spec fn missing_type_section_message() -> Seq<char> {
    "type section expected but not found"@
}

/// The message of a function whose type index is out of range.
pub open spec fn bad_type_index_message(index: u32) -> Seq<char> {
    "type index "@ + decimal(index as nat) + " not found in type section"@
}

/// The instances of the first `k` bodies of `code`, each paired with the
/// signature that `indices` gives it in `types`.
pub open spec fn instances(
    code: Seq<FunctionView>,
    indices: Seq<u32>,
    types: Seq<FuncTypeView>,
    k: nat,
) -> Result<Seq<FuncInstView>, Seq<char>>
    decreases k,
{
    if k == 0 {
        Ok(Seq::empty())
    } else {
        match instances(code, indices, types, (k - 1) as nat) {
            Err(e) => Err(e),
            Ok(fs) => {
                let index = indices[k - 1];
                if index < types.len() {
                    Ok(fs.push(FuncInstView { func_type: types[index as int], code: code[k - 1] }))
                } else {
                    Err(bad_type_index_message(index))
                }
            },
        }
    }
}

/// The function instances of module `m`: one for each body of the code
/// section that has an entry in the function section, in order.
pub open spec fn spec_store(m: ModuleView) -> Result<Seq<FuncInstView>, Seq<char>> {
    let indices = match m.function_section {
        Some(i) => i,
        None => Seq::empty(),
    };
    match m.code_section {
        None => Ok(Seq::empty()),
        Some(code) => match m.type_section {
            None => Err(missing_type_section_message()),
            Some(types) => instances(
                code,
                indices,
                types,
                if code.len() <= indices.len() { code.len() } else { indices.len() },
            ),
        },
    }
}

/// Once a prefix of the bodies fails, every longer prefix fails the same way.
pub proof fn lemma_instances_error_persists(
    code: Seq<FunctionView>,
    indices: Seq<u32>,
    types: Seq<FuncTypeView>,
    k: nat,
    k2: nat,
)
    requires
        k <= k2,
        instances(code, indices, types, k) is Err,
    ensures
        instances(code, indices, types, k2) == instances(code, indices, types, k),
    decreases k2 - k,
{
    if k < k2 {
        lemma_instances_error_persists(code, indices, types, k, (k2 - 1) as nat);
    }
}

impl Store {
    /// The store of `module`.
    pub fn new(module: Module) -> (r: Result<Self, String>)
        ensures
            match r {
                Ok(store) => spec_store(module@) == Ok::<Seq<FuncInstView>, Seq<char>>(store@),
                Err(e) => spec_store(module@) == Err::<Seq<FuncInstView>, Seq<char>>(e@),
            },
    {
        let ghost m = module@;
        let func_indices = match module.function_section {
            Some(indices) => indices,
            None => vec![],
        };
        let mut functions: Vec<FuncInst> = vec![];
        proof {
            assert(functions@.map_values(|f: FuncInst| f@) =~= Seq::<FuncInstView>::empty());
        }
        if let Some(code_section) = module.code_section {
            let func_types = match module.type_section {
                Some(t) => t,
                None => {
                    return Err(String::from_str("type section expected but not found"));
                },
            };
            let n = if code_section.len() <= func_indices.len() {
                code_section.len()
            } else {
                func_indices.len()
            };
            let ghost code = functions_view(code_section@);
            let ghost types = func_types_view(func_types@);
            let mut i: usize = 0;
            while i < n
                invariant
                    i <= n,
                    n <= code_section.len(),
                    n <= func_indices.len(),
                    code == functions_view(code_section@),
                    types == func_types_view(func_types@),
                    m.code_section == Some(code),
                    m == module@,
                    n == (if code.len() <= func_indices@.len() {
                        code.len()
                    } else {
                        func_indices@.len()
                    }),
                    m.type_section == Some(types),
                    func_indices@ == (match m.function_section {
                        Some(i) => i,
                        None => Seq::<u32>::empty(),
                    }),
                    instances(code, func_indices@, types, i as nat) == Ok::<
                        Seq<FuncInstView>,
                        Seq<char>,
                    >(functions@.map_values(|f: FuncInst| f@)),
                decreases n - i,
            {
                let type_index = func_indices[i];
                if type_index as usize >= func_types.len() {
                    proof {
                        assert(types.len() == func_types@.len());
                        assert(instances(code, func_indices@, types, (i + 1) as nat) == Err::<Seq<FuncInstView>, Seq<char>>(bad_type_index_message(type_index)));
                        assert(n == (if code.len() <= func_indices@.len() {
                            code.len()
                        } else {
                            func_indices@.len()
                        }));
                        lemma_instances_error_persists(
                            code,
                            func_indices@,
                            types,
                            (i + 1) as nat,
                            n as nat,
                        );
                    }
                    return Err(
                        message_with_number(
                            "type index ",
                            type_index as u64,
                            " not found in type section",
                        ),
                    );
                }
                let func_type = &func_types[type_index as usize];
                let func_body = &code_section[i];
                let function = FuncInst::Internal(
                    InternalFuncInst { func_type: func_type.copy(), code: func_body.copy() },
                );
                let ghost before = functions@;
                functions.push(function);
                proof {
                    assert(functions@.map_values(|f: FuncInst| f@) =~= before.map_values(
                        |f: FuncInst| f@,
                    ).push(function@));
                }
                i += 1;
            }
            proof {
                assert(n == (if code.len() <= func_indices@.len() {
                    code.len()
                } else {
                    func_indices@.len()
                }));
            }
        }
        Ok(Self { functions })
    }

    /// The number of function instances.
    pub fn len(&self) -> (r: usize)
        ensures
            r == self@.len(),
    {
        self.functions.len()
    }
}

} // verus!
