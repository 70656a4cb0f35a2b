//! The built-in functions of JMESPath, a query language for JSON: their
//! argument types and validation, and what each function computes, with
//! contracts proved by Verus.

use vstd::prelude::*;

pub mod text;
pub mod number;
pub mod variable;
pub mod argument;
pub mod error;
pub mod validate;
pub mod functions;
pub mod objects;
pub mod ordering;
pub mod expref;
pub mod registry;
pub mod laws;

pub use argument::ArgumentType;
pub use error::{RuntimeError, SearchResult, validate_arity, validate_min_arity};
pub use number::Float;
pub use registry::{
    CoreFunction,
    FloatFunction,
    Functions,
    Interpreter,
    JPFunction,
    register_core_functions,
};
pub use text::Order;
pub use variable::{Ast, JsonType, Variable};
