//! A verified model of the value bridge between a host program and an
//! embedded JavaScript engine: a tagged value representation that can cross a
//! foreign-function boundary, reference-counted handles tied to one execution
//! context, a conversion layer between host types and bridge values, and the
//! marshaling protocol for host callbacks invoked from inside the engine.

#![verifier::loop_isolation(false)]

pub mod array;
pub mod callback;
pub mod conversion;
pub mod descriptor;
pub mod error;
pub mod function;
pub mod mini_v8;
pub mod number;
pub mod object;
pub mod script;
pub mod string;
pub mod value;

pub use crate::callback::{dispatch_callback, CallbackOutcome, Invocation};
pub use crate::conversion::{FromValue, FromValues, ToValue, ToValues, Values, Variadic};
pub use crate::descriptor::{decode, encode, try_decode, Descriptor};
pub use crate::error::Error;
pub use crate::mini_v8::MiniV8;
pub use crate::script::{EvalPlan, Script, ScriptOrigin};
pub use crate::value::{Array, Function, Handle, JsString, Object, Value};
