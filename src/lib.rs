pub mod equation;
pub mod operation;
pub mod rng;
pub mod text;
pub mod values;

pub use equation::Equation;
pub use operation::{OperationConfig, OperationType};
pub use values::{NumberType, Value};
