pub mod dice;
pub mod equation;
pub mod num;
pub mod roll_result;
pub mod text;

pub use dice::{Die, Roll};
pub use equation::Equation;
pub use num::{random, randomMulti};
pub use roll_result::RollResult;
