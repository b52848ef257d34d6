//! The arithmetic and transcendental operations, one trait per operation.

pub mod add;

pub mod sub;

pub mod neg;

pub mod mul;

pub mod div;

pub mod mul_up;

pub mod div_up;

pub mod big_mul;

pub mod big_div;

pub mod sqrt;

pub mod log_2;

pub mod log_10;

pub mod ln;

pub mod pow;

pub use add::Add;
pub use sub::Sub;
pub use neg::Neg;
pub use mul::Mul;
pub use div::Div;
pub use mul_up::MulUp;
pub use div_up::DivUp;
pub use big_mul::BigMul;
pub use big_div::BigDiv;
pub use sqrt::Sqrt;
pub use log_2::Log2;
pub use log_10::Log10;
pub use ln::Ln;
pub use pow::Pow;
