//! Number theory on big integers.

pub mod gcd;
pub mod jacobi;
pub mod lucas;
pub mod power;
pub mod prime;
pub mod prime_rand;
pub mod roots;

pub use self::gcd::{extended_gcd, ModInverse};
pub use self::jacobi::jacobi;
pub use self::power::{modpow_uint_int, pow_assign};
pub use self::roots::{root_factor, shamir_trick};
