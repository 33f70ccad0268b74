//! Modular integer arithmetic over `Z_q`.
pub mod bigint;
pub mod composite;
pub mod dft;
pub mod encoding;
pub mod gf2;
pub mod large_modulus;
pub mod large_ntt;
pub mod large_prime;
pub mod large_rns;
pub mod large_zm;
pub mod limb;
pub mod modular;
pub mod ntt;
pub mod montgomery;
pub mod prime;
pub mod prime_ntt;
pub mod primality;
pub mod ring;
pub mod rns;
pub mod z2k;
pub mod zm;

pub use gf2::GF2;
pub use large_modulus::{CanonicalValue, LargeCanonicalRing};
pub use limb::UintLimb;
pub use prime::{PrimeField, PrimeFieldLimb};
pub use ring::{Field, IntegerRing, Ring};
pub use z2k::Z2K;
pub use zm::Zm;
