//! Single secret leader election: the verified arithmetic, encoding and
//! decision logic of the protocol.
pub mod bignum;
pub mod fast_path;
pub mod fold;
pub mod keys;
pub mod limbs;
pub mod masks;
pub mod network;
pub mod opening;
pub mod parameters;
pub mod poly;
pub mod protocol;

pub use fast_path::{
    add_mod_u128, biguint_to_u128, neg_mod_u128, read_u128, scale_round_and_mod, sub_mod_u128,
    write_u128,
};
pub use keys::KeyGen;
pub use masks::generate_dd_random;
pub use network::{Id, NetIoError};
pub use parameters::{CommitModulus, CommitValueT, CrtValueT};
