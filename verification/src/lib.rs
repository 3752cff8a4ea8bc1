//! A rotating savings circle: a fixed group of members each contribute a
//! fixed amount every round, and each round the whole pot goes to one member
//! who has not won yet, until every member has been paid out exactly once.
//!
//! The library holds the circle's state machine and the address derivations
//! that the program and its clients share; moving tokens and reading accounts
//! is left to the caller.

pub mod key;
pub mod mask;
pub mod circle;
pub mod address;
pub mod runtime;
pub mod laws;

pub use address::{
    associated_token_account, circle_pda, member_token_accounts, program_id, vault_pda,
};
pub use circle::{
    check_contributor, close_circle, contribute_at_slot, create_circle, join_circle, CircleError, Contribution,
    Payout, SavingsCircle, MAX_MEMBERS,
};
pub use key::Key;
pub use mask::mask_to_indices;
pub use runtime::{contribute, ContributeError};
