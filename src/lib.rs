//! A registry of accounts and a token ledger. Each identity may register one
//! unique username and is credited with a fixed grant; balances move between
//! identities by transfers that never create or destroy tokens.
mod identity;
mod token;
mod state;

pub use identity::Identity;
pub use token::{IRC2Token, TransferError};
pub use state::{RegistrationError, State, User, GRANT};
