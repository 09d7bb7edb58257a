//! Verified core of a family of ledger contracts.
//!
//! The centre is the access-and-sharing authorization engine in
//! [`access_control`]. Around it stand the contracts that it works with:
//! the storage of a content item, its version history, the name service, the
//! profile card, the multi-token ledger, and a game with its score board.
//! Each contract is a state with its operations; what a contract has to ask
//! of its host or of another contract is handed to the operation as a value.

pub mod access_control;
pub mod address_set;
pub mod assoc;
pub mod contract_call;
pub mod data_storage;
pub mod game;
pub mod name_service;
pub mod nft;
pub mod profile_card;
pub mod score_board;
pub mod string_set;
pub mod types;
pub mod version_control;
