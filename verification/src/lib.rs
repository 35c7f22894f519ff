//! The decisions of an interactive ledger client: how operator input
//! becomes checked values, how the prompt loop goes on or ends, and in which
//! order a transaction is put together, signed and sent.

pub mod amount;
pub mod assembler;
pub mod binary64;
pub mod dispatch;
pub mod error;
pub mod text;
pub mod validate;

pub use amount::{
    lamports_to_sol, parse_amount, sol_to_lamports, SolAmount, LAMPORTS_PER_SOL, LARGEST_AMOUNT,
};
pub use assembler::{Assembly, StepResult};
pub use dispatch::{replay, CommandOutcome, LoopState, Replay, Turn};
pub use error::ValidationError;
pub use validate::{parse_commission, trim_and_parse, Commission, MAX_COMMISSION};
