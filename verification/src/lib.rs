//! A vector that grows in fragments, for many threads that append and one that takes everything off.
//!
//! A [`VecBelt`] takes whole batches. Each is put behind what is there already and is given the index
//! of its first element; a batch that does not fit into the last fragment brings a new one, as large
//! as the belt then is long. [`VecBelt::clear`] puts everything into one piece and hands it out as a
//! [`ConsumeSlice`].
//!
//! - [`belt`]: the belt, and the batches that it can and cannot take.
//! - [`fragment`]: the fragments, and the memory that they need.
//! - [`transfer`]: what can be appended.
//! - [`consume`]: what is handed out.
//! - [`shared_belt`]: a belt that threads take turns at.
//! - [`len_word`]: the word that threads meet at, which holds the length and the lock.
//! - [`shared_word`]: what can be done to such a word.
//! - [`laws`]: what holds over several calls.
//! - [`interleaving`]: what holds however the steps of several threads are mixed.
//! - [`agreement`]: how the turns of threads at a belt are such steps.

pub mod agreement;
pub mod belt;
pub mod consume;
pub mod fragment;
mod hints;
pub mod interleaving;
pub mod laws;
pub mod len_word;
pub mod shared_belt;
pub mod shared_word;
pub mod transfer;

pub use belt::{BeltError, VecBelt};
pub use consume::{ConsumeIter, ConsumeSlice};
pub use fragment::Fragment;
pub use shared_belt::SharedBelt;
pub use transfer::{drain_batch, Drained, TransferBelt};
