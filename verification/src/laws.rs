//! What holds of every run: properties of the merge, of the batches and
//! their replies, and of a second run, proved from the definitions.

pub mod merge;
pub mod replies;
pub mod second_run;
