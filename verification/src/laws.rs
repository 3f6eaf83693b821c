//! What the parts of the library do for their users, said of their results alone: how two
//! results relate, what a result keeps, what it gives back.

pub mod decoding;
pub mod exporting;
pub mod framing;
pub mod grading;
pub mod matching;
pub mod placing;
pub mod probing;
pub mod projects;
pub mod shoots;
pub mod syncing;
pub mod viewing;
pub mod working;
