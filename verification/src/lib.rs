//! The logic of `fed`, which opens files with their default application or
//! lists the applications that can open a file.
use vstd::prelude::*;

pub mod linux;
pub mod macos;
pub mod options;
pub mod paths;
pub mod run;
pub mod text;
pub mod unsupported;
pub mod windows;

verus! {

} // verus!
