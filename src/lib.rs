//! Early-boot address translation for a RISC-V kernel: entry encoding,
//! the boot page tables and their mapper, the three boot aliases, the
//! translation-mode setting, and the call-frame fixup after it.
use vstd::prelude::*;

pub mod codec;
pub mod tables;
pub mod boot;
pub mod driver;

verus! {

} // verus!
