//! Both sides of a small machine on Linux KVM: the decisions of the virtual
//! machine monitor, and those of the guests that it boots.
//!
//! Guest memory is a byte slice whose index is the guest physical address, and
//! port output is a log of writes. Everything that touches the hardware or the
//! host operating system is left to the programs around this crate.

pub mod abi;
pub mod boot;
pub mod canvas;
pub mod kernel_image;
pub mod le;
pub mod linux;
pub mod memory;
pub mod paging;
pub mod paint;
pub mod program;
pub mod runtime;
pub mod stack;
pub mod syscall;
pub mod text;
pub mod torus;
pub mod vmm;
