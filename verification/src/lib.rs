//! Paged virtual-memory core for a bare-metal RISC-V hypervisor: physical
//! frame ownership, address-space-identifier allocation, multi-level page
//! table construction, range-to-entry decomposition, and cross-address-space
//! reads.
pub mod addr;
pub mod asid;
pub mod frame;
pub mod level;
pub mod mode;
pub mod satp;
pub mod solve;
pub mod space;
pub mod table;
pub mod translate;

pub use addr::{PhysAddr, PhysPageNum, VirtAddr, VirtPageNum};
pub use asid::{AddressSpaceId, AsidAllocError, StackAsidAllocator};
pub use frame::{FrameAllocError, FrameAllocator, FrameBox, FrameLayoutError, StackFrameAllocator};
pub use level::{LevelIter, PageLayout, PageLevel};
pub use mode::{PageMode, Sv39, Sv39x4};
pub use satp::get_satp_sv39;
pub use solve::MapPairs;
pub use space::{MapError, PageError, PagedAddrSpace};
pub use table::{Sv39Flags, Sv39PageEntry, Sv39PageSlot, Sv39PageTable};
pub use translate::translate_frame_read;
