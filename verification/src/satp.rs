//! The bit encoding of the translation-control register.
//!
//! Activating an address space writes mode, address-space tag and root
//! page number into the hardware register; the encoding is computed here
//! so that it can be inspected and tested without touching hardware. The
//! privileged register write itself, and the matching translation-cache
//! invalidate, are left to the unverified boot shim.
use vstd::arithmetic::power2::pow2;
use vstd::prelude::*;

use crate::addr::PhysPageNum;
use crate::asid::AddressSpaceId;

verus! {

/// The register value selecting the 3-level single-stage scheme with tag
/// `asid` and root table page `ppn`: mode field 8 in the top four bits,
/// the tag above the page number.
pub fn get_satp_sv39(asid: AddressSpaceId, ppn: PhysPageNum) -> (r: u64)
    requires
        ppn.0 < 0x1000_0000_0000,
    ensures
        r == ((8u64 << 60) | ((asid.0 as u64) << 44) | ppn.0),
        r == 8 * pow2(60) + (asid.0 as nat) * pow2(44) + ppn.0,
{
    let a: u64 = asid.0 as u64;
    let p: u64 = ppn.0;
    let r = (8u64 << 60) | (a << 44) | p;
    proof {
        vstd::arithmetic::power2::lemma2_to64_rest();
        assert((8u64 << 60) | (a << 44) | p == 0x8000_0000_0000_0000u64 + a * 0x1000_0000_0000 + p)
            by (bit_vector)
            requires
                a < 0x1_0000,
                p < 0x1000_0000_0000,
        ;
    }
    r
}

} // verus!
