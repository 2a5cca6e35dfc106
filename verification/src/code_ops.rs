//! Location codes from unsigned integers, and the shifts and bitwise
//! operators on them.
//!
//! The right operand may have any type that converts into 64 bits
//! without loss.
use vstd::prelude::*;
use vstd::std_specs::convert::FromSpec;
use core::ops::{BitAnd, BitOr, BitXor, Shl, Shr};
use crate::loc_code::LocCode;

verus! {

impl From<u8> for LocCode {
    fn from(val: u8) -> (code: LocCode) {
        LocCode(val as u64)
    }
}

impl vstd::std_specs::convert::FromSpecImpl<u8> for LocCode {
    open spec fn obeys_from_spec() -> bool {
        true
    }

    open spec fn from_spec(val: u8) -> LocCode {
        LocCode(val as u64)
    }
}

impl From<u16> for LocCode {
    fn from(val: u16) -> (code: LocCode) {
        LocCode(val as u64)
    }
}

impl vstd::std_specs::convert::FromSpecImpl<u16> for LocCode {
    open spec fn obeys_from_spec() -> bool {
        true
    }

    open spec fn from_spec(val: u16) -> LocCode {
        LocCode(val as u64)
    }
}

impl From<u32> for LocCode {
    fn from(val: u32) -> (code: LocCode) {
        LocCode(val as u64)
    }
}

impl vstd::std_specs::convert::FromSpecImpl<u32> for LocCode {
    open spec fn obeys_from_spec() -> bool {
        true
    }

    open spec fn from_spec(val: u32) -> LocCode {
        LocCode(val as u64)
    }
}

impl From<u64> for LocCode {
    fn from(val: u64) -> (code: LocCode) {
        LocCode(val)
    }
}

impl vstd::std_specs::convert::FromSpecImpl<u64> for LocCode {
    open spec fn obeys_from_spec() -> bool {
        true
    }

    open spec fn from_spec(val: u64) -> LocCode {
        LocCode(val)
    }
}

impl<D> Shl<D> for LocCode where u64: From<D> {
    type Output = LocCode;

    /// The code shifted left; bits that leave the 64 are lost.
    fn shl(self, rhs: D) -> (code: LocCode) {
        let LocCode(lhs) = self;
        let by: u64 = u64::from(rhs);
        LocCode(lhs << by)
    }
}

impl<D> vstd::std_specs::ops::ShlSpecImpl<D> for LocCode where u64: From<D> {
    open spec fn obeys_shl_spec() -> bool {
        <u64 as FromSpec<D>>::obeys_from_spec()
    }

    open spec fn shl_req(self, rhs: D) -> bool {
        <u64 as FromSpec<D>>::obeys_from_spec() && <u64 as FromSpec<D>>::from_spec(rhs) < 64
    }

    open spec fn shl_spec(self, rhs: D) -> LocCode {
        LocCode(self.0 << <u64 as FromSpec<D>>::from_spec(rhs))
    }
}

impl<D> Shr<D> for LocCode where u64: From<D> {
    type Output = LocCode;

    fn shr(self, rhs: D) -> (code: LocCode) {
        let LocCode(lhs) = self;
        let by: u64 = u64::from(rhs);
        LocCode(lhs >> by)
    }
}

impl<D> vstd::std_specs::ops::ShrSpecImpl<D> for LocCode where u64: From<D> {
    open spec fn obeys_shr_spec() -> bool {
        <u64 as FromSpec<D>>::obeys_from_spec()
    }

    open spec fn shr_req(self, rhs: D) -> bool {
        <u64 as FromSpec<D>>::obeys_from_spec() && <u64 as FromSpec<D>>::from_spec(rhs) < 64
    }

    open spec fn shr_spec(self, rhs: D) -> LocCode {
        LocCode(self.0 >> <u64 as FromSpec<D>>::from_spec(rhs))
    }
}

impl<D> BitXor<D> for LocCode where u64: From<D> {
    type Output = LocCode;

    fn bitxor(self, rhs: D) -> (code: LocCode) {
        let LocCode(lhs) = self;
        let with: u64 = u64::from(rhs);
        LocCode(lhs ^ with)
    }
}

impl<D> vstd::std_specs::ops::BitXorSpecImpl<D> for LocCode where u64: From<D> {
    open spec fn obeys_bitxor_spec() -> bool {
        <u64 as FromSpec<D>>::obeys_from_spec()
    }

    open spec fn bitxor_req(self, rhs: D) -> bool {
        true
    }

    open spec fn bitxor_spec(self, rhs: D) -> LocCode {
        LocCode(self.0 ^ <u64 as FromSpec<D>>::from_spec(rhs))
    }
}

impl<D> BitAnd<D> for LocCode where u64: From<D> {
    type Output = LocCode;

    fn bitand(self, rhs: D) -> (code: LocCode) {
        let LocCode(lhs) = self;
        let with: u64 = u64::from(rhs);
        LocCode(lhs & with)
    }
}

impl<D> vstd::std_specs::ops::BitAndSpecImpl<D> for LocCode where u64: From<D> {
    open spec fn obeys_bitand_spec() -> bool {
        <u64 as FromSpec<D>>::obeys_from_spec()
    }

    open spec fn bitand_req(self, rhs: D) -> bool {
        true
    }

    open spec fn bitand_spec(self, rhs: D) -> LocCode {
        LocCode(self.0 & <u64 as FromSpec<D>>::from_spec(rhs))
    }
}

impl<D> BitOr<D> for LocCode where u64: From<D> {
    type Output = LocCode;

    fn bitor(self, rhs: D) -> (code: LocCode) {
        let LocCode(lhs) = self;
        let with: u64 = u64::from(rhs);
        LocCode(lhs | with)
    }
}

impl<D> vstd::std_specs::ops::BitOrSpecImpl<D> for LocCode where u64: From<D> {
    open spec fn obeys_bitor_spec() -> bool {
        <u64 as FromSpec<D>>::obeys_from_spec()
    }

    open spec fn bitor_req(self, rhs: D) -> bool {
        true
    }

    open spec fn bitor_spec(self, rhs: D) -> LocCode {
        LocCode(self.0 | <u64 as FromSpec<D>>::from_spec(rhs))
    }
}

} // verus!
