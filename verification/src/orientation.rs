//! Octant tags.
//!
//! A tag names, for each of the three axes, the side of a splitting plane on
//! which a box lies, or leaves that axis open.  The eight tags that fix all
//! three axes are the corners of a cell; the others occur only while a box is
//! being cut.  Axis X runs from left (`L`) to right (`R`), axis Y from down
//! (`D`) to up (`U`), axis Z from back (`B`) to front (`F`).
use vstd::prelude::*;
use crate::loc_code::{
    LocCode, half_edge, is_code, lemma_half_edge_shift, lemma_level_bound, level_of,
};

verus! {

#[derive(Debug, Clone, Copy, PartialEq, Eq, Structural)]
pub enum Orientation {
    LBU,
    LFU,
    LFD,
    LBD,
    RBD,
    RFD,
    RFU,
    RBU,
    N,
    L,
    R,
    F,
    B,
    U,
    D,
    LF,
    LB,
    RF,
    RB,
    FU,
    FD,
    BU,
    BD,
    LU,
    LD,
    RU,
    RD,
}

/// The tag that lies on side `x` of the X plane, `y` of the Y plane and `z`
/// of the Z plane, where a side is -1 (left, down, back), +1 (right, up,
/// front) or 0 (open).
pub open spec fn tag_of_sides(x: int, y: int, z: int) -> Orientation {
    if x < 0 {
        if y < 0 {
            pick(z, Orientation::LBD, Orientation::LD, Orientation::LFD)
        } else if y > 0 {
            pick(z, Orientation::LBU, Orientation::LU, Orientation::LFU)
        } else {
            pick(z, Orientation::LB, Orientation::L, Orientation::LF)
        }
    } else if x > 0 {
        if y < 0 {
            pick(z, Orientation::RBD, Orientation::RD, Orientation::RFD)
        } else if y > 0 {
            pick(z, Orientation::RBU, Orientation::RU, Orientation::RFU)
        } else {
            pick(z, Orientation::RB, Orientation::R, Orientation::RF)
        }
    } else {
        if y < 0 {
            pick(z, Orientation::BD, Orientation::D, Orientation::FD)
        } else if y > 0 {
            pick(z, Orientation::BU, Orientation::U, Orientation::FU)
        } else {
            pick(z, Orientation::B, Orientation::N, Orientation::F)
        }
    }
}

/// One of three tags by a side: the first for the lower side, the second
/// where the side is open, the third for the upper side.
pub open spec fn pick(
    side: int,
    lower: Orientation,
    unset: Orientation,
    upper: Orientation,
) -> Orientation {
    if side < 0 {
        lower
    } else if side > 0 {
        upper
    } else {
        unset
    }
}

/// A coordinate moved by `step` towards a side, and left alone when the
/// side is open.
pub open spec fn stepped(at: int, side: int, step: int) -> int {
    if side < 0 {
        at - step
    } else if side > 0 {
        at + step
    } else {
        at
    }
}

/// The sides of the corner that a child selector names; selectors above 7
/// name no corner and leave every axis open.
pub open spec fn sides_of_selector(selector: int) -> (int, int, int) {
    if selector == 0 {
        (-1, 1, -1)
    } else if selector == 1 {
        (-1, 1, 1)
    } else if selector == 2 {
        (-1, -1, 1)
    } else if selector == 3 {
        (-1, -1, -1)
    } else if selector == 4 {
        (1, -1, -1)
    } else if selector == 5 {
        (1, -1, 1)
    } else if selector == 6 {
        (1, 1, 1)
    } else if selector == 7 {
        (1, 1, -1)
    } else {
        (0, 0, 0)
    }
}

impl Orientation {
    /// Side on the X axis: -1 for left, +1 for right, 0 when open.
    pub open spec fn x_side(self) -> int {
        match self {
            Orientation::L
            | Orientation::LF
            | Orientation::LB
            | Orientation::LU
            | Orientation::LD
            | Orientation::LBU
            | Orientation::LFU
            | Orientation::LFD
            | Orientation::LBD => -1,
            Orientation::R
            | Orientation::RF
            | Orientation::RB
            | Orientation::RU
            | Orientation::RD
            | Orientation::RBD
            | Orientation::RFD
            | Orientation::RFU
            | Orientation::RBU => 1,
            _ => 0,
        }
    }

    /// Side on the Y axis: -1 for down, +1 for up, 0 when open.
    pub open spec fn y_side(self) -> int {
        match self {
            Orientation::D
            | Orientation::FD
            | Orientation::BD
            | Orientation::LD
            | Orientation::RD
            | Orientation::LFD
            | Orientation::LBD
            | Orientation::RBD
            | Orientation::RFD => -1,
            Orientation::U
            | Orientation::FU
            | Orientation::BU
            | Orientation::LU
            | Orientation::RU
            | Orientation::LBU
            | Orientation::LFU
            | Orientation::RFU
            | Orientation::RBU => 1,
            _ => 0,
        }
    }

    /// Side on the Z axis: -1 for back, +1 for front, 0 when open.
    pub open spec fn z_side(self) -> int {
        match self {
            Orientation::B
            | Orientation::LB
            | Orientation::RB
            | Orientation::BU
            | Orientation::BD
            | Orientation::LBU
            | Orientation::LBD
            | Orientation::RBD
            | Orientation::RBU => -1,
            Orientation::F
            | Orientation::LF
            | Orientation::RF
            | Orientation::FU
            | Orientation::FD
            | Orientation::LFU
            | Orientation::LFD
            | Orientation::RFD
            | Orientation::RFU => 1,
            _ => 0,
        }
    }

    /// A corner fixes all three axes.
    pub open spec fn is_corner(self) -> bool {
        self.x_side() != 0 && self.y_side() != 0 && self.z_side() != 0
    }

    /// Two tags are compatible when no axis is fixed by both.
    pub open spec fn compatible(self, other: Orientation) -> bool {
        &&& self.x_side() == 0 || other.x_side() == 0
        &&& self.y_side() == 0 || other.y_side() == 0
        &&& self.z_side() == 0 || other.z_side() == 0
    }

    /// Composition of two tags.  Compatible tags are joined axis by axis, so
    /// the neutral tag yields the other operand and a corner absorbs the
    /// neutral tag; on tags that are not compatible the left operand wins.
    pub open spec fn compose(self, other: Orientation) -> Orientation {
        if self.compatible(other) {
            tag_of_sides(
                self.x_side() + other.x_side(),
                self.y_side() + other.y_side(),
                self.z_side() + other.z_side(),
            )
        } else {
            self
        }
    }

    /// The sides of a corner along the three axes; a tag that is no corner
    /// has none.
    pub open spec fn corner_sides(self) -> (int, int, int) {
        sides_of_selector(self.selector_spec() as int)
    }

    /// The child selector of a corner, and 8 for every other tag.
    pub open spec fn selector_spec(self) -> u8 {
        match self {
            Orientation::LBU => 0,
            Orientation::LFU => 1,
            Orientation::LFD => 2,
            Orientation::LBD => 3,
            Orientation::RBD => 4,
            Orientation::RFD => 5,
            Orientation::RFU => 6,
            Orientation::RBU => 7,
            _ => 8,
        }
    }

    /// The child selector of a corner, and 8 for every other tag.
    pub fn selector(self) -> (selector: u8)
        ensures
            selector == self.selector_spec(),
            selector <= 8,
            selector <= 7 <==> self.is_corner(),
            self.is_corner() ==> sides_of_selector(selector as int) == (
                self.x_side(),
                self.y_side(),
                self.z_side(),
            ),
    {
        match self {
            Orientation::LBU => 0,
            Orientation::LFU => 1,
            Orientation::LFD => 2,
            Orientation::LBD => 3,
            Orientation::RBD => 4,
            Orientation::RFD => 5,
            Orientation::RFU => 6,
            Orientation::RBU => 7,
            _ => 8,
        }
    }
}

impl Orientation {
    /// The center of the child cell at a corner.  `loc_code` is the code of
    /// the child and `center` the center of its parent; the child's center
    /// lies half the child's edge from it along each axis.  A tag that is
    /// no corner leaves the center where it is.
    pub fn make_new_center(self, loc_code: LocCode, center: (u64, u64, u64)) -> (moved: (
        u64,
        u64,
        u64,
    ))
        requires
            is_code(loc_code.0),
            half_edge(level_of(loc_code.0)) <= center.0 <= u64::MAX - half_edge(
                level_of(loc_code.0),
            ),
            half_edge(level_of(loc_code.0)) <= center.1 <= u64::MAX - half_edge(
                level_of(loc_code.0),
            ),
            half_edge(level_of(loc_code.0)) <= center.2 <= u64::MAX - half_edge(
                level_of(loc_code.0),
            ),
        ensures
            moved.0 == stepped(
                center.0 as int,
                self.corner_sides().0,
                half_edge(level_of(loc_code.0)),
            ),
            moved.1 == stepped(
                center.1 as int,
                self.corner_sides().1,
                half_edge(level_of(loc_code.0)),
            ),
            moved.2 == stepped(
                center.2 as int,
                self.corner_sides().2,
                half_edge(level_of(loc_code.0)),
            ),
    {
        let level = loc_code.get_level();
        proof {
            lemma_level_bound(loc_code.0);
            lemma_half_edge_shift(level);
            assert(0x8000_0000u64 >> level == (0x8000_0000u32 >> level) as u64) by (bit_vector)
                requires
                    level <= 31,
            ;
        }
        let offset: u64 = 0x8000_0000u64 >> level;
        match self {
            Orientation::LBU => (center.0 - offset, center.1 + offset, center.2 - offset),
            Orientation::LFU => (center.0 - offset, center.1 + offset, center.2 + offset),
            Orientation::LFD => (center.0 - offset, center.1 - offset, center.2 + offset),
            Orientation::LBD => (center.0 - offset, center.1 - offset, center.2 - offset),
            Orientation::RBD => (center.0 + offset, center.1 - offset, center.2 - offset),
            Orientation::RFD => (center.0 + offset, center.1 - offset, center.2 + offset),
            Orientation::RFU => (center.0 + offset, center.1 + offset, center.2 + offset),
            Orientation::RBU => (center.0 + offset, center.1 + offset, center.2 - offset),
            _ => center,
        }
    }
}

impl core::ops::BitOr for Orientation {
    type Output = Orientation;

    /// Composes two tags by the fixed table of tag pairs.
    fn bitor(self, rh: Orientation) -> (joined: Orientation) {
        match (self, rh) {
            (Orientation::L, Orientation::F) => Orientation::LF,
            (Orientation::L, Orientation::B) => Orientation::LB,
            (Orientation::R, Orientation::F) => Orientation::RF,
            (Orientation::R, Orientation::B) => Orientation::RB,
            (Orientation::F, Orientation::L) => Orientation::LF,
            (Orientation::F, Orientation::R) => Orientation::RF,
            (Orientation::B, Orientation::L) => Orientation::LB,
            (Orientation::B, Orientation::R) => Orientation::RB,
            (Orientation::F, Orientation::U) => Orientation::FU,
            (Orientation::F, Orientation::D) => Orientation::FD,
            (Orientation::B, Orientation::U) => Orientation::BU,
            (Orientation::B, Orientation::D) => Orientation::BD,
            (Orientation::U, Orientation::F) => Orientation::FU,
            (Orientation::U, Orientation::B) => Orientation::BU,
            (Orientation::D, Orientation::F) => Orientation::FD,
            (Orientation::D, Orientation::B) => Orientation::BD,
            (Orientation::L, Orientation::U) => Orientation::LU,
            (Orientation::L, Orientation::D) => Orientation::LD,
            (Orientation::R, Orientation::U) => Orientation::RU,
            (Orientation::R, Orientation::D) => Orientation::RD,
            (Orientation::U, Orientation::L) => Orientation::LU,
            (Orientation::U, Orientation::R) => Orientation::RU,
            (Orientation::D, Orientation::L) => Orientation::LD,
            (Orientation::D, Orientation::R) => Orientation::RD,
            (Orientation::LF, Orientation::U) => Orientation::LFU,
            (Orientation::LF, Orientation::D) => Orientation::LFD,
            (Orientation::LB, Orientation::U) => Orientation::LBU,
            (Orientation::LB, Orientation::D) => Orientation::LBD,
            (Orientation::RF, Orientation::U) => Orientation::RFU,
            (Orientation::RF, Orientation::D) => Orientation::RFD,
            (Orientation::RB, Orientation::U) => Orientation::RBU,
            (Orientation::RB, Orientation::D) => Orientation::RBD,
            (Orientation::U, Orientation::LF) => Orientation::LFU,
            (Orientation::U, Orientation::LB) => Orientation::LBU,
            (Orientation::U, Orientation::RF) => Orientation::RFU,
            (Orientation::U, Orientation::RB) => Orientation::RBU,
            (Orientation::D, Orientation::LF) => Orientation::LFD,
            (Orientation::D, Orientation::LB) => Orientation::LBD,
            (Orientation::D, Orientation::RF) => Orientation::RFD,
            (Orientation::D, Orientation::RB) => Orientation::RBD,
            (Orientation::FU, Orientation::L) => Orientation::LFU,
            (Orientation::FU, Orientation::R) => Orientation::RFU,
            (Orientation::FD, Orientation::L) => Orientation::LFD,
            (Orientation::FD, Orientation::R) => Orientation::RFD,
            (Orientation::BU, Orientation::L) => Orientation::LBU,
            (Orientation::BU, Orientation::R) => Orientation::RBU,
            (Orientation::BD, Orientation::L) => Orientation::LBD,
            (Orientation::BD, Orientation::R) => Orientation::RBD,
            (Orientation::L, Orientation::FU) => Orientation::LFU,
            (Orientation::L, Orientation::FD) => Orientation::LFD,
            (Orientation::L, Orientation::BU) => Orientation::LBU,
            (Orientation::L, Orientation::BD) => Orientation::LBD,
            (Orientation::R, Orientation::FU) => Orientation::RFU,
            (Orientation::R, Orientation::FD) => Orientation::RFD,
            (Orientation::R, Orientation::BU) => Orientation::RBU,
            (Orientation::R, Orientation::BD) => Orientation::RBD,
            (Orientation::LU, Orientation::F) => Orientation::LFU,
            (Orientation::LU, Orientation::B) => Orientation::LBU,
            (Orientation::LD, Orientation::F) => Orientation::LFD,
            (Orientation::LD, Orientation::B) => Orientation::LBD,
            (Orientation::RU, Orientation::F) => Orientation::RFU,
            (Orientation::RU, Orientation::B) => Orientation::RBU,
            (Orientation::RD, Orientation::F) => Orientation::RFD,
            (Orientation::RD, Orientation::B) => Orientation::RBD,
            (Orientation::F, Orientation::LU) => Orientation::LFU,
            (Orientation::F, Orientation::LD) => Orientation::LFD,
            (Orientation::F, Orientation::RU) => Orientation::RFU,
            (Orientation::F, Orientation::RD) => Orientation::RFD,
            (Orientation::B, Orientation::LU) => Orientation::LBU,
            (Orientation::B, Orientation::LD) => Orientation::LBD,
            (Orientation::B, Orientation::RU) => Orientation::RBU,
            (Orientation::B, Orientation::RD) => Orientation::RBD,
            (Orientation::N, _) => rh,
            _ => self,
        }
    }
}

impl vstd::std_specs::ops::BitOrSpecImpl for Orientation {
    open spec fn obeys_bitor_spec() -> bool {
        true
    }

    open spec fn bitor_req(self, rh: Orientation) -> bool {
        true
    }

    open spec fn bitor_spec(self, rh: Orientation) -> Orientation {
        self.compose(rh)
    }
}

impl From<Orientation> for u8 {
    /// The child selector of a corner, and 8 for every other tag.
    fn from(tag: Orientation) -> (selector: u8) {
        tag.selector()
    }
}

impl vstd::std_specs::convert::FromSpecImpl<Orientation> for u8 {
    open spec fn obeys_from_spec() -> bool {
        true
    }

    open spec fn from_spec(tag: Orientation) -> u8 {
        tag.selector_spec()
    }
}

} // verus!
