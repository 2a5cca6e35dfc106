//! Location codes.
//!
//! A location code spells the path from the root cell to a cell as base-8
//! digits, one child selector per level, below a leading sentinel bit.  The
//! root is the bare sentinel, 1.  Codes are kept in 64 bits, which leaves
//! room for 21 levels below the root.
use vstd::prelude::*;
use crate::error::OctreeError;
use crate::orientation::{Orientation, sides_of_selector, stepped};

verus! {

/// The deepest level that a 64-bit code can address.
pub const MAX_LEVEL: u32 = 21;

/// Extent of the unit cube along one axis, in the integer units in which
/// centers and box bounds are measured.
pub const UNIT: u64 = 0x1_0000_0000;

/// Coordinate of the center of the unit cube.
pub const HALF_UNIT: u64 = 0x8000_0000;

/// The first code that has no room for a further digit.
pub const CHILD_LIMIT: u64 = 0x2000_0000_0000_0000;

/// A value is a location code when shifting it right by three bits, again
/// and again, arrives at the sentinel.
pub open spec fn is_code(code: u64) -> bool
    decreases code,
{
    code == 1 || (code >= 8 && is_code(code / 8))
}

/// Number of digits below the sentinel: the number of right shifts by three
/// bits that take a code to the sentinel.
pub open spec fn level_of(code: u64) -> nat
    decreases code,
{
    if code < 8 {
        0
    } else {
        1 + level_of(code / 8)
    }
}

/// Half the edge of a cell at `level`, which is the distance, along each
/// axis, between the center of that cell and the centers of its children.
pub open spec fn half_edge(level: nat) -> int
    decreases level,
{
    if level == 0 {
        0x8000_0000
    } else {
        half_edge((level - 1) as nat) / 2
    }
}

/// Center of the cell that a code addresses: the center of the unit cube
/// for the root, and otherwise the parent's center moved by half the
/// cell's edge along each axis, towards the corner that the last digit names.
pub open spec fn center_of(code: u64) -> (int, int, int)
    decreases code,
{
    if code < 8 {
        (0x8000_0000, 0x8000_0000, 0x8000_0000)
    } else {
        let parent = center_of(code / 8);
        let sides = sides_of_selector((code % 8) as int);
        let step = half_edge(level_of(code));
        (
            stepped(parent.0, sides.0, step),
            stepped(parent.1, sides.1, step),
            stepped(parent.2, sides.2, step),
        )
    }
}

/// No 64-bit value has more than 21 digits below its sentinel.
pub proof fn lemma_level_bound(code: u64)
    ensures
        level_of(code) <= MAX_LEVEL,
        code < CHILD_LIMIT ==> level_of(code) < MAX_LEVEL,
{
    reveal_with_fuel(level_of, 23);
}

/// Appending a digit to a code gives a code one level down, whose parent is
/// the code it was made from.
pub proof fn lemma_child_is_code(code: u64, selector: u8)
    requires
        is_code(code),
        code < CHILD_LIMIT,
        selector <= 7,
    ensures
        is_code((code * 8 + selector) as u64),
        level_of((code * 8 + selector) as u64) == level_of(code) + 1,
        (code * 8 + selector) / 8 == code as int,
        (code * 8 + selector) % 8 == selector as int,
{
    let child = (code * 8 + selector) as u64;
    assert(child / 8 == code);
    assert(child >= 8);
}

/// A code that is not on the deepest level has room for a further digit.
pub proof fn lemma_code_has_room(code: u64)
    requires
        is_code(code),
        level_of(code) < MAX_LEVEL,
    ensures
        1 <= code < CHILD_LIMIT,
{
    reveal_with_fuel(is_code, 23);
    reveal_with_fuel(level_of, 23);
}

/// The parent of a code other than the root is a code, one level up.
pub proof fn lemma_parent_is_code(code: u64)
    requires
        is_code(code),
        code != 1,
    ensures
        is_code(code / 8),
        code >= 8,
        level_of(code) == level_of(code / 8) + 1,
{
}

/// Half edges are the powers of two from 2^31 downwards.
pub(crate) proof fn lemma_half_edge_shift(level: u32)
    requires
        level <= 31,
    ensures
        half_edge(level as nat) == (0x8000_0000u32 >> level) as int,
        half_edge(level as nat) >= 1,
        level < 31 ==> half_edge(level as nat) == 2 * half_edge((level + 1) as nat),
    decreases level,
{
    if level == 0 {
        assert(0x8000_0000u32 >> 0u32 == 0x8000_0000u32) by (bit_vector);
        assert(half_edge(1) == half_edge(0) / 2);
    } else {
        let above: u32 = (level - 1) as u32;
        lemma_half_edge_shift(above);
        assert(above < 31 ==> (0x8000_0000u32 >> above) / 2 == 0x8000_0000u32 >> ((above
            + 1) as u32) && 0x8000_0000u32 >> ((above + 1) as u32) >= 1) by (bit_vector);
        if level < 31 {
            let below: u32 = (level + 1) as u32;
            assert(level < 31 ==> (0x8000_0000u32 >> level) == 2 * (0x8000_0000u32 >> ((level
                + 1) as u32))) by (bit_vector);
            assert(half_edge(below as nat) == half_edge(level as nat) / 2);
        }
    }
}

/// The center of a cell keeps half the cell's edge away from every face
/// of the unit cube.
pub proof fn lemma_center_bounds(code: u64)
    requires
        is_code(code),
    ensures
        half_edge(level_of(code)) <= center_of(code).0 <= UNIT - half_edge(level_of(code)),
        half_edge(level_of(code)) <= center_of(code).1 <= UNIT - half_edge(level_of(code)),
        half_edge(level_of(code)) <= center_of(code).2 <= UNIT - half_edge(level_of(code)),
    decreases code,
{
    if code != 1 {
        lemma_parent_is_code(code);
        lemma_center_bounds(code / 8);
        lemma_level_bound(code);
        lemma_half_edge_shift(level_of(code / 8) as u32);
    }
}

#[derive(Copy, Clone, Ord, PartialOrd, Eq, PartialEq, Debug, Hash, Structural)]
pub struct LocCode(pub u64);

impl LocCode {
    /// The code of the root cell.
    pub fn root() -> (code: LocCode)
        ensures
            code.0 == 1,
            is_code(code.0),
    {
        LocCode(1)
    }

    /// The code one level up: the code without its last digit.
    pub fn parent(self) -> (code: LocCode)
        ensures
            code.0 == self.0 / 8,
    {
        let LocCode(bits) = self;
        assert(bits >> 3 == bits / 8) by (bit_vector);
        LocCode(bits >> 3)
    }

    /// The code of the child that `selector` names.
    pub fn child(self, selector: u8) -> (code: LocCode)
        requires
            selector <= 7,
            self.0 < CHILD_LIMIT,
        ensures
            code.0 == self.0 * 8 + selector,
            is_code(self.0) ==> is_code(code.0) && level_of(code.0) == level_of(self.0) + 1,
    {
        let LocCode(bits) = self;
        let digit: u64 = selector as u64;
        assert(bits < 0x2000_0000_0000_0000u64 && digit <= 7 ==> (bits << 3) | digit == bits * 8
            + digit) by (bit_vector);
        proof {
            if is_code(bits) {
                lemma_child_is_code(bits, selector);
            }
        }
        LocCode((bits << 3) | digit)
    }

    /// The code of the child at a corner.  A tag that names no corner has
    /// no child; the error carries the selector that the tag gave.
    pub fn child_at(self, corner: Orientation) -> (placed: Result<LocCode, OctreeError>)
        requires
            self.0 < CHILD_LIMIT,
        ensures
            corner.is_corner() ==> placed == Ok::<LocCode, OctreeError>(
                LocCode((self.0 * 8 + corner.selector_spec()) as u64),
            ),
            !corner.is_corner() ==> placed == Err::<LocCode, OctreeError>(
                OctreeError::CannotPlace(corner.selector_spec()),
            ),
    {
        let selector = corner.selector();
        if selector > 7 {
            Err(OctreeError::CannotPlace(selector))
        } else {
            Ok(self.child(selector))
        }
    }

    /// Tells whether the value is a location code.
    pub fn is_valid(self) -> (valid: bool)
        ensures
            valid == is_code(self.0),
    {
        let LocCode(mut bits) = self;
        while bits >= 8
            invariant
                is_code(bits) == is_code(self.0),
            decreases bits,
        {
            bits = bits / 8;
        }
        bits == 1
    }

    /// Number of digits below the sentinel.
    pub fn get_level(&self) -> (level: u32)
        requires
            is_code(self.0),
        ensures
            level == level_of(self.0),
            level <= MAX_LEVEL,
    {
        let mut temp: u64 = self.0;
        let mut level: u32 = 0;
        proof {
            lemma_level_bound(self.0);
        }
        while temp != 1
            invariant
                is_code(temp),
                level + level_of(temp) == level_of(self.0),
                level_of(self.0) <= MAX_LEVEL,
            decreases temp,
        {
            assert(temp >> 3 == temp / 8) by (bit_vector);
            temp = temp >> 3;
            level += 1;
        }
        level
    }

    /// Center of the cell that the code addresses, in units of which the
    /// unit cube has 2^32 along each axis.
    pub fn get_center_u32(self) -> (center: (u32, u32, u32))
        requires
            is_code(self.0),
        ensures
            center.0 == center_of(self.0).0,
            center.1 == center_of(self.0).1,
            center.2 == center_of(self.0).2,
        decreases self.0,
    {
        if self.0 == 1 {
            return (0x8000_0000, 0x8000_0000, 0x8000_0000);
        }
        let level = self.get_level();
        let offset: u32 = 0x8000_0000u32 >> level;
        let center = self.parent().get_center_u32();
        let value: u64 = self.0 & 7;
        proof {
            let bits = self.0;
            assert(bits & 7 == bits % 8) by (bit_vector);
            lemma_parent_is_code(bits);
            lemma_center_bounds(bits / 8);
            lemma_half_edge_shift(level);
            lemma_half_edge_shift((level - 1) as u32);
        }
        if value == 0 {
            (center.0 - offset, center.1 + offset, center.2 - offset)
        } else if value == 1 {
            (center.0 - offset, center.1 + offset, center.2 + offset)
        } else if value == 2 {
            (center.0 - offset, center.1 - offset, center.2 + offset)
        } else if value == 3 {
            (center.0 - offset, center.1 - offset, center.2 - offset)
        } else if value == 4 {
            (center.0 + offset, center.1 - offset, center.2 - offset)
        } else if value == 5 {
            (center.0 + offset, center.1 - offset, center.2 + offset)
        } else if value == 6 {
            (center.0 + offset, center.1 + offset, center.2 + offset)
        } else {
            (center.0 + offset, center.1 + offset, center.2 - offset)
        }
    }
}

} // verus!
