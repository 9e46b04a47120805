//! The one logical display.

use vstd::prelude::*;
use vstd::arithmetic::power2::*;
use crate::geometry::{Bounds, Point, Size};
use crate::ieee::single::Single;

verus! {

/// Stable identity of the single logical display: displays are keyed by it, so a fixed
/// value keeps the identity constant across boots and rotations.
pub const IOS_DISPLAY_UUID: u128 = 0x105a_fe10_105a_fe10_105a_fe10_105a_fe10;

/// The bytes of an integer, most significant first.
pub open spec fn big_endian(v: u128) -> Seq<u8> {
    Seq::new(16, |i: int| ((v as nat / pow2((8 * (15 - i)) as nat)) % 256) as u8)
}

/// Calls `uuid::Uuid::from_u128` and hands out the UUID's bytes. Claims of it that the
/// UUID of an integer is made of the integer's bytes, most significant first.
#[verifier::external_body]
fn uuid_bytes(v: u128) -> (r: [u8; 16])
    ensures
        r@ == big_endian(v),
{
    uuid::Uuid::from_u128(v).into_bytes()
}

#[derive(Clone, Copy, Debug, PartialEq, Eq, Structural)]
pub struct DisplayId(pub u32);

/// One logical display, sized from the bounds the host provides.
#[derive(Clone, Copy, Debug)]
pub struct IosDisplay {
    id: DisplayId,
    uuid: [u8; 16],
    size: Size,
}

impl IosDisplay {
    pub closed spec fn number(self) -> DisplayId {
        self.id
    }

    pub closed spec fn identity(self) -> Seq<u8> {
        self.uuid@
    }

    pub closed spec fn extent(self) -> Size {
        self.size
    }

    /// What every display is.
    pub open spec fn wf(self) -> bool {
        self.number() == DisplayId(1) && self.identity() == big_endian(IOS_DISPLAY_UUID)
    }

    /// Builds the primary display from a size in logical pixels.
    pub fn new(width: Single, height: Single) -> (d: Self)
        ensures
            d.wf(),
            d.extent() == (Size { width, height }),
    {
        IosDisplay {
            id: DisplayId(1),
            uuid: uuid_bytes(IOS_DISPLAY_UUID),
            size: Size { width, height },
        }
    }

    pub fn id(&self) -> (r: DisplayId)
        ensures
            r == self.number(),
    {
        self.id
    }

    /// The bytes of the display's UUID.
    pub fn uuid(&self) -> (r: [u8; 16])
        ensures
            r@ == self.identity(),
    {
        self.uuid
    }

    pub fn bounds(&self) -> (r: Bounds)
        ensures
            r == (Bounds { origin: Point::origin(), size: self.extent() }),
    {
        Bounds { origin: Point::at_origin(), size: self.size }
    }
}

/// The display keeps its identity across boots and rotations: any two displays, of
/// whatever size, have the same one.
pub proof fn law_identity_is_stable(a: IosDisplay, b: IosDisplay)
    requires
        a.wf(),
        b.wf(),
    ensures
        a.number() == b.number(),
        a.identity() == b.identity(),
{
}

} // verus!
