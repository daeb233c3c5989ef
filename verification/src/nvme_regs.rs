//! NVMe controller register layouts: the capability and status registers as
//! bitfield words, with verified field accessors.

use vstd::prelude::*;

verus! {

/// Controller Capabilities register.
#[derive(Clone, Copy, Debug, PartialEq, Eq, Structural)]
pub struct Cap(pub u64);

/// Controller Status register.
#[derive(Clone, Copy, Debug, PartialEq, Eq, Structural)]
pub struct Csts(pub u64);

/// Controller shutdown status, the two-bit field of the status register.
#[derive(Clone, Copy, Debug, PartialEq, Eq, Structural)]
pub enum Shst {
    /// Normal operation, no shutdown requested.
    NormalOperation,
    /// Shutdown in progress.
    ShutdownOccurring,
    /// Shutdown is complete.
    ShutdownComplete,
    /// Reserved encoding.
    Reserved3,
}

/// The shutdown status named by the low two bits of `val`.
pub open spec fn spec_shst_from_bits(val: u8) -> Shst {
    if val & 3 == 0 {
        Shst::NormalOperation
    } else if val & 3 == 1 {
        Shst::ShutdownOccurring
    } else if val & 3 == 2 {
        Shst::ShutdownComplete
    } else {
        Shst::Reserved3
    }
}

/// The two-bit encoding of a shutdown status.
pub open spec fn spec_shst_to_bits(val: Shst) -> u8 {
    match val {
        Shst::NormalOperation => 0,
        Shst::ShutdownOccurring => 1,
        Shst::ShutdownComplete => 2,
        Shst::Reserved3 => 3,
    }
}

impl Shst {
    pub fn from_bits(val: u8) -> (r: Shst)
        ensures
            r == spec_shst_from_bits(val),
    {
        let low = val & 3;
        if low == 0 {
            Shst::NormalOperation
        } else if low == 1 {
            Shst::ShutdownOccurring
        } else if low == 2 {
            Shst::ShutdownComplete
        } else {
            Shst::Reserved3
        }
    }

    pub fn to_bits(self) -> (r: u8)
        ensures
            r == spec_shst_to_bits(self),
    {
        match self {
            Shst::NormalOperation => 0,
            Shst::ShutdownOccurring => 1,
            Shst::ShutdownComplete => 2,
            Shst::Reserved3 => 3,
        }
    }
}

impl Cap {
    /// Maximum Queue Entries Supported, bits 0..16.
    pub fn mqes(&self) -> (r: u16)
        ensures
            r == (self.0 & 0xffff) as u16,
    {
        (self.0 & 0xffff) as u16
    }

    /// Maximum Queue Entries Supported, bits 0..16.
    pub fn set_mqes(&mut self, val: u16)
        ensures
            final(self).0 == (old(self).0 & !0xffffu64) | ((val as u64) & 0xffff),
    {
        self.0 = (self.0 & !0xffffu64) | ((val as u64) & 0xffff);
    }

    /// Contiguous Queues Required, bit 16.
    pub fn cqr(&self) -> (r: bool)
        ensures
            r == ((self.0 >> 16) & 1 != 0),
    {
        (self.0 >> 16) & 1 != 0
    }

    /// Contiguous Queues Required, bit 16.
    pub fn set_cqr(&mut self, val: bool)
        ensures
            final(self).0 == (old(self).0 & !(1u64 << 16)) | ((if val {
                1u64
            } else {
                0u64
            }) << 16),
    {
        self.0 = (self.0 & !(1u64 << 16)) | ((if val {
            1u64
        } else {
            0u64
        }) << 16);
    }

    /// Doorbell stride, bits 32..36.
    pub fn dstrd(&self) -> (r: u8)
        ensures
            r == ((self.0 >> 32) & 0xf) as u8,
    {
        ((self.0 >> 32) & 0xf) as u8
    }

    /// Doorbell stride, bits 32..36.
    pub fn set_dstrd(&mut self, val: u8)
        ensures
            final(self).0 == (old(self).0 & !(0xfu64 << 32)) | (((val as u64) & 0xf) << 32),
    {
        self.0 = (self.0 & !(0xfu64 << 32)) | (((val as u64) & 0xf) << 32);
    }
}

impl Default for Cap {
    fn default() -> (r: Cap)
        ensures
            r.0 == 0,
    {
        Cap(0)
    }
}

impl Csts {
    /// Ready, bit 0.
    pub fn rdy(&self) -> (r: bool)
        ensures
            r == (self.0 & 1 != 0),
    {
        self.0 & 1 != 0
    }

    /// Ready, bit 0.
    pub fn set_rdy(&mut self, val: bool)
        ensures
            final(self).0 == (old(self).0 & !1u64) | (if val {
                1u64
            } else {
                0u64
            }),
    {
        self.0 = (self.0 & !1u64) | (if val {
            1u64
        } else {
            0u64
        });
    }

    /// Controller Fatal Status, bit 1.
    pub fn cfs(&self) -> (r: bool)
        ensures
            r == ((self.0 >> 1) & 1 != 0),
    {
        (self.0 >> 1) & 1 != 0
    }

    /// Controller Fatal Status, bit 1.
    pub fn set_cfs(&mut self, val: bool)
        ensures
            final(self).0 == (old(self).0 & !(1u64 << 1)) | ((if val {
                1u64
            } else {
                0u64
            }) << 1),
    {
        self.0 = (self.0 & !(1u64 << 1)) | ((if val {
            1u64
        } else {
            0u64
        }) << 1);
    }

    /// Shutdown status, bits 2..4.
    pub fn shst(&self) -> (r: Shst)
        ensures
            r == spec_shst_from_bits(((self.0 >> 2) & 3) as u8),
    {
        Shst::from_bits(((self.0 >> 2) & 3) as u8)
    }

    /// Shutdown status, bits 2..4.
    pub fn set_shst(&mut self, val: Shst)
        ensures
            final(self).0 == (old(self).0 & !(3u64 << 2)) | (((spec_shst_to_bits(val) as u64) & 3)
                << 2),
    {
        let bits = val.to_bits();
        self.0 = (self.0 & !(3u64 << 2)) | (((bits as u64) & 3) << 2);
    }

    /// Subsystem reset occurred, bit 4.
    pub fn nssro(&self) -> (r: bool)
        ensures
            r == ((self.0 >> 4) & 1 != 0),
    {
        (self.0 >> 4) & 1 != 0
    }

    /// Subsystem reset occurred, bit 4.
    pub fn set_nssro(&mut self, val: bool)
        ensures
            final(self).0 == (old(self).0 & !(1u64 << 4)) | ((if val {
                1u64
            } else {
                0u64
            }) << 4),
    {
        self.0 = (self.0 & !(1u64 << 4)) | ((if val {
            1u64
        } else {
            0u64
        }) << 4);
    }

    /// Processing Paused, bit 5.
    pub fn pp(&self) -> (r: bool)
        ensures
            r == ((self.0 >> 5) & 1 != 0),
    {
        (self.0 >> 5) & 1 != 0
    }

    /// Processing Paused, bit 5.
    pub fn set_pp(&mut self, val: bool)
        ensures
            final(self).0 == (old(self).0 & !(1u64 << 5)) | ((if val {
                1u64
            } else {
                0u64
            }) << 5),
    {
        self.0 = (self.0 & !(1u64 << 5)) | ((if val {
            1u64
        } else {
            0u64
        }) << 5);
    }

    /// Shutdown Type, bit 6.
    pub fn st(&self) -> (r: bool)
        ensures
            r == ((self.0 >> 6) & 1 != 0),
    {
        (self.0 >> 6) & 1 != 0
    }

    /// Shutdown Type, bit 6.
    pub fn set_st(&mut self, val: bool)
        ensures
            final(self).0 == (old(self).0 & !(1u64 << 6)) | ((if val {
                1u64
            } else {
                0u64
            }) << 6),
    {
        self.0 = (self.0 & !(1u64 << 6)) | ((if val {
            1u64
        } else {
            0u64
        }) << 6);
    }
}

impl Default for Csts {
    fn default() -> (r: Csts)
        ensures
            r.0 == 0,
    {
        Csts(0)
    }
}

/// Writing the queue-entries field reads back exactly and leaves the other
/// capability fields alone.
pub proof fn lemma_cap_set_mqes(word: u64, val: u16)
    ensures
        ((word & !0xffffu64) | ((val as u64) & 0xffff)) & 0xffff == val as u64,
        (((word & !0xffffu64) | ((val as u64) & 0xffff)) >> 16) & 1 == (word >> 16) & 1,
        (((word & !0xffffu64) | ((val as u64) & 0xffff)) >> 32) & 0xf == (word >> 32) & 0xf,
{
    assert(((word & !0xffffu64) | ((val as u64) & 0xffff)) & 0xffff == val as u64 && (((word
        & !0xffffu64) | ((val as u64) & 0xffff)) >> 16) & 1 == (word >> 16) & 1 && (((word
        & !0xffffu64) | ((val as u64) & 0xffff)) >> 32) & 0xf == (word >> 32) & 0xf)
        by (bit_vector);
}

/// Writing a one-bit field at `shift` reads back exactly and leaves every
/// other bit of the word alone.
pub proof fn lemma_set_bit_field(word: u64, val: bool, shift: u64)
    requires
        shift < 64,
    ensures
        ((word & !(1u64 << shift)) | ((if val {
            1u64
        } else {
            0u64
        }) << shift)) >> shift & 1 == (if val {
            1u64
        } else {
            0u64
        }),
        forall|other: u64|
            other < 64 && other != shift ==> (((word & !(1u64 << shift)) | ((if val {
                1u64
            } else {
                0u64
            }) << shift)) >> other) & 1 == #[trigger] ((word >> other) & 1),
{
    let bit: u64 = if val {
        1u64
    } else {
        0u64
    };
    assert(((word & !(1u64 << shift)) | (bit << shift)) >> shift & 1 == bit) by (bit_vector)
        requires
            shift < 64,
            bit == 0 || bit == 1,
    ;
    assert forall|other: u64| other < 64 && other != shift implies (((word & !(1u64 << shift)) | (
    bit << shift)) >> other) & 1 == #[trigger] ((word >> other) & 1) by {
        assert((((word & !(1u64 << shift)) | (bit << shift)) >> other) & 1 == (word >> other) & 1)
            by (bit_vector)
            requires
                shift < 64,
                other < 64,
                other != shift,
                bit == 0 || bit == 1,
        ;
    }
}

/// Writing the two-bit shutdown-status field reads back exactly and leaves
/// the one-bit status fields alone.
pub proof fn lemma_csts_set_shst(word: u64, bits: u64)
    requires
        bits < 4,
    ensures
        (((word & !(3u64 << 2)) | ((bits & 3) << 2)) >> 2) & 3 == bits,
        ((word & !(3u64 << 2)) | ((bits & 3) << 2)) & 1 == word & 1,
        (((word & !(3u64 << 2)) | ((bits & 3) << 2)) >> 1) & 1 == (word >> 1) & 1,
        (((word & !(3u64 << 2)) | ((bits & 3) << 2)) >> 4) & 1 == (word >> 4) & 1,
        (((word & !(3u64 << 2)) | ((bits & 3) << 2)) >> 5) & 1 == (word >> 5) & 1,
        (((word & !(3u64 << 2)) | ((bits & 3) << 2)) >> 6) & 1 == (word >> 6) & 1,
{
    assert((((word & !(3u64 << 2)) | ((bits & 3) << 2)) >> 2) & 3 == bits && ((word & !(3u64 << 2))
        | ((bits & 3) << 2)) & 1 == word & 1 && (((word & !(3u64 << 2)) | ((bits & 3) << 2)) >> 1)
        & 1 == (word >> 1) & 1 && (((word & !(3u64 << 2)) | ((bits & 3) << 2)) >> 4) & 1 == (word
        >> 4) & 1 && (((word & !(3u64 << 2)) | ((bits & 3) << 2)) >> 5) & 1 == (word >> 5) & 1 && ((
    (word & !(3u64 << 2)) | ((bits & 3) << 2)) >> 6) & 1 == (word >> 6) & 1) by (bit_vector)
        requires
            bits < 4,
    ;
}

/// The shutdown-status encoding round-trips through its two-bit field.
pub proof fn lemma_shst_round_trip(val: Shst)
    ensures
        spec_shst_from_bits(spec_shst_to_bits(val)) == val,
{
    assert(0u8 & 3 == 0 && 1u8 & 3 == 1 && 2u8 & 3 == 2 && 3u8 & 3 == 3) by (bit_vector);
}

} // verus!
