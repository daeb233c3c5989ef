//! A model of the exposed block device: the capacity and geometry the block
//! layer advertises for one disk.

use vstd::prelude::*;

verus! {

/// The externally visible state of one exposed block device.
#[verifier::ext_equal]
pub struct GenDisk {
    /// Exposed capacity, counted in 512-byte sectors.
    pub capacity_sectors: u64,
    /// Smallest addressable unit.
    pub logical_block_size: u32,
    /// Smallest unit the device writes atomically.
    pub physical_block_size: u32,
    /// Whether a volatile write cache is advertised.
    pub write_cache: bool,
    /// Whether forced unit access is advertised.
    pub fua: bool,
    /// Whether the device is advertised as rotational media.
    pub rotational: bool,
}

impl GenDisk {
    /// A fresh disk: no capacity, 512-byte blocks, no write cache.
    pub fn new() -> (r: GenDisk)
        ensures
            r == (GenDisk {
                capacity_sectors: 0,
                logical_block_size: 512,
                physical_block_size: 512,
                write_cache: false,
                fua: false,
                rotational: true,
            }),
    {
        GenDisk {
            capacity_sectors: 0,
            logical_block_size: 512,
            physical_block_size: 512,
            write_cache: false,
            fua: false,
            rotational: true,
        }
    }

    /// Tells the block layer the capacity of the device in 512-byte sectors.
    pub fn set_capacity_sectors(&mut self, sectors: u64)
        ensures
            *final(self) == (GenDisk { capacity_sectors: sectors, ..*old(self) }),
    {
        self.capacity_sectors = sectors;
    }

    /// Sets the capacity and notifies listeners of the change.
    pub fn set_capacity_and_notify(&mut self, sectors: u64)
        ensures
            *final(self) == (GenDisk { capacity_sectors: sectors, ..*old(self) }),
    {
        self.capacity_sectors = sectors;
    }

    /// Sets the logical block size of the device.
    pub fn set_queue_logical_block_size(&mut self, size: u32)
        ensures
            *final(self) == (GenDisk { logical_block_size: size, ..*old(self) }),
    {
        self.logical_block_size = size;
    }

    /// Sets the physical block size of the device.
    pub fn set_queue_physical_block_size(&mut self, size: u32)
        ensures
            *final(self) == (GenDisk { physical_block_size: size, ..*old(self) }),
    {
        self.physical_block_size = size;
    }

    /// Advertises write-cache and forced-unit-access capability.
    pub fn set_queue_write_cache(&mut self, write_cache: bool, fua: bool)
        ensures
            *final(self) == (GenDisk { write_cache, fua, ..*old(self) }),
    {
        self.write_cache = write_cache;
        self.fua = fua;
    }

    /// Sets the rotational media attribute.
    pub fn set_rotational(&mut self, rotational: bool)
        ensures
            *final(self) == (GenDisk { rotational, ..*old(self) }),
    {
        self.rotational = rotational;
    }
}

} // verus!
