//! Volume geometry: the boot sector's fields and the offsets derived from
//! them.

use vstd::prelude::*;
pub use crate::directory::DirectoryEntry;
use crate::error::FsError;
use crate::image::{lemma_mul_bound, u16_at, u32_at, read_u16, read_u32};

verus! {

/// The boot sector's signature, stored at bytes 510 and 511.
pub const BOOT_SIGNATURE: u16 = 0xAA55;

/// The number of bytes in a boot sector.
pub const BOOT_SECTOR_SIZE: usize = 512;

/// The number of bytes in a directory entry.
pub const ENTRY_SIZE: u64 = 32;

/// The largest number of clusters that 28-bit FAT entries can chain: the
/// values from here on mark the end of a chain.
pub const MAX_CLUSTERS: u32 = 0x0FFF_FFF8;

/// The fields of the boot sector that the engine uses.
#[derive(Debug, Clone, Copy, PartialEq, Eq)]
pub struct BootSector {
    pub bytes_per_sector: u16,
    pub sectors_per_cluster: u8,
    pub reserved_sector_count: u16,
    pub num_fats: u8,
    pub total_sectors: u32,
    pub fat_size_32: u32,
    pub root_cluster: u32,
    pub signature: u16,
}

/// The geometry of a mounted volume. It is computed once from the boot
/// sector and never changes afterwards.
#[derive(Debug, Clone, Copy, PartialEq, Eq)]
pub struct FAT32 {
    pub boot_sector: BootSector,
    pub total_clusters: u32,
    pub fat_offset: u64,
    pub data_region_offset: u64,
}

/// The boot sector that the first 512 bytes of an image hold. The sector
/// count and the size of one FAT come from their 32-bit fields, and from the
/// 16-bit fields where the 32-bit field is zero.
pub open spec fn parse_boot_sector(image: Seq<u8>) -> BootSector {
    BootSector {
        bytes_per_sector: u16_at(image, 11),
        sectors_per_cluster: image[13],
        reserved_sector_count: u16_at(image, 14),
        num_fats: image[16],
        total_sectors: if u32_at(image, 32) != 0 {
            u32_at(image, 32)
        } else {
            u16_at(image, 19) as u32
        },
        fat_size_32: if u32_at(image, 36) != 0 {
            u32_at(image, 36)
        } else {
            u16_at(image, 22) as u32
        },
        root_cluster: u32_at(image, 44),
        signature: u16_at(image, 510),
    }
}

impl BootSector {
    /// The number of sectors that lie before the data region.
    pub open spec fn system_sectors(&self) -> int {
        self.reserved_sector_count + self.num_fats * self.fat_size_32
    }

    /// The number of bytes in one cluster.
    pub open spec fn cluster_bytes(&self) -> int {
        self.bytes_per_sector * self.sectors_per_cluster
    }

    /// The number of clusters in the data region.
    pub open spec fn cluster_count(&self) -> int {
        (self.total_sectors - self.system_sectors()) / (self.sectors_per_cluster as int)
    }

    /// The fields describe a volume that can be mounted: the signature is
    /// right, a cluster has at least one sector, and the reserved sectors
    /// and the FATs fit in the volume, so that the number of clusters can
    /// be computed.
    pub open spec fn usable(&self) -> bool {
        &&& self.signature == BOOT_SIGNATURE
        &&& self.sectors_per_cluster != 0
        &&& self.system_sectors() <= self.total_sectors
    }
}

impl FAT32 {
    /// The geometry that follows from a boot sector.
    pub open spec fn of_boot_sector(bs: BootSector) -> FAT32 {
        FAT32 {
            boot_sector: bs,
            total_clusters: bs.cluster_count() as u32,
            fat_offset: (bs.reserved_sector_count * bs.bytes_per_sector) as u64,
            data_region_offset: (bs.reserved_sector_count * bs.bytes_per_sector + bs.num_fats
                * bs.fat_size_32 * bs.bytes_per_sector) as u64,
        }
    }

    /// The boot sector is usable and the derived fields are the ones that
    /// follow from it.
    pub open spec fn wf(&self) -> bool {
        &&& self.boot_sector.usable()
        &&& *self == Self::of_boot_sector(self.boot_sector)
    }

    /// The number of bytes in one cluster.
    pub open spec fn cluster_size(&self) -> int {
        self.boot_sector.cluster_bytes()
    }

    /// The byte offset in the image at which the data of `cluster` begins.
    pub open spec fn cluster_offset(&self, cluster: u32) -> int {
        self.data_region_offset + (cluster - 2) * self.cluster_size()
    }

    /// A cluster holds at least one byte, so that file data can be laid
    /// out in clusters.
    pub open spec fn holds_data(&self) -> bool {
        self.cluster_size() > 0
    }

    /// A cluster has room for the two entries that every directory below
    /// the root begins with.
    pub open spec fn holds_directories(&self) -> bool {
        self.cluster_size() >= 2 * ENTRY_SIZE
    }

    /// Whether a cluster holds at least one byte.
    pub fn can_hold_data(&self) -> (r: bool)
        ensures
            r == self.holds_data(),
    {
        self.bytes_per_cluster() > 0
    }

    /// Whether a cluster has room for the two entries that every directory
    /// below the root begins with.
    pub fn can_hold_directories(&self) -> (r: bool)
        ensures
            r == self.holds_directories(),
    {
        self.bytes_per_cluster() >= 64
    }

    /// The bounds that keep all offset arithmetic inside 64 bits.
    pub proof fn lemma_bounds(&self)
        requires
            self.wf(),
        ensures
            0 <= self.cluster_size() <= 0xFFFF * 0xFF,
            self.boot_sector.sectors_per_cluster > 0,
            self.holds_data() ==> self.boot_sector.bytes_per_sector > 0,
            self.fat_offset == self.boot_sector.reserved_sector_count
                * self.boot_sector.bytes_per_sector,
            self.fat_offset <= 0xFFFF * 0xFFFF,
            self.fat_offset <= self.data_region_offset <= 0xFFFF * 0xFFFF + 0xFF * 0xFFFF_FFFF
                * 0xFFFF,
            self.data_region_offset == self.fat_offset + self.boot_sector.num_fats
                * self.boot_sector.fat_size_32 * self.boot_sector.bytes_per_sector,
            forall|c: u32|
                c >= 2 ==> self.data_region_offset <= #[trigger] self.cluster_offset(c)
                    <= 0x7FFF_FFFF_FFFF_FFFF,
    {
        let bs = self.boot_sector;
        let bps = bs.bytes_per_sector as int;
        let spc = bs.sectors_per_cluster as int;
        let rsv = bs.reserved_sector_count as int;
        let nf = bs.num_fats as int;
        let fsz = bs.fat_size_32 as int;
        assert(0 <= bps * spc <= 0xFFFF * 0xFF) by (nonlinear_arith)
            requires
                0 <= bps <= 0xFFFF,
                0 <= spc <= 0xFF,
        ;
        assert(bps * spc > 0 ==> bps > 0) by (nonlinear_arith)
            requires
                0 <= bps,
                0 <= spc,
        ;
        assert(0 <= rsv * bps <= 0xFFFF * 0xFFFF) by (nonlinear_arith)
            requires
                0 <= bps <= 0xFFFF,
                0 <= rsv <= 0xFFFF,
        ;
        assert(0 <= nf * fsz <= 0xFF * 0xFFFF_FFFF) by (nonlinear_arith)
            requires
                0 <= nf <= 0xFF,
                0 <= fsz <= 0xFFFF_FFFF,
        ;
        assert(0 <= nf * fsz * bps <= 0xFF * 0xFFFF_FFFF * 0xFFFF) by (nonlinear_arith)
            requires
                0 <= nf * fsz <= 0xFF * 0xFFFF_FFFF,
                0 <= bps <= 0xFFFF,
        ;
        assert forall|c: u32| c >= 2 implies self.data_region_offset <= #[trigger] self.cluster_offset(
            c,
        ) <= 0x7FFF_FFFF_FFFF_FFFF by {
            let k = (c - 2) as int;
            let size = self.cluster_size();
            assert(0 <= k * size <= 0xFFFF_FFFF * (0xFFFF * 0xFF)) by (nonlinear_arith)
                requires
                    0 <= k <= 0xFFFF_FFFF,
                    0 <= size <= 0xFFFF * 0xFF,
            ;
        }
    }

    /// Reads the boot sector's fields from the first 512 bytes of the image.
    /// An image shorter than that gives an I/O error.
    pub fn read_boot_sector(image: &[u8]) -> (r: Result<BootSector, FsError>)
        ensures
            image@.len() >= BOOT_SECTOR_SIZE ==> r == Ok::<BootSector, FsError>(
                parse_boot_sector(image@),
            ),
            image@.len() < BOOT_SECTOR_SIZE ==> r == Err::<BootSector, FsError>(FsError::Io),
    {
        if image.len() < BOOT_SECTOR_SIZE {
            return Err(FsError::Io);
        }
        let bytes_per_sector = read_u16(image, 11)?;
        let sectors_per_cluster = image[13];
        let reserved_sector_count = read_u16(image, 14)?;
        let num_fats = image[16];
        let total_sectors_16 = read_u16(image, 19)?;
        let total_sectors_32 = read_u32(image, 32)?;
        let total_sectors = if total_sectors_32 != 0 {
            total_sectors_32
        } else {
            total_sectors_16 as u32
        };
        let fat_size_16 = read_u16(image, 22)?;
        let fat_size_32 = read_u32(image, 36)?;
        let fat_size = if fat_size_32 != 0 {
            fat_size_32
        } else {
            fat_size_16 as u32
        };
        let root_cluster = read_u32(image, 44)?;
        let signature = read_u16(image, 510)?;
        Ok(
            BootSector {
                bytes_per_sector,
                sectors_per_cluster,
                reserved_sector_count,
                num_fats,
                total_sectors,
                fat_size_32: fat_size,
                root_cluster,
                signature,
            },
        )
    }

    /// Mounts an image: parses the boot sector, checks it and computes the
    /// geometry. The image is only read.
    ///
    /// An image shorter than a boot sector gives an I/O error. A wrong
    /// signature gives `InvalidImage`, and so does a boot sector from which
    /// the number of clusters cannot be computed: one with no sectors in a
    /// cluster, or with reserved sectors and FATs that exceed the volume.
    pub fn new(image: &[u8]) -> (r: Result<FAT32, FsError>)
        ensures
            image@.len() < BOOT_SECTOR_SIZE ==> r == Err::<FAT32, FsError>(FsError::Io),
            image@.len() >= BOOT_SECTOR_SIZE && !parse_boot_sector(image@).usable() ==> r
                == Err::<FAT32, FsError>(FsError::InvalidImage),
            image@.len() >= BOOT_SECTOR_SIZE && parse_boot_sector(image@).usable() ==> r
                == Ok::<FAT32, FsError>(Self::of_boot_sector(parse_boot_sector(image@))),
            r.is_ok() ==> r.unwrap().wf(),
    {
        let boot_sector = Self::read_boot_sector(image)?;
        if boot_sector.signature != BOOT_SIGNATURE {
            return Err(FsError::InvalidImage);
        }
        if boot_sector.sectors_per_cluster == 0 {
            return Err(FsError::InvalidImage);
        }
        proof {
            lemma_mul_bound(
                boot_sector.num_fats as int,
                boot_sector.fat_size_32 as int,
                0xFF,
                0xFFFF_FFFF,
            );
        }
        let system_sectors = boot_sector.reserved_sector_count as u64 + boot_sector.num_fats as u64
            * boot_sector.fat_size_32 as u64;
        if system_sectors > boot_sector.total_sectors as u64 {
            return Err(FsError::InvalidImage);
        }
        proof {
            lemma_mul_bound(
                boot_sector.reserved_sector_count as int,
                boot_sector.bytes_per_sector as int,
                0xFFFF,
                0xFFFF,
            );
            lemma_mul_bound(
                boot_sector.num_fats as int * boot_sector.fat_size_32 as int,
                boot_sector.bytes_per_sector as int,
                0xFE_FFFF_FF01,
                0xFFFF,
            );
        }
        let fat_offset = boot_sector.reserved_sector_count as u64
            * boot_sector.bytes_per_sector as u64;
        let data_region_offset = fat_offset + boot_sector.num_fats as u64
            * boot_sector.fat_size_32 as u64 * boot_sector.bytes_per_sector as u64;
        let total_clusters = ((boot_sector.total_sectors as u64 - system_sectors)
            / boot_sector.sectors_per_cluster as u64) as u32;
        Ok(FAT32 { boot_sector, total_clusters, fat_offset, data_region_offset })
    }

    /// The number of bytes in one cluster.
    pub fn bytes_per_cluster(&self) -> (r: u32)
        ensures
            r == self.cluster_size(),
    {
        proof {
            lemma_mul_bound(
                self.boot_sector.bytes_per_sector as int,
                self.boot_sector.sectors_per_cluster as int,
                0xFFFF,
                0xFF,
            );
        }
        self.boot_sector.bytes_per_sector as u32 * self.boot_sector.sectors_per_cluster as u32
    }

    /// The byte offset in the image at which the data of `cluster` begins.
    /// Clusters are numbered from 2.
    pub fn cluster_to_offset(&self, cluster: u32) -> (r: u64)
        requires
            self.wf(),
            cluster >= 2,
        ensures
            r == self.cluster_offset(cluster),
    {
        proof {
            self.lemma_bounds();
        }
        let cluster_num = cluster - 2;
        proof {
            lemma_mul_bound(cluster_num as int, self.cluster_size(), 0xFFFF_FFFF, 0xFE_FF01);
        }
        self.data_region_offset + (cluster_num as u64) * (self.bytes_per_cluster() as u64)
    }
}

} // verus!
