//! Platform-independent utilities for boot applications: parsers and
//! builders for PE, ELF, CBFS, ACPI, SMBIOS, EDID and CHID data, GRUB and
//! Boot Loader Specification configuration files, and related helpers.
pub mod bytes;
pub mod text;
pub mod guid;

pub use guid::{guid_str, Guid, GuidParseError, OrderedGuid};

pub use bytes::find_byte_sequence;
pub use text::hexdump;
pub mod sha1;
pub mod edid;
pub mod smbios;
pub mod chid;
pub mod chid_mapping;
pub mod chid_matcher;
pub mod peimage;
pub mod cbfs;
pub mod bls;
pub mod grub;
pub mod kversion;
pub mod units;
pub mod acpi;
pub mod elf64;
pub mod cbfs_rom;
pub mod stubble;
pub mod bootflows;
pub mod pe_rebuilder;
pub mod align;
pub mod flashedit;
pub mod pewrap;
pub mod drm;
