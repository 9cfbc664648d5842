//! Verified core of the CoreOS installer.

pub mod text;
pub mod console;
pub mod bls;
pub mod io;
pub mod iso9660;
pub mod initrd;
pub mod cmdline;
pub mod embed;
pub mod live;
pub mod ignition;
pub mod osmet;
pub mod rdcore;
pub mod miniso;
pub mod s390x;
pub mod blockdev;
pub mod source;
pub mod unpack;
pub mod stream_hash;
pub mod rootmap;
pub mod customize;
pub mod saved;
pub mod peek;
pub mod install;
