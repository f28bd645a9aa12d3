//! osfacts: scoped, honest process and socket facts.
//!
//! The verified core: every decoder, codec, parser, document rule and row
//! order the binary relies on. Reading the OS and writing to stdout live
//! outside it.

pub mod chars;
pub mod cli;
pub mod darwin;
pub mod decode;
pub mod errno;
pub mod json;
pub mod laws;
pub mod order;
pub mod pcblist;
pub mod proc_addr;
pub mod procfs;
pub mod readings;
pub mod scan;
pub mod subtree;
pub mod schema;
pub mod text;
pub mod unix_socket;

pub use decode::{slot_from_vflag, AddressSlot, AF_INET, AF_INET6, INI_IPV4, INI_IPV6};
pub use errno::{errno_name, Errno};
pub use json::{encode_tsv_string, encode_tsv_strings};
pub use pcblist::{attribute_host_listeners, decode_host_listeners, HostListener};
pub use proc_addr::{decode_network_hex, decode_proc_hex, encode_hex, encode_proc_hex};
pub use readings::PidWalk;
pub use schema::{
    blind_or_empty, exit_code, hex_bytes, sanitize_name, source_error, Attribution, Cpu, Disk,
    Document, Facet, HostMemory, HostSnapshot, Load, Memory, Network, Port, Proc, ProcessArgv,
    ProcessCpuTime, ProcessCwd, ProcessStatus, ProcessUid, Snapshot, SocketHolders, SourceError,
    StartTime, Swap, Unreadable, SCHEMA_VERSION,
};
pub use unix_socket::{darwin_sockaddr_un_path, unix_socket_inodes};
