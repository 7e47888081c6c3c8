//! RISC-V `virt` full-system machine support.

pub mod blob_laws;
pub mod board;
pub mod boot;
pub mod boot_laws;
pub mod bus;
pub mod bus_laws;
pub mod bytes;
pub mod clock;
pub mod codecache;
pub mod diag;
pub mod disk_laws;
pub mod dma;
pub mod dtb;
pub mod egress;
pub mod elf;
pub mod frame_laws;
pub mod fs_laws;
pub mod hostfs;
pub mod http;
pub mod http_laws;
pub mod image_laws;
pub mod jit;
pub mod machine;
pub mod machine_laws;
pub mod memfs;
pub mod plic;
pub mod program_laws;
pub mod proxy;
pub mod proxy_laws;
pub mod ram;
pub mod session;
pub mod staging;
pub mod text;
pub mod tls;
pub mod tree_laws;
pub mod tunnel;
pub mod uart;
pub mod uart_laws;
pub mod virtio;
pub mod virtio_laws;
pub mod wire;
pub mod wire_laws;
pub mod ws;
pub mod ws_laws;

pub use crate::clock::host_unix_time_ns;
pub use crate::codecache::CodeDispatch;
pub use crate::machine::RunSliceOutcome;
pub use crate::ram::{checked_ram_range, JitPageState, RAM_BASE};
