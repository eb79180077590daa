//! Reading and writing another process's memory: the rules behind pointer
//! chains, signature scans, patches, code caves and hooks.
//!
//! Nothing here touches the operating system. An operation that needs the
//! target says what it wants done next (see [`Step`]) and is resumed with what
//! came of it, so every decision it takes is a function of plain values.
pub mod assembler;
pub mod backend;
pub mod bytes;
pub mod cave;
pub mod cstring;
pub mod error;
pub mod hook;
pub mod io;
pub mod kernel_driver;
pub mod machine;
pub mod maps;
pub mod memory;
pub mod patch;
pub mod pattern;
pub mod pointer;
pub mod process;
pub mod prot;
pub mod remote;
pub mod scan;
pub mod scatter;
pub mod search;
pub mod step;
pub mod sys;
pub mod text;
pub mod tracer;

pub use assembler::{Asm, AsmError, Reg};
pub use cave::{CaveModule, CaveRegions, CaveScan};
pub use cstring::ReadCstring;
pub use error::{Error, IoError};
pub use hook::Hook;
pub use io::{
    classify, MemEvent, MemRead, MemTransfer, MemWrite, ReadRequest, ReadVec, Transfer, WriteCall,
    WriteForce, WriteRequest,
};
pub use maps::{MapRegion, Module};
pub use patch::{Patch, PatchPattern, PatchRead, PatchWrite, Switch};
pub use pattern::Pattern;
pub use pointer::{Pointer, Resolve};
pub use process::Process;
pub use remote::{Alloc, RemoteMem};
pub use scan::{RegionScan, RegionScanAll};
pub use scatter::{Scatter, ScatterEach, ScatterRun};
pub use search::{FindModule, ListAll, ListRegions, ResolveRip, Scan, ScanAll, Scope};
pub use step::Step;
