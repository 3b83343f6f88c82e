//! A runtime code-instrumentation engine: it locates functions inside an
//! already-loaded binary image by byte signature, redirects their control
//! flow to replacement functions, and overwrites byte ranges in place — with
//! the bookkeeping that makes every step revertible. Process memory, the
//! loaded image and the process's threads are explicit values here, so every
//! byte the engine reads or writes is accounted for in its contracts; the
//! embedder supplies those values and performs the few operations only the
//! OS can (installing a machine-level detour, suspending a real thread),
//! reporting each outcome back.

pub mod detour_binder;
pub mod hook_library;
pub mod memory;
pub mod module;
pub mod patcher;
pub mod pattern;
pub mod thread_suspender;
