//! UE5 SDK dumper: reads the reflection data of a running Unreal Engine 5 game
//! out of its memory.
//!
//! Nothing here touches a process. A computation runs over the pages of remote
//! memory fetched so far ([`mem::ProcessHandle`]) and either answers or names the
//! read that has to be fetched before it can ([`mem::Missing`]); the caller
//! fetches those pages and runs it again.

pub mod discovery;
pub mod esp;
pub mod laws;
pub mod mem;
pub mod scanner;
pub mod search;
pub mod text;
pub mod ue;
pub mod walk;
