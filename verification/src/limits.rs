//! The relay's fixed limits.

use vstd::prelude::*;

verus! {

/// The length of a session id.
pub const SESSION_ID_LEN: usize = 8;

/// How many sessions the relay holds.
pub const MAX_SESSIONS_TOTAL: usize = 65_536;

/// How many sessions one source address holds.
pub const MAX_SESSIONS_PER_SRC_IP: usize = 512;

/// How many flows the relay holds.
pub const MAX_FLOWS_TOTAL: usize = 262_144;

/// How many flows one session holds.
pub const MAX_FLOWS_PER_SESSION: usize = 1024;

} // verus!
