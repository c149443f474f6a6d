//! Which tracker URLs the announcer can talk to.

use vstd::prelude::*;
use crate::text::{has_prefix, starts_with};

verus! {

/// A tracker URL is supported when it uses HTTP, HTTPS or UDP.
pub open spec fn supported_url(u: Seq<char>) -> bool {
    ||| has_prefix(u, "http://"@)
    ||| has_prefix(u, "https://"@)
    ||| has_prefix(u, "udp://"@)
}

/// Whether the announcer can talk to the tracker at `url`.
pub fn is_supported_url(url: &str) -> (r: bool)
    ensures
        r == supported_url(url@),
{
    starts_with(url, "http://") || starts_with(url, "https://") || starts_with(url, "udp://")
}

} // verus!
