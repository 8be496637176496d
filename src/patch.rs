//! Naming the `[patch.<source>]` table that points a downstream workspace at
//! local copies of upstream crates.
use vstd::prelude::*;

use crate::text::concat_str;

verus! {

/// Where the patched crates come from.
#[derive(Debug, Clone, Copy, PartialEq, Eq, Structural)]
pub enum PatchType {
    CratesIO,
    Ssh,
    Https,
}

impl Default for PatchType {
    fn default() -> (r: Self)
        ensures
            r == PatchType::Https,
    {
        PatchType::Https
    }
}

/// The source that a `[patch.<source>]` table names for `repo` (an
/// `org/name` on GitHub).
pub open spec fn patch_source(patch_type: PatchType, repo: Seq<char>) -> Seq<char> {
    match patch_type {
        PatchType::CratesIO => "crates-io"@,
        PatchType::Ssh => "ssh://git@github.com/"@ + repo,
        PatchType::Https => "https://github.com/"@ + repo,
    }
}

/// The key of the `[patch]` table entry for `repo`.
pub fn patch_string(patch_type: &PatchType, repo: &str) -> (r: String)
    ensures
        r@ == patch_source(*patch_type, repo@),
{
    match patch_type {
        PatchType::CratesIO => "crates-io".to_owned(),
        PatchType::Ssh => concat_str("ssh://git@github.com/", repo),
        PatchType::Https => concat_str("https://github.com/", repo),
    }
}

} // verus!
