//! Conflict detection between named groups of members.
//!
//! Several independently populated groups (for instance, directories of
//! installable packages) each claim a set of members (relative file paths).
//! This crate builds a reverse index over all groups, extracts every member
//! claimed by two or more groups, and reports the overlaps deterministically,
//! so a host can refuse an operation that would silently overwrite files.

use vstd::prelude::*;
use vstd::string::StrSliceExecFns;

mod conflicts;
mod laws;
mod scan;
mod strutil;

pub use laws::lemma_disjoint_no_conflicts;
pub use laws::lemma_disjoint_detect_empty;
pub use laws::lemma_owners_are_claimants;
pub use laws::lemma_owners_distinct;
pub use laws::lemma_detect_deterministic;
pub use laws::lemma_permutation_invariance;
pub use laws::lemma_filter_case_insensitive;

pub use scan::FsEntry;
pub use scan::FsEntryModel;
pub use scan::ScanError;
pub use scan::DetectError;
pub use scan::file_name_of;
pub use scan::ext_of;
pub use scan::kept;
pub use scan::rel_of;
pub use scan::scan_ok;
pub use scan::is_scan_member;
pub use scan::entry_kept;
pub use scan::rel_of_exec;
pub use scan::collect_members;
pub use scan::scan;
pub use scan::split_commas;
pub use scan::ignore_models;
pub use scan::build_ignore_set;
pub use scan::GroupRoot;
pub use scan::detect_conflicts;

pub use strutil::lower_of;
pub use strutil::lex_lt;
pub use conflicts::Group;
pub use conflicts::GroupModel;
pub use conflicts::ConflictEntry;
pub use conflicts::EntryModel;
pub use conflicts::owners;
pub use conflicts::conflicting;
pub use conflicts::distinct_seqs;
pub use conflicts::groups_wf;
pub use conflicts::entries_sorted;
pub use conflicts::detect_post;
pub use conflicts::detect;
pub use conflicts::distinct_names;
pub use conflicts::lemma_owners_push;
pub use conflicts::lemma_owners_nonempty;
pub use conflicts::lemma_owners_conflict;
pub use conflicts::lemma_owners_membership;
pub use conflicts::ConflictError;
pub use conflicts::join_names;
pub use conflicts::render_entry;
pub use conflicts::render_entries;
pub use conflicts::render_message;
pub use conflicts::report;
pub use conflicts::conflicts;

verus! {

/// Whether localized strings should isolate bidirectional text: so exactly
/// when the host's preferred encoding starts with `utf-`.
pub fn encoding_uses_isolating(encoding: &str) -> (r: bool)
    ensures
        r == (encoding@.len() >= 4 && encoding@.take(4) == "utf-"@),
{
    let len = encoding.unicode_len();
    if len < 4 {
        return false;
    }
    let head = encoding.substring_char(0, 4);
    let r = crate::strutil::str_eq(head, "utf-");
    proof {
        assert(head@ =~= encoding@.take(4));
    }
    r
}

} // verus!
