//! How the names in a grammar's queries are read.
//!
//! By convention an injection query marks the embedded text with the capture
//! `injection.content`, names its language with the capture or the property
//! `injection.language`, and keeps the surrounding captures with the property
//! `injection.include-children`. A locals query marks scopes, definitions and
//! references with captures under `local.`.

use crate::grammar::ByteRange;
use crate::text::{has_prefix, starts_with};
use vstd::prelude::*;
use vstd::string::StringSliceAdditionalSpecFns;

verus! {

/// What a capture of an injection query marks.
#[derive(Debug, Clone, Copy, PartialEq, Eq, Structural)]
pub enum InjectionRole {
    /// The text that is written in the other language.
    Content,
    /// A node whose text names the other language.
    Language,
}

/// What a property of a pattern of an injection query sets.
#[derive(Debug, Clone, Copy, PartialEq, Eq, Structural)]
pub enum InjectionSetting {
    /// The other language, by its identifier.
    Language,
    /// That the captures of the surrounding language stay in force.
    IncludeChildren,
}

/// What a capture of a locals query marks.
#[derive(Debug, Clone, Copy, PartialEq, Eq, Structural)]
pub enum LocalRole {
    /// A lexical scope.
    Scope,
    /// The definition of a variable.
    Definition,
    /// A reference to a variable.
    Reference,
}

/// The role of the capture `name` of an injection query.
pub open spec fn injection_role_of(name: Seq<u8>) -> Option<InjectionRole> {
    if name == "injection.content".spec_bytes() {
        Some(InjectionRole::Content)
    } else if name == "injection.language".spec_bytes() {
        Some(InjectionRole::Language)
    } else {
        None
    }
}

/// The setting that the property `key` of an injection query makes.
pub open spec fn injection_setting_of(key: Seq<u8>) -> Option<InjectionSetting> {
    if key == "injection.language".spec_bytes() {
        Some(InjectionSetting::Language)
    } else if key == "injection.include-children".spec_bytes() {
        Some(InjectionSetting::IncludeChildren)
    } else {
        None
    }
}

/// The role of the capture `name` of a locals query. Every name that starts
/// with `local.definition` marks a definition.
pub open spec fn local_role_of(name: Seq<u8>) -> Option<LocalRole> {
    if name == "local.scope".spec_bytes() {
        Some(LocalRole::Scope)
    } else if starts_with(name, "local.definition".spec_bytes()) {
        Some(LocalRole::Definition)
    } else if name == "local.reference".spec_bytes() {
        Some(LocalRole::Reference)
    } else {
        None
    }
}

/// Whether the two byte strings are the same.
pub fn same_bytes(a: &[u8], b: &[u8]) -> (same: bool)
    ensures
        same == (a@ == b@),
{
    let same = a.len() == b.len() && has_prefix(a, b);
    proof {
        if same {
            assert(a@.subrange(0, b@.len() as int) =~= a@);
        }
        if a@ == b@ {
            assert(a@.subrange(0, b@.len() as int) =~= b@);
        }
    }
    same
}

/// The role of the capture `name` of an injection query, if it has one.
pub fn injection_role(name: &str) -> (role: Option<InjectionRole>)
    ensures
        role == injection_role_of(name.spec_bytes()),
{
    let bytes = name.as_bytes();
    if same_bytes(bytes, "injection.content".as_bytes()) {
        Some(InjectionRole::Content)
    } else if same_bytes(bytes, "injection.language".as_bytes()) {
        Some(InjectionRole::Language)
    } else {
        None
    }
}

/// The setting that the property `key` of an injection query makes, if it
/// makes one.
pub fn injection_setting(key: &str) -> (setting: Option<InjectionSetting>)
    ensures
        setting == injection_setting_of(key.spec_bytes()),
{
    let bytes = key.as_bytes();
    if same_bytes(bytes, "injection.language".as_bytes()) {
        Some(InjectionSetting::Language)
    } else if same_bytes(bytes, "injection.include-children".as_bytes()) {
        Some(InjectionSetting::IncludeChildren)
    } else {
        None
    }
}

/// The role of the capture `name` of a locals query, if it has one.
pub fn local_role(name: &str) -> (role: Option<LocalRole>)
    ensures
        role == local_role_of(name.spec_bytes()),
{
    let bytes = name.as_bytes();
    if same_bytes(bytes, "local.scope".as_bytes()) {
        Some(LocalRole::Scope)
    } else if has_prefix(bytes, "local.definition".as_bytes()) {
        Some(LocalRole::Definition)
    } else if same_bytes(bytes, "local.reference".as_bytes()) {
        Some(LocalRole::Reference)
    } else {
        None
    }
}

/// No range of `ranges` starts before `low`, and one starts there.
pub open spec fn is_lowest_start(ranges: Seq<ByteRange>, low: int) -> bool {
    &&& forall|i: int| 0 <= i < ranges.len() ==> low <= (#[trigger] ranges[i]).start
    &&& exists|i: int| 0 <= i < ranges.len() && (#[trigger] ranges[i]).start == low
}

/// No range of `ranges` ends after `high`, and one ends there.
pub open spec fn is_highest_end(ranges: Seq<ByteRange>, high: int) -> bool {
    &&& forall|i: int| 0 <= i < ranges.len() ==> (#[trigger] ranges[i]).end <= high
    &&& exists|i: int| 0 <= i < ranges.len() && (#[trigger] ranges[i]).end == high
}

/// `len` is the length of a match whose captured nodes cover `ranges`: from
/// the lowest start to the highest end, and 0 where nothing was captured or
/// the ranges are not ranges.
pub open spec fn is_match_len(ranges: Seq<ByteRange>, len: int) -> bool {
    if ranges.len() == 0 {
        len == 0
    } else {
        exists|low: int, high: int|
            #![trigger is_lowest_start(ranges, low), is_highest_end(ranges, high)]
            is_lowest_start(ranges, low) && is_highest_end(ranges, high) && len == if low <= high {
                high - low
            } else {
                0
            }
    }
}

/// The length of a match from the ranges of the nodes that it captured.
pub fn match_len(ranges: &Vec<ByteRange>) -> (len: usize)
    ensures
        is_match_len(ranges@, len as int),
{
    if ranges.len() == 0 {
        return 0;
    }
    let mut low: usize = ranges[0].start;
    let mut high: usize = ranges[0].end;
    let mut i: usize = 1;
    proof {
        assert(ranges@.take(1)[0] == ranges@[0]);
    }
    while i < ranges.len()
        invariant
            1 <= i <= ranges.len(),
            is_lowest_start(ranges@.take(i as int), low as int),
            is_highest_end(ranges@.take(i as int), high as int),
        decreases ranges.len() - i,
    {
        let ghost seen = ranges@.take(i as int);
        let ghost now = ranges@.take(i + 1);
        let ghost at_low = choose|k: int| 0 <= k < seen.len() && (#[trigger] seen[k]).start == low;
        let ghost at_high = choose|k: int| 0 <= k < seen.len() && (#[trigger] seen[k]).end == high;
        if ranges[i].start < low {
            low = ranges[i].start;
        }
        if ranges[i].end > high {
            high = ranges[i].end;
        }
        proof {
            assert forall|k: int| 0 <= k < now.len() implies low <= (#[trigger] now[k]).start
                && now[k].end <= high by {
                if k < i {
                    assert(now[k] == seen[k]);
                }
            }
            assert(now[at_low] == seen[at_low] && now[at_high] == seen[at_high]);
            assert(now[i as int] == ranges@[i as int]);
        }
        i += 1;
    }
    proof {
        assert(ranges@.take(ranges.len() as int) =~= ranges@);
    }
    if low <= high {
        high - low
    } else {
        0
    }
}

} // verus!
