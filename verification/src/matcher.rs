//! Rule matcher: selects the first preset whose class substring occurs in a
//! window's class.

use vstd::prelude::*;
use crate::config::Preset;

verus! {

/// `needle` occurs in `hay` starting at character position `i`.
pub open spec fn substring_at(hay: Seq<char>, needle: Seq<char>, i: int) -> bool {
    &&& 0 <= i
    &&& i + needle.len() <= hay.len()
    &&& hay.subrange(i, i + needle.len()) == needle
}

/// `needle` occurs somewhere in `hay`.
pub open spec fn is_substring(hay: Seq<char>, needle: Seq<char>) -> bool {
    exists|i: int| substring_at(hay, needle, i)
}

/// A preset governs a window exactly when its (non-empty) class substring
/// occurs in the window's class.
pub open spec fn preset_matches(p: Preset, class: Seq<char>) -> bool {
    p.class_substring@.len() > 0 && is_substring(class, p.class_substring@)
}

/// Character-by-character comparison of `needle` against `hay[i..]`.
fn matches_at(hay: &str, needle: &str, i: usize, hay_len: usize, needle_len: usize) -> (r: bool)
    requires
        hay_len == hay@.len(),
        needle_len == needle@.len(),
        i + needle_len <= hay_len,
    ensures
        r == substring_at(hay@, needle@, i as int),
{
    let mut j: usize = 0;
    while j < needle_len
        invariant
            j <= needle_len,
            i + needle_len <= hay_len,
            hay_len == hay@.len(),
            needle_len == needle@.len(),
            forall|k: int| 0 <= k < j ==> hay@[i as int + k] == needle@[k],
        decreases needle_len - j,
    {
        if hay.get_char(i + j) != needle.get_char(j) {
            assert(hay@.subrange(i as int, i + needle@.len()) != needle@) by {
                assert(hay@.subrange(i as int, i + needle@.len())[j as int] != needle@[j as int]);
            }
            return false;
        }
        j = j + 1;
    }
    proof {
        assert(hay@.subrange(i as int, i + needle@.len()) =~= needle@);
    }
    true
}

/// Whether `needle` occurs in `hay` as a contiguous run of characters
/// (case-sensitive).
pub fn contains_substring(hay: &str, needle: &str) -> (r: bool)
    ensures
        r == is_substring(hay@, needle@),
{
    let hay_len = hay.unicode_len();
    let needle_len = needle.unicode_len();
    if needle_len > hay_len {
        return false;
    }
    if needle_len == 0 {
        proof {
            assert(substring_at(hay@, needle@, 0)) by {
                assert(hay@.subrange(0, 0) =~= needle@);
            }
        }
        return true;
    }
    let mut i: usize = 0;
    while i <= hay_len - needle_len
        invariant
            0 < needle_len <= hay_len,
            hay_len == hay@.len(),
            needle_len == needle@.len(),
            i <= hay_len - needle_len + 1,
            forall|k: int| 0 <= k < i ==> !substring_at(hay@, needle@, k),
        decreases hay_len - needle_len + 1 - i,
    {
        if matches_at(hay, needle, i, hay_len, needle_len) {
            return true;
        }
        i = i + 1;
    }
    false
}

/// `r` names the first preset that governs a window of class `class`, or
/// no preset when none matches.
pub open spec fn first_match_is(presets: Seq<Preset>, class: Seq<char>, r: Option<usize>) -> bool {
    match r {
        Some(i) => {
            &&& i < presets.len()
            &&& preset_matches(presets[i as int], class)
            &&& forall|j: int| 0 <= j < i ==> !preset_matches(presets[j], class)
        },
        None => forall|j: int| 0 <= j < presets.len() ==> !preset_matches(presets[j], class),
    }
}

/// The first preset, in configuration order, that governs a window of the
/// given class; `None` when no preset matches, in which case the caller
/// falls back to the global settings.
pub fn match_preset(presets: &Vec<Preset>, class: &str) -> (r: Option<usize>)
    ensures
        first_match_is(presets@, class@, r),
{
    let mut i: usize = 0;
    while i < presets.len()
        invariant
            i <= presets@.len(),
            forall|j: int| 0 <= j < i ==> !preset_matches(presets@[j], class@),
        decreases presets@.len() - i,
    {
        let cs = presets[i].class_substring.as_str();
        if !cs.is_empty() && contains_substring(class, cs) {
            return Some(i);
        }
        i = i + 1;
    }
    None
}

} // verus!
