//! wpaperd: the wallpaper daemon's decision logic.
//!
//! The library keeps the state that decides which wallpaper a display shows
//! next (the history queue, the sorted and random pickers, the groups of
//! displays sharing a wallpaper), how a display section of the configuration
//! is merged with the `default` section and validated, how the automatic
//! change timer is paused, resumed and re-armed, and how the IPC messages of
//! `wpaperctl` are answered. Paths are held as strings.

pub mod config;
pub mod daemon;
pub mod filelist_cache;
pub mod image_loader;
pub mod image_picker;
pub mod ipc;
pub mod output_timer;
pub mod path_order;
pub mod queue;
pub mod surface;
pub(crate) mod system;
pub mod wallpaper;
pub mod wallpaper_groups;
pub mod wallpaper_info;

use vstd::prelude::*;

verus! {

/// The texts of a sequence of strings.
pub open spec fn views(v: Seq<String>) -> Seq<Seq<char>> {
    v.map_values(|s: String| s@)
}

/// The position of the first string of `v` with the text of `s`.
pub fn position_str(v: &Vec<String>, s: &String) -> (r: Option<usize>)
    ensures
        match r {
            Some(i) => i < v@.len() && views(v@)[i as int] == s@ && forall|j: int|
                0 <= j < i ==> views(v@)[j] != s@,
            None => !views(v@).contains(s@),
        },
{
    let mut i: usize = 0;
    while i < v.len()
        invariant
            i <= v@.len(),
            forall|j: int| 0 <= j < i ==> views(v@)[j] != s@,
        decreases v@.len() - i,
    {
        if v[i] == *s {
            return Some(i);
        }
        i += 1;
    }
    None
}

/// Whether `v` holds a string with the text of `s`.
pub fn contains_str(v: &Vec<String>, s: &String) -> (b: bool)
    ensures
        b == views(v@).contains(s@),
{
    let mut i: usize = 0;
    while i < v.len()
        invariant
            i <= v@.len(),
            forall|j: int| 0 <= j < i ==> views(v@)[j] != s@,
        decreases v@.len() - i,
    {
        if v[i] == *s {
            assert(views(v@)[i as int] == s@);
            return true;
        }
        i += 1;
    }
    false
}

/// Whether two sequences of words are the same.
pub fn same_words(a: &Vec<u32>, b: &Vec<u32>) -> (r: bool)
    ensures
        r == (a@ == b@),
{
    if a.len() != b.len() {
        return false;
    }
    let mut i: usize = 0;
    while i < a.len()
        invariant
            i <= a@.len(),
            a@.len() == b@.len(),
            forall|j: int| 0 <= j < i ==> a@[j] == b@[j],
        decreases a@.len() - i,
    {
        if a[i] != b[i] {
            return false;
        }
        i += 1;
    }
    assert(a@ =~= b@);
    true
}

/// Appending a string appends its text.
pub proof fn lemma_views_push(v: Seq<String>, s: String)
    ensures
        views(v.push(s)) == views(v).push(s@),
{
    assert(views(v.push(s)) =~= views(v).push(s@));
}

} // verus!
