//! Choosing the next wallpaper of a display: in random order with a history
//! to walk back and forth, shared by a group of displays, or in the order of
//! the file names.

use vstd::prelude::*;

use crate::filelist_cache::FilelistCache;
use crate::queue::{Queue, QueueModel};
use crate::system::{path_exists, path_is_dir, random_below};
use crate::wallpaper_groups::{empty_queue, joined, released, GroupModel, WallpaperGroups};
use crate::wallpaper_info::{
    Sorting, WallpaperInfo, WallpaperInfoModel, DEFAULT_DRAWN_IMAGES_QUEUE_SIZE,
};
use crate::{contains_str, position_str, views};

verus! {

/// The size of the history: an explicit queue-size always wins; otherwise the
/// size of the collection, or the default for single files and empty
/// folders; never less than one.
pub open spec fn spec_effective_queue_size(explicit: Option<usize>, files_count: usize) -> usize {
    let n = match explicit {
        Some(e) => e,
        None => if files_count == 0 {
            DEFAULT_DRAWN_IMAGES_QUEUE_SIZE
        } else {
            files_count
        },
    };
    if n < 1 {
        1
    } else {
        n
    }
}

/// An explicit queue-size always wins. Otherwise the queue is sized to the
/// collection itself, so that no wallpaper repeats until every one has been
/// shown. Single files and empty folders fall back to the default; a queue
/// needs room for at least one image.
/// With such a queue, random picks run in cycles that show every wallpaper
/// once each: see [`lemma_random_cycles`].
pub fn effective_queue_size(explicit: Option<usize>, files_count: usize) -> (n: usize)
    ensures
        n == spec_effective_queue_size(explicit, files_count),
        n >= 1,
{
    let n = match explicit {
        Some(e) => e,
        None => if files_count == 0 {
            DEFAULT_DRAWN_IMAGES_QUEUE_SIZE
        } else {
            files_count
        },
    };
    if n < 1 {
        1
    } else {
        n
    }
}

/// The queue after walking forward to its newest image.
pub open spec fn walked_to_end(q: QueueModel) -> QueueModel {
    if q.items.len() > 0 {
        q.with_current((q.items.len() - 1) as nat)
    } else {
        q
    }
}

/// Some file is not the image `cur`.
pub open spec fn has_other(files: Seq<Seq<char>>, cur: Seq<char>) -> bool {
    exists|i: int| 0 <= i < files.len() && files[i] != cur
}

/// Some file is not in the current cycle of `q`.
pub open spec fn has_unseen(q: QueueModel, files: Seq<Seq<char>>) -> bool {
    exists|i: int| 0 <= i < files.len() && !q.cycle().contains(files[i])
}

/// A pick from the files, once the history has nothing newer: the only file
/// if there is one; else a file not shown in the current cycle; else, when
/// every file has been shown, a new cycle starts and any file but the one on
/// screen.
pub open spec fn fresh_pick(
    cur: Seq<char>,
    q: QueueModel,
    files: Seq<Seq<char>>,
    q2: QueueModel,
    r: (nat, Seq<char>),
) -> bool {
    if files.len() == 1 {
        q2 == q && r == (0nat, files[0])
    } else if has_unseen(q, files) {
        &&& q2 == q
        &&& r.0 < files.len()
        &&& r.1 == files[r.0 as int]
        &&& !q.cycle().contains(r.1)
    } else {
        &&& q2 == (QueueModel { in_cycle: 0, ..q })
        &&& r.0 < files.len()
        &&& r.1 == files[r.0 as int]
        &&& r.1 != cur
    }
}

/// The first `true` of `answers` is at `k`.
pub open spec fn first_yes(answers: Seq<bool>, k: int) -> bool {
    0 <= k < answers.len() && answers[k] && forall|i: int| 0 <= i < k ==> !answers[i]
}

/// The answers about the entries met while walking the history cover the
/// walk: they stop at the first entry that exists, or after `left` entries.
pub open spec fn walk_answers(answers: Seq<bool>, left: nat) -> bool {
    &&& answers.len() <= left
    &&& (answers.len() == left || answers.contains(true))
}

/// Walking forward in the history `q` with the image `cur` on screen, when
/// `answers[k]` tells whether the entry `q.current + 1 + k` still exists:
/// the nearest later entry that exists, or, when none does, a fresh pick
/// from the files once the walk has reached the newest entry.
pub open spec fn next_step(
    cur: Seq<char>,
    q: QueueModel,
    files: Seq<Seq<char>>,
    answers: Seq<bool>,
    q2: QueueModel,
    r: (nat, Seq<char>),
) -> bool {
    if exists|k: int| first_yes(answers, k) {
        let k = choose|k: int| first_yes(answers, k);
        &&& r.0 == q.current + 1 + k
        &&& r.1 == q.items[r.0 as int]
        &&& q2 == q.with_current(r.0)
    } else {
        fresh_pick(cur, walked_to_end(q), files, q2, r)
    }
}

/// Walking back in the history `q` with the image `cur` on screen, when
/// `answers[k]` tells whether the entry `q.current - 1 - k` still exists:
/// the nearest earlier entry that exists, or, when none does, the image on
/// screen again with the position `usize::MAX`, the cursor on it when it is
/// recorded and on the oldest entry otherwise.
pub open spec fn previous_step(
    cur: Seq<char>,
    q: QueueModel,
    answers: Seq<bool>,
    q2: QueueModel,
    r: (nat, Seq<char>),
) -> bool {
    if exists|k: int| first_yes(answers, k) {
        let k = choose|k: int| first_yes(answers, k);
        &&& r.0 == q.current - 1 - k
        &&& r.1 == q.items[r.0 as int]
        &&& q2 == q.with_current(r.0)
    } else {
        q2 == q.with_current(0).after_set_current_to(cur) && r == (usize::MAX as nat, cur)
    }
}

/// A random pick: a later image of the history, or, walking past the newest
/// one, a fresh pick from the files. Which later image depends on what is
/// still on disk: see [`next_step`].
pub open spec fn random_pick(
    cur: Seq<char>,
    q: QueueModel,
    files: Seq<Seq<char>>,
    q2: QueueModel,
    r: (nat, Seq<char>),
) -> bool {
    ||| (q.current < r.0 < q.items.len() && r.1 == q.items[r.0 as int] && q2 == q.with_current(r.0))
    ||| fresh_pick(cur, walked_to_end(q), files, q2, r)
}

/// Going back in the history: an earlier image, or, past the oldest one,
/// the image on screen again with the position `usize::MAX`. Which earlier
/// image depends on what is still on disk: see [`previous_step`].
pub open spec fn previous_pick(
    cur: Seq<char>,
    q: QueueModel,
    q2: QueueModel,
    r: (nat, Seq<char>),
) -> bool {
    ||| (r.0 < q.current && r.1 == q.items[r.0 as int] && q2 == q.with_current(r.0))
    ||| (q2 == q.with_current(0).after_set_current_to(cur) && r == (usize::MAX as nat, cur))
}

/// How many entries of the history `q` are newer than the one under the
/// cursor.
pub open spec fn later_count(q: QueueModel) -> nat {
    if q.items.len() > 0 {
        (q.items.len() - 1 - q.current) as nat
    } else {
        0
    }
}

/// The first `true` of some answers is the only one with no `true` before it.
proof fn lemma_first_yes_unique(answers: Seq<bool>, k: int)
    requires
        first_yes(answers, k),
    ensures
        (choose|j: int| first_yes(answers, j)) == k,
{
    let j = choose|j: int| first_yes(answers, j);
    assert(first_yes(answers, j));
    if j < k {
        assert(!answers[j]);
    }
    if k < j {
        assert(!answers[k]);
    }
}

/// Pick the next random image: the next one of the history that still
/// exists, or else a file not shown in the current cycle, or else, starting
/// a new cycle, any file but the one on screen. The disk is asked about the
/// later entries of the history, nearest first, until one exists.
pub fn next_random_image(current_image: &String, queue: &mut Queue, files: &Vec<String>) -> (r: (
    usize,
    String,
))
    requires
        old(queue).wf(),
        files@.len() > 0,
        files@.len() > 1 && !has_other(views(files@), current_image@) ==> has_unseen(
            walked_to_end(old(queue)@),
            views(files@),
        ),
    ensures
        final(queue).wf(),
        random_pick(current_image@, old(queue)@, views(files@), final(queue)@, (r.0 as nat, r.1@)),
        exists|answers: Seq<bool>|
            walk_answers(answers, later_count(old(queue)@)) && #[trigger] next_step(
                current_image@,
                old(queue)@,
                views(files@),
                answers,
                final(queue)@,
                (r.0 as nat, r.1@),
            ),
{
    proof {
        queue.lemma_wf_model();
    }
    let len = queue.len();
    let start = queue.current_index() + 1;
    let mut answers: Vec<bool> = Vec::new();
    let mut k = start;
    let mut found = false;
    while k < len && !found
        invariant
            queue.wf(),
            queue@ == old(queue)@,
            queue@.wf(),
            len == queue@.items.len(),
            start == queue@.current + 1,
            start <= k,
            len > 0 ==> k <= len,
            len == 0 ==> k == start,
            answers@.len() == k - start,
            found == answers@.contains(true),
        decreases len - k,
    {
        let e = path_exists(queue.get(k));
        let ghost before = answers@;
        answers.push(e);
        proof {
            if e {
                assert(answers@[answers@.len() - 1] == true);
            }
            if before.contains(true) {
                let i = choose|i: int| 0 <= i < before.len() && before[i] == true;
                assert(answers@[i] == true);
            }
            if answers@.contains(true) && !e {
                let i = choose|i: int| 0 <= i < answers@.len() && answers@[i] == true;
                assert(before[i] == true);
            }
        }
        found = e || found;
        k += 1;
    }
    proof {
        if len > 0 {
            assert(later_count(queue@) == len - start);
        } else {
            assert(answers@.len() == 0);
        }
        assert(walk_answers(answers@, later_count(old(queue)@)));
    }
    next_random_from_answers(current_image, queue, files, &answers)
}

/// Pick the next random image when `answers[k]` tells whether the history
/// entry `k` places after the cursor still exists: the nearest later entry
/// that does, or else a fresh pick from the files.
pub fn next_random_from_answers(
    current_image: &String,
    queue: &mut Queue,
    files: &Vec<String>,
    answers: &Vec<bool>,
) -> (r: (usize, String))
    requires
        old(queue).wf(),
        files@.len() > 0,
        files@.len() > 1 && !has_other(views(files@), current_image@) ==> has_unseen(
            walked_to_end(old(queue)@),
            views(files@),
        ),
        walk_answers(answers@, later_count(old(queue)@)),
    ensures
        final(queue).wf(),
        next_step(current_image@, old(queue)@, views(files@), answers@, final(queue)@, (r.0 as nat, r.1@)),
        random_pick(current_image@, old(queue)@, views(files@), final(queue)@, (r.0 as nat, r.1@)),
{
    proof {
        queue.lemma_wf_model();
    }
    let ghost q0 = queue@;
    let mut k: usize = 0;
    while k < answers.len()
        invariant
            queue.wf(),
            q0.wf(),
            q0 == old(queue)@,
            k <= answers@.len(),
            walk_answers(answers@, later_count(q0)),
            queue@ == q0.with_current((q0.current + k) as nat),
            forall|i: int| 0 <= i < k ==> !answers@[i],
        decreases answers@.len() - k,
    {
        proof {
            queue.lemma_wf_model();
        }
        match queue.next() {
            Some((next, index)) => {
                if answers[k] {
                    proof {
                        assert(first_yes(answers@, k as int));
                        lemma_first_yes_unique(answers@, k as int);
                        assert(index == q0.current + 1 + k);
                        assert(next@ == q0.items[index as int]);
                        assert(queue@ == q0.with_current(index as nat));
                    }
                    return (index, next);
                }
            },
            None => {},
        }
        k += 1;
    }
    proof {
        queue.lemma_wf_model();
        assert(!answers@.contains(true)) by {
            if answers@.contains(true) {
                let i = choose|i: int| 0 <= i < answers@.len() && answers@[i] == true;
                assert(!answers@[i]);
            }
        }
        assert(!exists|j: int| first_yes(answers@, j));
        assert(queue@ == walked_to_end(q0));
    }
    // If there is only one image just return it
    if files.len() == 1 {
        return (0, files[0].clone());
    }
    // Pick uniformly among the images that have not been shown in the
    // current cycle: a repeat can never happen by bad luck, only by
    // exhaustion.
    let shown = queue.current_cycle();
    let ghost cycle = queue@.cycle();
    let ghost fv = views(files@);
    let mut available: Vec<usize> = Vec::new();
    let mut i: usize = 0;
    while i < files.len()
        invariant
            i <= files@.len(),
            fv == views(files@),
            views(shown@) == cycle,
            forall|k: int|
                0 <= k < available@.len() ==> #[trigger] available@[k] < files@.len()
                    && !cycle.contains(fv[available@[k] as int]),
            (exists|j: int| 0 <= j < i && !cycle.contains(fv[j])) ==> available@.len() > 0,
        decreases files@.len() - i,
    {
        if !contains_str(&shown, &files[i]) {
            available.push(i);
        }
        i += 1;
    }
    if available.len() > 0 {
        let index = available[random_below(available.len())];
        return (index, files[index].clone());
    }
    proof {
        assert(!has_unseen(queue@, fv));
    }
    // Every image has been shown: start a new cycle. The only image ruled
    // out is the one on screen, and there is more than one.
    queue.start_new_cycle();
    let mut others: Vec<usize> = Vec::new();
    let mut j: usize = 0;
    while j < files.len()
        invariant
            j <= files@.len(),
            fv == views(files@),
            forall|k: int|
                0 <= k < others@.len() ==> #[trigger] others@[k] < files@.len() && fv[others@[k] as int]
                    != current_image@,
            (exists|m: int| 0 <= m < j && fv[m] != current_image@) ==> others@.len() > 0,
        decreases files@.len() - j,
    {
        if files[j] != *current_image {
            others.push(j);
        }
        j += 1;
    }
    let index = others[random_below(others.len())];
    (index, files[index].clone())
}

/// Walk back the history to the previous image that still exists; when
/// there is none, put the cursor back on the image on screen. The disk is
/// asked about the earlier entries of the history, nearest first, until one
/// exists.
pub fn get_previous_image_for_random(current_image: &String, queue: &mut Queue) -> (r: (
    usize,
    String,
))
    requires
        old(queue).wf(),
    ensures
        final(queue).wf(),
        previous_pick(current_image@, old(queue)@, final(queue)@, (r.0 as nat, r.1@)),
        exists|answers: Seq<bool>|
            walk_answers(answers, old(queue)@.current) && #[trigger] previous_step(
                current_image@,
                old(queue)@,
                answers,
                final(queue)@,
                (r.0 as nat, r.1@),
            ),
{
    proof {
        queue.lemma_wf_model();
    }
    let c = queue.current_index();
    let mut answers: Vec<bool> = Vec::new();
    let mut k: usize = 0;
    let mut found = false;
    while k < c && !found
        invariant
            queue.wf(),
            queue@ == old(queue)@,
            queue@.wf(),
            c == queue@.current,
            k <= c,
            answers@.len() == k,
            found == answers@.contains(true),
        decreases c - k,
    {
        let e = path_exists(queue.get(c - 1 - k));
        let ghost before = answers@;
        answers.push(e);
        proof {
            if e {
                assert(answers@[answers@.len() - 1] == true);
            }
            if before.contains(true) {
                let i = choose|i: int| 0 <= i < before.len() && before[i] == true;
                assert(answers@[i] == true);
            }
            if answers@.contains(true) && !e {
                let i = choose|i: int| 0 <= i < answers@.len() && answers@[i] == true;
                assert(before[i] == true);
            }
        }
        found = e || found;
        k += 1;
    }
    previous_from_answers(current_image, queue, &answers)
}

/// Walk back the history when `answers[k]` tells whether the entry `k + 1`
/// places before the cursor still exists: the nearest earlier entry that
/// does, or else the image on screen again, with the cursor put back on it.
pub fn previous_from_answers(current_image: &String, queue: &mut Queue, answers: &Vec<bool>) -> (r: (
    usize,
    String,
))
    requires
        old(queue).wf(),
        walk_answers(answers@, old(queue)@.current),
    ensures
        final(queue).wf(),
        previous_step(current_image@, old(queue)@, answers@, final(queue)@, (r.0 as nat, r.1@)),
        previous_pick(current_image@, old(queue)@, final(queue)@, (r.0 as nat, r.1@)),
{
    proof {
        queue.lemma_wf_model();
    }
    let ghost q0 = queue@;
    let mut k: usize = 0;
    while k < answers.len()
        invariant
            queue.wf(),
            q0.wf(),
            q0 == old(queue)@,
            k <= answers@.len(),
            walk_answers(answers@, q0.current),
            queue@ == q0.with_current((q0.current - k) as nat),
            forall|i: int| 0 <= i < k ==> !answers@[i],
        decreases answers@.len() - k,
    {
        proof {
            queue.lemma_wf_model();
        }
        match queue.previous() {
            Some((prev, index)) => {
                if answers[k] {
                    proof {
                        assert(first_yes(answers@, k as int));
                        lemma_first_yes_unique(answers@, k as int);
                        assert(index == q0.current - 1 - k);
                        assert(prev@ == q0.items[index as int]);
                        assert(queue@ == q0.with_current(index as nat));
                    }
                    return (index, prev);
                }
            },
            None => {},
        }
        k += 1;
    }
    proof {
        queue.lemma_wf_model();
        assert(!answers@.contains(true)) by {
            if answers@.contains(true) {
                let i = choose|i: int| 0 <= i < answers@.len() && answers@[i] == true;
                assert(!answers@[i]);
            }
        }
        assert(!exists|j: int| first_yes(answers@, j));
        assert(queue@ == q0.with_current(0));
    }
    // No suitable image: reset to the last working one
    queue.set_current_to(current_image);
    (usize::MAX, current_image.clone())
}

/// The first position of `p` in `s`.
pub open spec fn first_index(s: Seq<Seq<char>>, p: Seq<char>) -> nat {
    choose|i: nat| i < s.len() && s[i as int] == p && forall|j: int| 0 <= j < i ==> s[j] != p
}

/// Where the search for the image on screen starts in a sorted file list:
/// the remembered index if the image is still there, else the image's
/// position, else the remembered index.
pub open spec fn sorted_base(files: Seq<Seq<char>>, idx: nat, cur: Seq<char>) -> nat {
    if idx < files.len() && files[idx as int] == cur {
        idx
    } else if files.contains(cur) {
        first_index(files, cur)
    } else {
        idx
    }
}

/// The index of the file before the image on screen, wrapping around; when
/// the image is gone and the remembered index is out of range, the search
/// starts from the first file.
pub open spec fn sorted_back_index(files: Seq<Seq<char>>, idx: nat, cur: Seq<char>) -> nat {
    let base = if !(idx < files.len() && files[idx as int] == cur) && !files.contains(cur)
        && idx >= files.len() {
        0
    } else {
        sorted_base(files, idx, cur)
    };
    if base == 0 {
        (files.len() - 1) as nat
    } else {
        (base - 1) as nat
    }
}

/// The index of the file after the image on screen, wrapping around.
pub open spec fn sorted_forward_index(files: Seq<Seq<char>>, idx: nat, cur: Seq<char>) -> nat {
    (((sorted_base(files, idx, cur) + 1) as int) % (files.len() as int)) as nat
}

/// In a file list without repeats that holds the image on screen at `j`,
/// the image is found again whatever index was remembered: stepping forward
/// gives the file after it and stepping back the file before it, wrapping
/// around.
pub proof fn lemma_sorted_steps_find_image(files: Seq<Seq<char>>, idx: nat, cur: Seq<char>, j: int)
    requires
        files.no_duplicates(),
        0 <= j < files.len(),
        files[j] == cur,
    ensures
        sorted_forward_index(files, idx, cur) == (j + 1) % (files.len() as int),
        sorted_back_index(files, idx, cur) == if j == 0 {
            files.len() - 1
        } else {
            j - 1
        },
{
    let n = files.len() as int;
    assert(files.contains(cur));
    if idx < files.len() && files[idx as int] == cur {
        assert(idx == j);
    } else {
        assert(forall|k: int| 0 <= k < j ==> files[k] != cur);
        assert((j as nat) < files.len() && files[(j as nat) as int] == cur && forall|k: int|
            0 <= k < (j as nat) ==> files[k] != cur);
        let f = first_index(files, cur);
        assert(f < files.len() && files[f as int] == cur);
        assert(f == j);
    }
    assert(sorted_base(files, idx, cur) == j);
}

/// The first position of `cur` in `files`, if it is there.
fn find_first(files: &Vec<String>, cur: &String) -> (r: Option<usize>)
    ensures
        match r {
            Some(i) => views(files@).contains(cur@) && i == first_index(views(files@), cur@) && i
                < files@.len(),
            None => !views(files@).contains(cur@),
        },
{
    let r = position_str(files, cur);
    proof {
        if let Some(i) = r {
            let fv = views(files@);
            assert(fv.contains(cur@));
            assert(i < fv.len() && fv[i as int] == cur@ && forall|j: int| 0 <= j < i ==> fv[j] != cur@);
            let k = first_index(fv, cur@);
            assert(k < fv.len() && fv[k as int] == cur@ && forall|j: int| 0 <= j < k ==> fv[j] != cur@);
            if k < i {
                assert(fv[k as int] != cur@);
            }
            if i < k {
                assert(fv[i as int] != cur@);
            }
        }
    }
    r
}

/// The index of the file before the image on screen in a sorted list.
fn sorted_back(files: &Vec<String>, idx: usize, cur: &String) -> (k: usize)
    requires
        files@.len() > 0,
    ensures
        k == sorted_back_index(views(files@), idx as nat, cur@),
        k < files@.len(),
{
    let base = if idx < files.len() && files[idx] == *cur {
        idx
    } else {
        match find_first(files, cur) {
            Some(i) => i,
            None => if idx >= files.len() {
                0
            } else {
                idx
            },
        }
    };
    if base == 0 {
        files.len() - 1
    } else {
        base - 1
    }
}

/// The index of the file after the image on screen in a sorted list.
fn sorted_forward(files: &Vec<String>, idx: usize, cur: &String) -> (k: usize)
    requires
        files@.len() > 0,
    ensures
        k == sorted_forward_index(views(files@), idx as nat, cur@),
        k < files@.len(),
{
    let base = if idx < files.len() && files[idx] == *cur {
        idx
    } else {
        match find_first(files, cur) {
            Some(i) => i,
            None => idx,
        }
    };
    let len = files.len();
    if base < len {
        (base + 1) % len
    } else {
        let k = (base % len + 1) % len;
        proof {
            vstd::arithmetic::div_mod::lemma_add_mod_noop(base as int, 1, len as int);
            if len > 1 {
                vstd::arithmetic::div_mod::lemma_small_mod(1, len as nat);
            } else {
                assert(1int % 1int == 0);
            }
            vstd::arithmetic::div_mod::lemma_mod_bound(base as int, len as int);
            assert(k as int == ((base as int % len as int) + 1) % (len as int));
        }
        k
    }
}

/// What the next pick does.
#[derive(Debug, Copy, Clone, PartialEq, Eq, Structural)]
pub enum ImagePickerAction {
    Next,
    Previous,
}

/// A display's place in a group of displays sharing a random wallpaper.
#[derive(Debug)]
pub struct GroupedRandom {
    pub surface: String,
    pub group: u8,
}

/// How a picker chooses images, with the state of the choice.
#[derive(Debug)]
pub enum ImagePickerSorting {
    Random(Queue),
    GroupedRandom(GroupedRandom),
    Ascending(usize),
    Descending(usize),
}

/// Abstract value of an [`ImagePickerSorting`].
pub enum SortingModel {
    Random(QueueModel),
    GroupedRandom { surface: Seq<char>, group: u8 },
    Ascending(nat),
    Descending(nat),
}

pub open spec fn sorting_view(s: ImagePickerSorting) -> SortingModel {
    match s {
        ImagePickerSorting::Random(q) => SortingModel::Random(q@),
        ImagePickerSorting::GroupedRandom(g) => SortingModel::GroupedRandom {
            surface: g.surface@,
            group: g.group,
        },
        ImagePickerSorting::Ascending(i) => SortingModel::Ascending(i as nat),
        ImagePickerSorting::Descending(i) => SortingModel::Descending(i as nat),
    }
}

/// Abstract value of an [`ImagePicker`].
pub struct PickerModel {
    pub current_img: Seq<char>,
    pub action: Option<ImagePickerAction>,
    pub sorting: SortingModel,
    pub reload: bool,
}

impl PickerModel {
    pub open spec fn with_sorting(self, s: SortingModel) -> PickerModel {
        PickerModel { sorting: s, ..self }
    }

    pub open spec fn with_action(self, a: Option<ImagePickerAction>) -> PickerModel {
        PickerModel { action: a, ..self }
    }
}

/// Picks the wallpapers of a display.
#[derive(Debug)]
pub struct ImagePicker {
    current_img: String,
    action: Option<ImagePickerAction>,
    sorting: ImagePickerSorting,
    reload: bool,
}

/// The outcome of a pick, when asking the disk whether the image on screen
/// still exists answers `cur_exists`.
pub open spec fn pick_outcome(
    pre: PickerModel,
    g: Map<u8, GroupModel>,
    files: Seq<Seq<char>>,
    cur_exists: bool,
    post: PickerModel,
    g2: Map<u8, GroupModel>,
    r: (nat, Seq<char>),
) -> bool {
    let cur = pre.current_img;
    let a = pre.action;
    let back = sorted_back_index(files, 0, cur);
    match pre.sorting {
        SortingModel::Ascending(idx) => {
            &&& post == pre
            &&& g2 == g
            &&& if a is None && cur_exists {
                r == (idx, cur)
            } else if a == Some(ImagePickerAction::Previous) {
                r == (sorted_back_index(files, idx, cur), files[sorted_back_index(
                    files,
                    idx,
                    cur,
                ) as int])
            } else {
                r == (sorted_forward_index(files, idx, cur), files[sorted_forward_index(
                    files,
                    idx,
                    cur,
                ) as int])
            }
        },
        SortingModel::Descending(idx) => {
            &&& post == pre
            &&& g2 == g
            &&& if a is None && cur_exists {
                r == (idx, cur)
            } else if a == Some(ImagePickerAction::Previous) {
                r == (sorted_forward_index(files, idx, cur), files[sorted_forward_index(
                    files,
                    idx,
                    cur,
                ) as int])
            } else {
                r == (sorted_back_index(files, idx, cur), files[sorted_back_index(
                    files,
                    idx,
                    cur,
                ) as int])
            }
        },
        SortingModel::Random(q) => {
            &&& g2 == g
            &&& if a is None && cur_exists {
                post == pre && r == (0nat, cur)
            } else if a == Some(ImagePickerAction::Previous) {
                post.sorting matches SortingModel::Random(q2) && post == pre.with_sorting(
                    post.sorting,
                ) && previous_pick(cur, q, q2, r)
            } else {
                post.sorting matches SortingModel::Random(q2) && post == pre.with_sorting(
                    post.sorting,
                ) && random_pick(cur, q, files, q2, r)
            }
        },
        SortingModel::GroupedRandom { surface, group } => {
            let gr = g[group];
            &&& post == pre
            &&& if gr.loading_image is Some {
                g2 == g && r == gr.loading_image.unwrap()
            } else if gr.current_image != cur {
                g2 == g && r == (gr.index, gr.current_image)
            } else if a is None && cur_exists {
                g2 == g && r == (0nat, cur)
            } else if a == Some(ImagePickerAction::Previous) {
                &&& g2.contains_key(group)
                &&& previous_pick(cur, gr.queue, g2[group].queue, r)
                &&& g2 == g.insert(
                    group,
                    GroupModel {
                        queue: g2[group].queue,
                        loading_image: if r.1 != gr.current_image {
                            Some(r)
                        } else {
                            gr.loading_image
                        },
                        ..gr
                    },
                )
            } else {
                &&& g2.contains_key(group)
                &&& random_pick(cur, gr.queue, files, g2[group].queue, r)
                &&& g2 == g.insert(
                    group,
                    GroupModel { queue: g2[group].queue, loading_image: Some(r), ..gr },
                )
            }
        },
    }
}

impl View for ImagePicker {
    type V = PickerModel;

    closed spec fn view(&self) -> PickerModel {
        PickerModel {
            current_img: self.current_img@,
            action: self.action,
            sorting: sorting_view(self.sorting),
            reload: self.reload,
        }
    }
}

impl ImagePicker {
    /// The history of a random picker is well formed.
    pub closed spec fn wf(&self) -> bool {
        match self.sorting {
            ImagePickerSorting::Random(q) => q.wf(),
            _ => true,
        }
    }

    /// The groups are well formed, and hold the group of a grouped picker.
    pub open spec fn groups_ok(&self, groups: &WallpaperGroups) -> bool {
        &&& groups.wf()
        &&& (self@.sorting matches SortingModel::GroupedRandom { group, .. } ==> groups@.contains_key(group))
    }

    /// The well-formed history of a random picker, as a model.
    pub proof fn lemma_wf(&self)
        requires
            self.wf(),
        ensures
            self@.sorting matches SortingModel::Random(q) ==> q.wf(),
    {
        if let ImagePickerSorting::Random(q) = self.sorting {
            q.lemma_wf_model();
        }
    }

    /// Pick the next image among `files` according to the sorting and the
    /// pending action.
    fn get_image_path(&mut self, files: &Vec<String>, groups: &mut WallpaperGroups) -> (r: (
        usize,
        String,
    ))
        requires
            old(self).wf(),
            old(self).groups_ok(old(groups)),
            files@.len() > 0,
            files@.len() > 1 ==> has_other(views(files@), old(self)@.current_img),
        ensures
            final(self).wf(),
            final(self).groups_ok(final(groups)),
            pick_outcome(
                old(self)@,
                old(groups)@,
                views(files@),
                true,
                final(self)@,
                final(groups)@,
                (r.0 as nat, r.1@),
            ) || pick_outcome(
                old(self)@,
                old(groups)@,
                views(files@),
                false,
                final(self)@,
                final(groups)@,
                (r.0 as nat, r.1@),
            ),
    {
        let is_none = self.action.is_none();
        let is_previous = match self.action {
            Some(ImagePickerAction::Previous) => true,
            _ => false,
        };
        if let ImagePickerSorting::Ascending(idx) = self.sorting {
            if is_none && path_exists(&self.current_img) {
                return (idx, self.current_img.clone());
            }
            let k = if is_previous {
                sorted_back(files, idx, &self.current_img)
            } else {
                sorted_forward(files, idx, &self.current_img)
            };
            return (k, files[k].clone());
        }
        if let ImagePickerSorting::Descending(idx) = self.sorting {
            if is_none && path_exists(&self.current_img) {
                return (idx, self.current_img.clone());
            }
            let k = if is_previous {
                sorted_forward(files, idx, &self.current_img)
            } else {
                sorted_back(files, idx, &self.current_img)
            };
            return (k, files[k].clone());
        }
        let group_id = match &self.sorting {
            ImagePickerSorting::GroupedRandom(gr) => Some(gr.group),
            _ => None,
        };
        if let Some(gid) = group_id {
            let mut gr = groups.take(gid);
            proof {
                old(groups).lemma_wf(gid);
            }
            if let Some((index, path)) = &gr.loading_image {
                let r = (*index, path.clone());
                groups.put(gr);
                proof {
                    assert(groups@ =~= old(groups)@);
                }
                return r;
            }
            if gr.current_image != self.current_img {
                let r = (gr.index, gr.current_image.clone());
                groups.put(gr);
                proof {
                    assert(groups@ =~= old(groups)@);
                }
                return r;
            }
            if is_none && path_exists(&self.current_img) {
                groups.put(gr);
                proof {
                    assert(groups@ =~= old(groups)@);
                }
                return (0, self.current_img.clone());
            }
            let ghost g0 = gr@;
            assert(g0 == old(groups)@[gid]);
            assert(g0.loading_image is None);
            assert(g0.current_image == self.current_img@);
            if is_previous {
                let (index, path) = get_previous_image_for_random(&self.current_img, &mut gr.queue);
                if path != gr.current_image {
                    gr.loading_image = Some((index, path.clone()));
                }
                let ghost g1 = gr@;
                groups.put(gr);
                proof {
                    assert(groups@ =~= old(groups)@.insert(gid, g1));
                    assert(groups@[gid] == g1);
                    assert(g1 == (GroupModel {
                        queue: g1.queue,
                        loading_image: if path@ != g0.current_image {
                            Some((index as nat, path@))
                        } else {
                            g0.loading_image
                        },
                        ..g0
                    }));
                    assert(pick_outcome(
                        old(self)@,
                        old(groups)@,
                        views(files@),
                        false,
                        self@,
                        groups@,
                        (index as nat, path@),
                    ));
                }
                return (index, path);
            } else {
                let (index, path) = next_random_image(&self.current_img, &mut gr.queue, files);
                gr.loading_image = Some((index, path.clone()));
                let ghost g1 = gr@;
                groups.put(gr);
                proof {
                    assert(groups@ =~= old(groups)@.insert(gid, g1));
                    assert(groups@[gid] == g1);
                    assert(g1 == (GroupModel {
                        queue: g1.queue,
                        loading_image: Some((index as nat, path@)),
                        ..g0
                    }));
                    assert(pick_outcome(
                        old(self)@,
                        old(groups)@,
                        views(files@),
                        false,
                        self@,
                        groups@,
                        (index as nat, path@),
                    ));
                }
                return (index, path);
            }
        }
        // Random
        if is_none && path_exists(&self.current_img) {
            return (0, self.current_img.clone());
        }
        match &mut self.sorting {
            ImagePickerSorting::Random(queue) => {
                if is_previous {
                    get_previous_image_for_random(&self.current_img, queue)
                } else {
                    next_random_image(&self.current_img, queue, files)
                }
            },
            _ => {
                proof {
                    assert(false);
                }
                (0, self.current_img.clone())
            },
        }
    }
}


/// The size of the history of a display with the settings `info`: the
/// configured size counts as explicit, so the size of the collection does not
/// enter.
pub open spec fn queue_size_of(info: WallpaperInfoModel) -> nat {
    spec_effective_queue_size(Some(info.drawn_images_queue_size), 0) as nat
}

/// The size of the history for the settings `info`.
fn queue_size_for(info: &WallpaperInfo, cache: &FilelistCache) -> (n: usize)
    requires
        cache.wf(),
        cache.has_path(info@.path),
    ensures
        n == queue_size_of(info@),
        n >= 1,
{
    let files_count: usize = if path_is_dir(&info.path) {
        cache.get(&info.path).len()
    } else {
        0
    };
    effective_queue_size(Some(info.drawn_images_queue_size), files_count)
}

/// The sorting state of a new picker for the settings `info`, on display
/// `surface`, whose path holds `files_len` images.
pub open spec fn initial_sorting(info: WallpaperInfoModel, files_len: nat, surface: Seq<char>) -> SortingModel {
    match info.sorting {
        Some(Sorting::GroupedRandom { group }) => SortingModel::GroupedRandom { surface, group },
        Some(Sorting::Ascending) => SortingModel::Ascending((files_len - 1) as nat),
        Some(Sorting::Descending) => SortingModel::Descending(0),
        _ => SortingModel::Random(empty_queue(queue_size_of(info))),
    }
}

/// The groups after a new picker for the settings `info` on display
/// `surface` joined its group, if it has one.
pub open spec fn initial_groups(g: Map<u8, GroupModel>, info: WallpaperInfoModel, surface: Seq<char>) -> Map<
    u8,
    GroupModel,
> {
    match info.sorting {
        Some(Sorting::GroupedRandom { group }) => joined(g, group, surface, queue_size_of(info)),
        _ => g,
    }
}

/// A pick by the picker, whatever the disk answers about the image on screen.
pub open spec fn picked(
    pre: PickerModel,
    g: Map<u8, GroupModel>,
    files: Seq<Seq<char>>,
    post: PickerModel,
    g2: Map<u8, GroupModel>,
    r: (nat, Seq<char>),
) -> bool {
    pick_outcome(pre, g, files, true, post, g2, r) || pick_outcome(pre, g, files, false, post, g2, r)
}

/// What asking for an image from `path` gives, when `path` is a directory
/// (`is_dir`) with the images `files`, or a single image: nothing when there
/// is nothing to show or the pick is the image on screen and no reload is
/// asked for; else the image with its index.
pub open spec fn path_outcome(
    pre: PickerModel,
    g: Map<u8, GroupModel>,
    path: Seq<char>,
    is_dir: bool,
    files: Seq<Seq<char>>,
    post: PickerModel,
    g2: Map<u8, GroupModel>,
    r: Option<(Seq<char>, nat)>,
) -> bool {
    if !is_dir {
        &&& post == pre
        &&& g2 == g
        &&& r == if path == pre.current_img && !pre.reload {
            None
        } else {
            Some((path, 0nat))
        }
    } else {
        files_outcome(pre, g, files, post, g2, r)
    }
}

/// What asking for an image among the images `files` of a directory gives:
/// nothing when there is nothing to show or the pick is the image on screen
/// and no reload is asked for; else the image with its index.
pub open spec fn files_outcome(
    pre: PickerModel,
    g: Map<u8, GroupModel>,
    files: Seq<Seq<char>>,
    post: PickerModel,
    g2: Map<u8, GroupModel>,
    r: Option<(Seq<char>, nat)>,
) -> bool {
    if files.len() == 0 || (files.len() > 1 && !has_other(files, pre.current_img)) {
        post == pre && g2 == g && r is None
    } else {
        exists|pick: (nat, Seq<char>)|
            #![trigger picked(pre, g, files, post, g2, pick)]
            picked(pre, g, files, post, g2, pick) && r == if pick.1 == pre.current_img
                && !pre.reload {
                None
            } else {
                Some((pick.1, pick.0))
            }
    }
}

/// The abstract value of an optional image with its index.
pub open spec fn found_view(r: Option<(String, usize)>) -> Option<(Seq<char>, nat)> {
    match r {
        Some((p, i)) => Some((p@, i as nat)),
        None => None,
    }
}

/// Whether some file is not `cur`.
fn any_other(files: &Vec<String>, cur: &String) -> (b: bool)
    ensures
        b == has_other(views(files@), cur@),
{
    let mut i: usize = 0;
    while i < files.len()
        invariant
            i <= files@.len(),
            forall|j: int| 0 <= j < i ==> views(files@)[j] == cur@,
        decreases files@.len() - i,
    {
        if files[i] != *cur {
            assert(views(files@)[i as int] != cur@);
            return true;
        }
        i += 1;
    }
    false
}

impl ImagePicker {
    /// The history size used when none is configured.
    pub const DEFAULT_DRAWN_IMAGES_QUEUE_SIZE: usize = DEFAULT_DRAWN_IMAGES_QUEUE_SIZE;

    /// A picker for display `surface` with the settings `info`, which joins
    /// its group when it has one. Nothing is on screen yet and the first pick
    /// moves forward.
    pub fn new(
        info: &WallpaperInfo,
        surface: &String,
        cache: &FilelistCache,
        groups: &mut WallpaperGroups,
    ) -> (p: Self)
        requires
            cache.wf(),
            cache.has_path(info@.path),
            old(groups).wf(),
            info@.sorting == Some(Sorting::Ascending) ==> cache.files_of(info@.path).len() > 0,
        ensures
            p.wf(),
            p.groups_ok(final(groups)),
            p@ == (PickerModel {
                current_img: Seq::empty(),
                action: Some(ImagePickerAction::Next),
                sorting: initial_sorting(info@, cache.files_of(info@.path).len(), surface@),
                reload: false,
            }),
            final(groups)@ == initial_groups(old(groups)@, info@, surface@),
    {
        let files_len: usize = match info.sorting {
            Some(Sorting::Ascending) => cache.get(&info.path).len(),
            Some(Sorting::Descending) => 0,
            // The size of the history.
            _ => if path_is_dir(&info.path) {
                cache.get(&info.path).len()
            } else {
                0
            },
        };
        Self::new_with_files(info, surface, files_len, groups)
    }

    /// A picker for display `surface` with the settings `info`, whose path
    /// holds `files_len` images, which joins its group when it has one.
    /// Nothing is on screen yet and the first pick moves forward.
    pub fn new_with_files(
        info: &WallpaperInfo,
        surface: &String,
        files_len: usize,
        groups: &mut WallpaperGroups,
    ) -> (p: Self)
        requires
            old(groups).wf(),
            info@.sorting == Some(Sorting::Ascending) ==> files_len > 0,
        ensures
            p.wf(),
            p.groups_ok(final(groups)),
            p@ == (PickerModel {
                current_img: Seq::empty(),
                action: Some(ImagePickerAction::Next),
                sorting: initial_sorting(info@, files_len as nat, surface@),
                reload: false,
            }),
            final(groups)@ == initial_groups(old(groups)@, info@, surface@),
    {
        let sorting = match info.sorting {
            Some(Sorting::GroupedRandom { group }) => {
                let qs = effective_queue_size(Some(info.drawn_images_queue_size), files_len);
                groups.get_or_insert(group, surface, qs);
                ImagePickerSorting::GroupedRandom(GroupedRandom { surface: surface.clone(), group })
            },
            Some(Sorting::Ascending) => ImagePickerSorting::Ascending(files_len - 1),
            Some(Sorting::Descending) => ImagePickerSorting::Descending(0),
            _ => ImagePickerSorting::Random(
                Queue::with_capacity(effective_queue_size(Some(info.drawn_images_queue_size), files_len)),
            ),
        };
        let p = ImagePicker {
            current_img: String::new(),
            action: Some(ImagePickerAction::Next),
            sorting,
            reload: false,
        };
        proof {
            assert(p@.current_img =~= Seq::<char>::empty());
        }
        p
    }

    /// The image to show among the images `files` of a directory; nothing
    /// when there is nothing new to show.
    pub fn get_image_from_files(&mut self, files: &Vec<String>, groups: &mut WallpaperGroups) -> (r:
        Option<(String, usize)>)
        requires
            old(self).wf(),
            old(self).groups_ok(old(groups)),
        ensures
            final(self).wf(),
            final(self).groups_ok(final(groups)),
            files_outcome(old(self)@, old(groups)@, views(files@), final(self)@, final(groups)@, found_view(r)),
    {
        // There are no images: nothing to show. Nor is there anything else
        // to show when every file is the image on screen.
        if files.len() == 0 || (files.len() > 1 && !any_other(files, &self.current_img)) {
            return None;
        }
        let ghost pre = self@;
        let ghost g = groups@;
        let (index, img_path) = self.get_image_path(files, groups);
        proof {
            assert(picked(pre, g, views(files@), self@, groups@, (index as nat, img_path@)));
        }
        if img_path == self.current_img && !self.reload {
            None
        } else {
            Some((img_path, index))
        }
    }

    /// The image to show from `path`: a pick among the images of a directory,
    /// or the image itself; nothing when there is nothing new to show.
    pub fn get_image_from_path(
        &mut self,
        path: &String,
        cache: &FilelistCache,
        groups: &mut WallpaperGroups,
    ) -> (r: Option<(String, usize)>)
        requires
            old(self).wf(),
            old(self).groups_ok(old(groups)),
            cache.wf(),
            cache.has_path(path@),
        ensures
            final(self).wf(),
            final(self).groups_ok(final(groups)),
            outcome_of_path(
                old(self)@,
                old(groups)@,
                path@,
                cache.files_of(path@),
                final(self)@,
                final(groups)@,
                found_view(r),
            ),
    {
        if path_is_dir(path) {
            let files = cache.get(path);
            self.get_image_from_files(&files, groups)
        } else if *path == self.current_img && !self.reload {
            None
        } else {
            // Not a directory, and either not the image on screen or a
            // reload is asked for.
            Some((path.clone(), 0))
        }
    }
}


/// The picker and the groups after `img` at position `index` went on screen:
/// a random history records it when the picker moved forward, a group takes
/// it as its image, a sorted picker remembers the index; the pending action
/// is done.
pub open spec fn after_update(pre: PickerModel, g: Map<u8, GroupModel>, img: Seq<char>, index: nat) -> (
    PickerModel,
    Map<u8, GroupModel>,
) {
    let next = pre.action == Some(ImagePickerAction::Next);
    let post = PickerModel { current_img: img, action: None, ..pre };
    match pre.sorting {
        SortingModel::Random(q) => (
            post.with_sorting(SortingModel::Random(if next { q.after_push(img) } else { q })),
            g,
        ),
        SortingModel::GroupedRandom { group, .. } => (
            post,
            g.insert(
                group,
                GroupModel {
                    queue: if next { g[group].queue.after_push(img) } else { g[group].queue },
                    loading_image: None,
                    current_image: img,
                    index,
                    ..g[group]
                },
            ),
        ),
        SortingModel::Ascending(_) => (post.with_sorting(SortingModel::Ascending(index)), g),
        SortingModel::Descending(_) => (post.with_sorting(SortingModel::Descending(index)), g),
    }
}

/// The position of the picker: the cursor of a random history, the index of
/// the group's image, or the index of a sorted picker.
pub open spec fn index_of_picker(pre: PickerModel, g: Map<u8, GroupModel>) -> nat {
    match pre.sorting {
        SortingModel::Random(q) => q.current,
        SortingModel::GroupedRandom { group, .. } => g[group].index,
        SortingModel::Ascending(i) => i,
        SortingModel::Descending(i) => i,
    }
}

/// The groups once a picker with the sorting `s` has left its group, if it
/// had one.
pub open spec fn release_sorting(s: SortingModel, g: Map<u8, GroupModel>) -> Map<u8, GroupModel> {
    match s {
        SortingModel::GroupedRandom { surface, group } => released(g, group, surface),
        _ => g,
    }
}

/// The groups after the picker `pre` left its group, if it had one.
pub open spec fn after_release(pre: PickerModel, g: Map<u8, GroupModel>) -> Map<u8, GroupModel> {
    release_sorting(pre.sorting, g)
}

/// The picker and the groups after its history was resized to hold `n`
/// images.
pub open spec fn after_queue_resize(pre: PickerModel, g: Map<u8, GroupModel>, n: nat) -> (
    PickerModel,
    Map<u8, GroupModel>,
) {
    match pre.sorting {
        SortingModel::Random(q) => (pre.with_sorting(SortingModel::Random(q.after_resize(n))), g),
        SortingModel::GroupedRandom { group, .. } => (
            pre,
            g.insert(group, GroupModel { queue: g[group].queue.after_resize(n), ..g[group] }),
        ),
        _ => (pre, g),
    }
}

/// What asking for an image from `path` gives, whether the path is a
/// directory or not.
pub open spec fn outcome_of_path(
    pre: PickerModel,
    g: Map<u8, GroupModel>,
    path: Seq<char>,
    files: Seq<Seq<char>>,
    post: PickerModel,
    g2: Map<u8, GroupModel>,
    r: Option<(Seq<char>, nat)>,
) -> bool {
    path_outcome(pre, g, path, true, files, post, g2, r) || path_outcome(pre, g, path, false, files, post, g2, r)
}

/// The picker moved forward from `path`: the pick of an image with the
/// action `Next`, whatever it gave.
pub open spec fn advanced(
    pre: PickerModel,
    g: Map<u8, GroupModel>,
    path: Seq<char>,
    files: Seq<Seq<char>>,
    post: PickerModel,
    g2: Map<u8, GroupModel>,
) -> bool {
    exists|r: Option<(Seq<char>, nat)>|
        #[trigger] outcome_of_path(pre.with_action(Some(ImagePickerAction::Next)), g, path, files, post, g2, r)
}

impl ImagePicker {
    /// Record that `img_path`, at position `index` among the files, is now
    /// on screen.
    pub fn update_current_image(&mut self, img_path: String, index: usize, groups: &mut WallpaperGroups)
        requires
            old(self).wf(),
            old(self).groups_ok(old(groups)),
        ensures
            final(self).wf(),
            final(self).groups_ok(final(groups)),
            (final(self)@, final(groups)@) == after_update(old(self)@, old(groups)@, img_path@, index as nat),
    {
        let next = match self.action {
            Some(ImagePickerAction::Next) => true,
            _ => false,
        };
        self.action = None;
        match &mut self.sorting {
            ImagePickerSorting::Random(queue) => {
                if next {
                    queue.push(img_path.clone());
                }
            },
            ImagePickerSorting::GroupedRandom(grouped) => {
                let mut g = groups.take(grouped.group);
                if next {
                    g.queue.push(img_path.clone());
                }
                g.loading_image = None;
                g.current_image = img_path.clone();
                g.index = index;
                groups.put(g);
            },
            ImagePickerSorting::Ascending(current_index) => {
                *current_index = index;
            },
            ImagePickerSorting::Descending(current_index) => {
                *current_index = index;
            },
        }
        self.current_img = img_path;
        proof {
            let (p2, g2) = after_update(old(self)@, old(groups)@, img_path@, index as nat);
            assert(final(groups)@ =~= g2);
        }
    }

    /// Go back to the previous image at the next pick.
    pub fn previous_image(&mut self)
        ensures
            final(self)@ == (PickerModel { action: Some(ImagePickerAction::Previous), ..old(self)@ }),
            final(self).wf() == old(self).wf(),
    {
        self.action = Some(ImagePickerAction::Previous);
    }

    /// Move forward to the next image: the pick is made now, from `path`.
    pub fn next_image(&mut self, path: &String, cache: &FilelistCache, groups: &mut WallpaperGroups)
        requires
            old(self).wf(),
            old(self).groups_ok(old(groups)),
            cache.wf(),
            cache.has_path(path@),
        ensures
            final(self).wf(),
            final(self).groups_ok(final(groups)),
            advanced(old(self)@, old(groups)@, path@, cache.files_of(path@), final(self)@, final(groups)@),
    {
        self.action = Some(ImagePickerAction::Next);
        let r = self.get_image_from_path(path, cache, groups);
        proof {
            let w = found_view(r);
            assert(outcome_of_path(
                old(self)@.with_action(Some(ImagePickerAction::Next)),
                old(groups)@,
                path@,
                cache.files_of(path@),
                final(self)@,
                final(groups)@,
                w,
            ));
        }
    }

    /// The image on screen.
    pub fn current_image(&self) -> (p: String)
        ensures
            p@ == self@.current_img,
    {
        self.current_img.clone()
    }

    /// The position of the picker: the cursor of a random history, the index
    /// of the group's image, or the index of a sorted picker.
    fn get_current_index(&self, groups: &WallpaperGroups) -> (i: usize)
        requires
            self.groups_ok(groups),
        ensures
            i == index_of_picker(self@, groups@),
    {
        match &self.sorting {
            ImagePickerSorting::Random(queue) => queue.current_index(),
            ImagePickerSorting::GroupedRandom(grouped) => groups.index_of(grouped.group),
            ImagePickerSorting::Ascending(index) => *index,
            ImagePickerSorting::Descending(index) => *index,
        }
    }

    /// Resize the history to the size configured in `info`.
    pub fn update_queue_size(&mut self, info: &WallpaperInfo, cache: &FilelistCache, groups: &mut WallpaperGroups)
        requires
            old(self).wf(),
            old(self).groups_ok(old(groups)),
            cache.wf(),
            cache.has_path(info@.path),
        ensures
            final(self).wf(),
            final(self).groups_ok(final(groups)),
            (final(self)@, final(groups)@) == after_queue_resize(old(self)@, old(groups)@, queue_size_of(info@)),
    {
        let queue_size = queue_size_for(info, cache);
        match &mut self.sorting {
            ImagePickerSorting::Random(queue) => {
                queue.resize(queue_size);
            },
            ImagePickerSorting::GroupedRandom(grouped) => {
                let mut g = groups.take(grouped.group);
                g.queue.resize(queue_size);
                groups.put(g);
            },
            _ => {},
        }
        proof {
            let (p2, g2) = after_queue_resize(old(self)@, old(groups)@, queue_size as nat);
            assert(final(groups)@ =~= g2);
        }
    }

    /// Ask for the image on screen to be shown again, even when the pick
    /// does not change it.
    pub fn reload(&mut self)
        ensures
            final(self)@ == (PickerModel { reload: true, ..old(self)@ }),
            final(self).wf() == old(self).wf(),
    {
        self.reload = true;
    }

    /// The reload was done.
    pub fn reloaded(&mut self)
        ensures
            final(self)@ == (PickerModel { reload: false, ..old(self)@ }),
            final(self).wf() == old(self).wf(),
    {
        self.reload = false;
    }

    /// Whether a reload is pending.
    pub fn is_reloading(&self) -> (b: bool)
        ensures
            b == self@.reload,
    {
        self.reload
    }

    /// The displays that show the same wallpaper as this one and must be
    /// drawn again with it: those of its group, none for a picker without a
    /// group.
    pub fn handle_grouped_sorting(&self, groups: &WallpaperGroups) -> (surfaces: Vec<String>)
        requires
            self.groups_ok(groups),
        ensures
            views(surfaces@) == match self@.sorting {
                SortingModel::GroupedRandom { group, .. } => groups@[group].surfaces,
                _ => Seq::<Seq<char>>::empty(),
            },
    {
        match &self.sorting {
            ImagePickerSorting::GroupedRandom(grouped) => groups.surfaces_of(grouped.group),
            _ => {
                let v: Vec<String> = Vec::new();
                assert(views(v@) =~= Seq::<Seq<char>>::empty());
                v
            },
        }
    }

    /// The display of this picker goes away: it leaves its group.
    pub fn release(self, groups: &mut WallpaperGroups)
        requires
            self.groups_ok(old(groups)),
        ensures
            final(groups).wf(),
            final(groups)@ == after_release(self@, old(groups)@),
    {
        if let ImagePickerSorting::GroupedRandom(grouped) = &self.sorting {
            groups.remove(grouped.group, &grouped.surface);
        }
    }
}


/// Whether the sorting state `s` already is of the kind `n`, for the kinds
/// that keep their state when the path stays.
pub open spec fn same_kind(s: SortingModel, n: Sorting) -> bool {
    ||| (s is Ascending && n == Sorting::Ascending)
    ||| (s is Descending && n == Sorting::Descending)
    ||| (s is Random && n == Sorting::Random)
}

/// The sorting state and the groups after the settings of display `surface`
/// changed to `info`, whose path holds `files_len` images; `path_changed`
/// tells whether the path is another one.
///
/// A state of the same kind on the same path stays, and so does a group
/// that stays the same on the same path. Otherwise the picker leaves its
/// group, if any, and starts over: a sorted picker at the first or last
/// image of a new path, or where it was; a random one with an empty history
/// on a new path, or with the image on screen as the first entry; a grouped
/// one joins its group, and, when it is the only display there and the path
/// is the same, gives the group the image on screen.
pub open spec fn after_update_sorting(
    pre: PickerModel,
    g: Map<u8, GroupModel>,
    info: WallpaperInfoModel,
    files_len: nat,
    surface: Seq<char>,
    path_changed: bool,
) -> (SortingModel, Map<u8, GroupModel>) {
    let qs = queue_size_of(info);
    let idx = index_of_picker(pre, g);
    let rel = release_sorting(pre.sorting, g);
    match info.sorting {
        None => (SortingModel::Random(empty_queue(qs)), rel),
        Some(n) => if same_kind(pre.sorting, n) && !path_changed {
            (pre.sorting, g)
        } else {
            match n {
                Sorting::Ascending => (
                    SortingModel::Ascending(
                        if path_changed {
                            (files_len - 1) as nat
                        } else {
                            idx
                        },
                    ),
                    rel,
                ),
                Sorting::Descending => (
                    SortingModel::Descending(
                        if path_changed {
                            0
                        } else {
                            idx
                        },
                    ),
                    rel,
                ),
                Sorting::Random => (
                    SortingModel::Random(
                        if path_changed {
                            empty_queue(qs)
                        } else {
                            empty_queue(qs).after_push(pre.current_img)
                        },
                    ),
                    rel,
                ),
                Sorting::GroupedRandom { group } => if !path_changed && (pre.sorting matches SortingModel::GroupedRandom {
                    group: old_group,
                    ..
                } && old_group == group) {
                    (pre.sorting, g)
                } else {
                    let j = joined(rel, group, surface, qs);
                    (
                        SortingModel::GroupedRandom { surface, group },
                        if !path_changed && j[group].surfaces.len() == 1 {
                            j.insert(
                                group,
                                GroupModel {
                                    current_image: pre.current_img,
                                    index: idx,
                                    queue: j[group].queue.after_push(pre.current_img),
                                    ..j[group]
                                },
                            )
                        } else {
                            j
                        },
                    )
                },
            }
        },
    }
}

/// After the path changes to a folder sorted by name, the first pick starts
/// over in the new folder, whatever position the old folder had reached:
/// going forward in an ascending sorting it is the first file, and in a
/// descending sorting the last one, when the image on screen is not in the
/// new folder; when it is there, the pick is the file next to it.
pub proof fn lemma_path_change_restarts_sorted(
    pre: PickerModel,
    g: Map<u8, GroupModel>,
    info: WallpaperInfoModel,
    files: Seq<Seq<char>>,
    surface: Seq<char>,
)
    requires
        files.len() > 0,
        files.no_duplicates(),
        info.sorting == Some(Sorting::Ascending) || info.sorting == Some(Sorting::Descending),
    ensures
        info.sorting == Some(Sorting::Ascending) ==> (after_update_sorting(pre, g, info, files.len(), surface, true).0 matches SortingModel::Ascending(k) && {
            &&& !files.contains(pre.current_img) ==> sorted_forward_index(files, k, pre.current_img) == 0
            &&& forall|j: int| 0 <= j < files.len() && files[j] == pre.current_img ==> sorted_forward_index(files, k, pre.current_img) == (j + 1) % (files.len() as int)
        }),
        info.sorting == Some(Sorting::Descending) ==> (after_update_sorting(pre, g, info, files.len(), surface, true).0 matches SortingModel::Descending(k) && {
            &&& !files.contains(pre.current_img) ==> sorted_back_index(files, k, pre.current_img) == files.len() - 1
            &&& forall|j: int| 0 <= j < files.len() && files[j] == pre.current_img ==> sorted_back_index(files, k, pre.current_img) == if j == 0 {
                files.len() - 1
            } else {
                j - 1
            }
        }),
{
    let cur = pre.current_img;
    let n = files.len();
    if info.sorting == Some(Sorting::Ascending) {
        let k = (n - 1) as nat;
        assert(after_update_sorting(pre, g, info, n, surface, true).0 == SortingModel::Ascending(k));
        assert forall|j: int| 0 <= j < files.len() && files[j] == cur implies sorted_forward_index(files, k, cur) == (j + 1) % (files.len() as int) by {
            lemma_sorted_steps_find_image(files, k, cur, j);
        }
        if !files.contains(cur) {
            assert(!(k < n && files[k as int] == cur));
            assert(sorted_base(files, k, cur) == k);
            assert((k + 1) as int % (n as int) == 0) by (nonlinear_arith)
                requires
                    k + 1 == n,
                    n > 0,
            ;
        }
    } else {
        let k = 0nat;
        assert(after_update_sorting(pre, g, info, n, surface, true).0 == SortingModel::Descending(k));
        assert forall|j: int| 0 <= j < files.len() && files[j] == cur implies sorted_back_index(files, k, cur) == if j == 0 {
            files.len() - 1
        } else {
            j - 1
        } by {
            lemma_sorted_steps_find_image(files, k, cur, j);
        }
        if !files.contains(cur) {
            assert(!(k < n && files[k as int] == cur));
            assert(sorted_base(files, k, cur) == 0);
        }
    }
}

/// Leave the group of the sorting state `sorting`, if it has one.
fn leave_group(sorting: &ImagePickerSorting, groups: &mut WallpaperGroups)
    requires
        old(groups).wf(),
        sorting_view(*sorting) matches SortingModel::GroupedRandom { group, .. } ==> old(
            groups,
        )@.contains_key(group),
    ensures
        final(groups).wf(),
        final(groups)@ == release_sorting(sorting_view(*sorting), old(groups)@),
{
    if let ImagePickerSorting::GroupedRandom(grouped) = sorting {
        groups.remove(grouped.group, &grouped.surface);
    }
}

impl ImagePicker {
    /// Follow a change of the settings of display `surface` to `info`;
    /// `path_changed` tells whether the path is another one.
    ///
    /// A display that moves to a new grouped random sorting leaves its old
    /// group before it joins the new one. When the path changed and the group
    /// stays the same, the display therefore is still a member of its group
    /// afterwards; joining first and leaving afterwards would take it out of
    /// the group it has just joined.
    pub fn update_sorting(
        &mut self,
        info: &WallpaperInfo,
        surface: &String,
        path_changed: bool,
        cache: &FilelistCache,
        groups: &mut WallpaperGroups,
    )
        requires
            old(self).wf(),
            old(self).groups_ok(old(groups)),
            cache.wf(),
            cache.has_path(info@.path),
            path_changed && info@.sorting == Some(Sorting::Ascending) ==> cache.files_of(info@.path).len() > 0,
        ensures
            final(self).wf(),
            final(self).groups_ok(final(groups)),
            final(self)@ == old(self)@.with_sorting(final(self)@.sorting),
            (final(self)@.sorting, final(groups)@) == after_update_sorting(
                old(self)@,
                old(groups)@,
                info@,
                cache.files_of(info@.path).len(),
                surface@,
                path_changed,
            ),
    {
        proof {
            self.lemma_wf();
        }
        let idx = self.get_current_index(groups);
        let new_sorting = match info.sorting {
            None => ImagePickerSorting::Random(Queue::with_capacity(queue_size_for(info, cache))),
            Some(n) => {
                let same = match (&self.sorting, n) {
                    (ImagePickerSorting::Ascending(_), Sorting::Ascending) => true,
                    (ImagePickerSorting::Descending(_), Sorting::Descending) => true,
                    (ImagePickerSorting::Random(_), Sorting::Random) => true,
                    _ => false,
                };
                if same && !path_changed {
                    return ;
                }
                match n {
                    Sorting::Ascending => {
                        if path_changed {
                            ImagePickerSorting::Ascending(cache.get(&info.path).len() - 1)
                        } else {
                            ImagePickerSorting::Ascending(idx)
                        }
                    },
                    Sorting::Descending => {
                        if path_changed {
                            ImagePickerSorting::Descending(0)
                        } else {
                            ImagePickerSorting::Descending(idx)
                        }
                    },
                    Sorting::Random => {
                        // On the same path, the image on screen is the first
                        // entry of the new history.
                        let mut queue = Queue::with_capacity(queue_size_for(info, cache));
                        if !path_changed {
                            queue.push(self.current_img.clone());
                        }
                        ImagePickerSorting::Random(queue)
                    },
                    Sorting::GroupedRandom { group } => {
                        let same_group = match &self.sorting {
                            ImagePickerSorting::GroupedRandom(grouped) => grouped.group == group,
                            _ => false,
                        };
                        if !path_changed && same_group {
                            return ;
                        }
                        let qs = queue_size_for(info, cache);
                        leave_group(&self.sorting, groups);
                        let ghost rel = groups@;
                        groups.get_or_insert(group, surface, qs);
                        let ghost j = groups@;
                        // The only display of the group keeps showing its
                        // image, which becomes the group's.
                        if !path_changed && groups.surface_count(group) == 1 {
                            let mut g = groups.take(group);
                            g.current_image = self.current_img.clone();
                            g.index = idx;
                            g.queue.push(self.current_img.clone());
                            let ghost gm = g@;
                            groups.put(g);
                            proof {
                                assert(groups@ =~= j.insert(group, gm));
                            }
                        }
                        self.sorting = ImagePickerSorting::GroupedRandom(
                            GroupedRandom { surface: surface.clone(), group },
                        );
                        return ;
                    },
                }
            },
        };
        leave_group(&self.sorting, groups);
        self.sorting = new_sorting;
    }
}


/// In a list of files sorted by name, stepping back from the image on screen
/// and then forward again comes back to it, and so does stepping forward and
/// then back.
pub proof fn lemma_sorted_back_then_forward(files: Seq<Seq<char>>, idx: nat)
    requires
        idx < files.len(),
    ensures
        ({
            let b = sorted_back_index(files, idx, files[idx as int]);
            b < files.len() && sorted_forward_index(files, b, files[b as int]) == idx
        }),
        ({
            let f = sorted_forward_index(files, idx, files[idx as int]);
            f < files.len() && sorted_back_index(files, f, files[f as int]) == idx
        }),
{
    let len = files.len() as int;
    let b = sorted_back_index(files, idx, files[idx as int]);
    assert(sorted_base(files, idx, files[idx as int]) == idx);
    assert(sorted_base(files, b, files[b as int]) == b);
    if idx == 0 {
        assert(b == len - 1);
        vstd::arithmetic::div_mod::lemma_mod_self_0(len);
    } else {
        vstd::arithmetic::div_mod::lemma_small_mod(idx, len as nat);
    }
    let f = sorted_forward_index(files, idx, files[idx as int]);
    if idx + 1 == len {
        vstd::arithmetic::div_mod::lemma_mod_self_0(len);
        assert(f == 0);
    } else {
        vstd::arithmetic::div_mod::lemma_small_mod((idx + 1) as nat, len as nat);
        assert(f == idx + 1);
    }
    assert(sorted_base(files, f, files[f as int]) == f);
}

/// A pick made past the newest image of the history, while some file has
/// not been shown in the current cycle, is such a file; and when the cursor
/// is on the newest image, that image belongs to the cycle, and the history
/// has room, recording the pick adds it to the cycle and puts the cursor on
/// it: no image comes twice in a cycle.
pub proof fn lemma_fresh_pick_extends_cycle(
    cur: Seq<char>,
    q: QueueModel,
    files: Seq<Seq<char>>,
    q2: QueueModel,
    r: (nat, Seq<char>),
)
    requires
        q.wf(),
        files.len() > 1,
        has_unseen(q, files),
        fresh_pick(cur, q, files, q2, r),
        q.items.len() > 0 ==> q.current + 1 == q.items.len() && q.cycle().contains(q.current_item()),
        q.in_cycle < q.items.len() || !q.is_full(),
    ensures
        !q.cycle().contains(r.1),
        q2.after_push(r.1).cycle() == q.cycle().push(r.1),
        q2.after_push(r.1).current_item() == r.1,
        q2.after_push(r.1).wf(),
{
    let p = r.1;
    let items = q.items;
    let len = items.len();
    let c = q.in_cycle;
    assert(q2 == q);
    let n = q.after_push(p);
    crate::queue::lemma_push_shows_image(q, p);
    if len > 0 {
        assert(q.current_item() != p);
    }
    if items.contains(p) {
        let i = items.index_of(p);
        assert(items[i] == p);
        if i >= len - c {
            assert(q.cycle()[i - (len - c)] == p);
        }
        assert(i < len - c);
        assert(n.items == items.remove(i).push(p));
        assert(n.in_cycle == c + 1);
        assert(n.cycle() =~= q.cycle().push(p)) by {
            assert forall|k: int| 0 <= k < c + 1 implies #[trigger] n.cycle()[k] == q.cycle().push(p)[k] by {
                if k < c {
                    assert(n.cycle()[k] == n.items[len - c - 1 + k]);
                    assert(n.items[len - c - 1 + k] == items.remove(i)[len - c - 1 + k]);
                    assert(items.remove(i)[len - c - 1 + k] == items[len - c + k]);
                }
            }
        }
        assert(n.current_item() == p);
    } else if len == q.size {
        assert(c < len);
        assert(n.items == items.subrange(1, len as int).push(p));
        assert(n.in_cycle == c + 1);
        assert(n.cycle() =~= q.cycle().push(p)) by {
            assert forall|k: int| 0 <= k < c + 1 implies #[trigger] n.cycle()[k] == q.cycle().push(p)[k] by {
                if k < c {
                    assert(n.cycle()[k] == n.items[len - c - 1 + k]);
                    assert(n.items[len - c - 1 + k] == items[len - c + k]);
                }
            }
        }
        assert(n.items[len - 1] == p);
    } else {
        assert(n.items == items.push(p));
        assert(n.cycle() =~= q.cycle().push(p)) by {
            assert forall|k: int| 0 <= k < c + 1 implies #[trigger] n.cycle()[k] == q.cycle().push(p)[k] by {
                if k < c {
                    assert(n.cycle()[k] == n.items[len - c + k]);
                }
            }
        }
    }
}


/// The displays of a group share their wallpaper: once a display showing the
/// group's image picks forward, any display of the same group that picks
/// next gets the same image.
pub proof fn lemma_group_shares_pick(
    pre1: PickerModel,
    pre2: PickerModel,
    g: Map<u8, GroupModel>,
    files1: Seq<Seq<char>>,
    files2: Seq<Seq<char>>,
    post1: PickerModel,
    g1: Map<u8, GroupModel>,
    r1: (nat, Seq<char>),
    post2: PickerModel,
    g2: Map<u8, GroupModel>,
    r2: (nat, Seq<char>),
)
    requires
        pre1.sorting matches SortingModel::GroupedRandom { group, .. } && pre2.sorting matches SortingModel::GroupedRandom {
            group: group2,
            ..
        } && group == group2 && g.contains_key(group) && g[group].loading_image is None
            && g[group].current_image == pre1.current_img,
        pre1.action == Some(ImagePickerAction::Next),
        picked(pre1, g, files1, post1, g1, r1),
        picked(pre2, g1, files2, post2, g2, r2),
    ensures
        r2 == r1,
        g1[pre1.sorting->group].loading_image == Some(r1),
{
}

/// Once an image is on screen, a pick with no pending action keeps it, as
/// long as it exists, and changes nothing.
pub proof fn lemma_settled_pick(
    pre: PickerModel,
    g: Map<u8, GroupModel>,
    img: Seq<char>,
    index: nat,
    files: Seq<Seq<char>>,
    post: PickerModel,
    g2: Map<u8, GroupModel>,
    r: (nat, Seq<char>),
)
    requires
        pre.sorting matches SortingModel::GroupedRandom { group, .. } ==> g.contains_key(group),
        pick_outcome(after_update(pre, g, img, index).0, after_update(pre, g, img, index).1, files, true, post, g2, r),
    ensures
        r.1 == img,
        post == after_update(pre, g, img, index).0,
        g2 == after_update(pre, g, img, index).1,
{
}


/// Moving a picker forward keeps the set of groups: at most the picker's
/// own group changes.
pub proof fn lemma_advanced_keeps_groups(
    pre: PickerModel,
    g: Map<u8, GroupModel>,
    path: Seq<char>,
    files: Seq<Seq<char>>,
    post: PickerModel,
    g2: Map<u8, GroupModel>,
)
    requires
        pre.sorting matches SortingModel::GroupedRandom { group, .. } ==> g.contains_key(group),
        advanced(pre, g, path, files, post, g2),
    ensures
        g2.dom() == g.dom(),
{
    let r = choose|r: Option<(Seq<char>, nat)>|
        #[trigger] outcome_of_path(pre.with_action(Some(ImagePickerAction::Next)), g, path, files, post, g2, r);
    let p = pre.with_action(Some(ImagePickerAction::Next));
    if path_outcome(p, g, path, true, files, post, g2, r) {
        if !(files.len() == 0 || (files.len() > 1 && !has_other(files, p.current_img))) {
            let pick = choose|pick: (nat, Seq<char>)| #[trigger] picked(p, g, files, post, g2, pick);
            assert(picked(p, g, files, post, g2, pick));
            if let SortingModel::GroupedRandom { group, .. } = p.sorting {
                assert(g2 == g || g2 == g.insert(group, g2[group]));
            }
        }
    }
    assert(g2.dom() =~= g.dom());
}


/// A new cycle starts only once every file has been shown in the current
/// one, and its first pick is not the image on screen.
pub proof fn lemma_new_cycle_after_all_shown(
    cur: Seq<char>,
    q: QueueModel,
    files: Seq<Seq<char>>,
    q2: QueueModel,
    r: (nat, Seq<char>),
)
    requires
        files.len() > 1,
        fresh_pick(cur, q, files, q2, r),
        q.in_cycle > 0,
        q2.in_cycle == 0,
    ensures
        forall|i: int| 0 <= i < files.len() ==> q.cycle().contains(#[trigger] files[i]),
        r.1 != cur,
        files.contains(r.1),
{
    assert(!has_unseen(q, files));
    assert(files[r.0 as int] == r.1);
}

/// The images of a run of picks.
pub open spec fn picked_images(picks: Seq<(nat, Seq<char>)>) -> Seq<Seq<char>> {
    picks.map_values(|x: (nat, Seq<char>)| x.1)
}

/// `picks` are random picks from `files` made one after another, each
/// recorded in the history before the next: `qs[k]` is the history before
/// pick `k`, `mids[k]` the history the pick leaves, and `qs[k + 1]` the
/// history once the picked image is recorded. The first pick is made with
/// `cur` on screen, each later one with the image picked before it.
pub open spec fn random_run(
    cur: Seq<char>,
    files: Seq<Seq<char>>,
    qs: Seq<QueueModel>,
    mids: Seq<QueueModel>,
    picks: Seq<(nat, Seq<char>)>,
) -> bool {
    &&& qs.len() == picks.len() + 1
    &&& mids.len() == picks.len()
    &&& forall|k: int|
        0 <= k < picks.len() ==> {
            &&& random_pick(
                if k == 0 {
                    cur
                } else {
                    picks[k - 1].1
                },
                qs[k],
                files,
                mids[k],
                #[trigger] picks[k],
            )
            &&& qs[k + 1] == mids[k].after_push(picks[k].1)
        }
}

/// Position `a` lies in block `j` of `n` consecutive picks.
pub open spec fn in_block(j: int, a: int, n: int) -> bool {
    0 <= j && j * n <= a < j * n + n
}

/// The images of block `j` of `n` consecutive picks.
pub open spec fn block_images(picks: Seq<(nat, Seq<char>)>, j: int, n: int) -> Seq<Seq<char>> {
    picked_images(picks).subrange(j * n, j * n + n)
}

/// A position lies in one block only.
proof fn lemma_one_block(j: int, m: int, n: int, a: int)
    requires
        n > 0,
        in_block(j, a, n),
        in_block(m, a, n),
    ensures
        j == m,
{
    if j < m {
        assert(j * n + n <= m * n) by (nonlinear_arith)
            requires
                j + 1 <= m,
                n > 0,
        ;
    }
    if m < j {
        assert(m * n + n <= j * n) by (nonlinear_arith)
            requires
                m + 1 <= j,
                n > 0,
        ;
    }
}

/// A sequence without repeats whose items are all files is shorter than the
/// files and misses one of them, or holds them all.
proof fn lemma_cycle_within_files(c: Seq<Seq<char>>, files: Seq<Seq<char>>)
    requires
        c.no_duplicates(),
        files.no_duplicates(),
        forall|x: Seq<char>| c.contains(x) ==> files.contains(x),
    ensures
        c.len() <= files.len(),
        c.len() < files.len() ==> exists|i: int| 0 <= i < files.len() && !c.contains(files[i]),
        c.len() == files.len() ==> forall|i: int| 0 <= i < files.len() ==> c.contains(#[trigger] files[i]),
{
    broadcast use vstd::seq_lib::seq_to_set_is_finite;

    c.unique_seq_to_set();
    files.unique_seq_to_set();
    let cs = c.to_set();
    let fs = files.to_set();
    assert(cs.subset_of(fs));
    vstd::set_lib::lemma_len_subset(cs, fs);
    if c.len() == files.len() {
        vstd::set_lib::lemma_subset_equality(cs, fs);
        assert forall|i: int| 0 <= i < files.len() implies c.contains(#[trigger] files[i]) by {
            assert(fs.contains(files[i]));
        }
    }
    if c.len() < files.len() {
        if forall|i: int| 0 <= i < files.len() ==> c.contains(#[trigger] files[i]) {
            assert(fs.subset_of(cs));
            vstd::set_lib::lemma_len_subset(fs, cs);
        }
    }
}

/// The current cycle of a history repeats no image.
proof fn lemma_cycle_no_duplicates(q: QueueModel)
    requires
        q.wf(),
    ensures
        q.cycle().no_duplicates(),
{
    let c = q.cycle();
    assert forall|a: int, b: int| 0 <= a < b < c.len() implies c[a] != c[b] by {
        let len = q.items.len() - q.in_cycle;
        assert(c[a] == q.items[len + a] && c[b] == q.items[len + b]);
    }
}

/// The facts about a history that a run keeps between picks.
pub open spec fn run_history(q: QueueModel, files: Seq<Seq<char>>, last: Seq<char>) -> bool {
    &&& q.wf()
    &&& q.size >= files.len()
    &&& q.items.len() > 0
    &&& q.current + 1 == q.items.len()
    &&& q.current_item() == last
    &&& q.cycle().contains(last)
    &&& forall|x: Seq<char>| q.cycle().contains(x) ==> files.contains(x)
}

/// A pick while some file is not in the current cycle extends the cycle.
proof fn lemma_step_in_cycle(
    prev: Seq<char>,
    q: QueueModel,
    files: Seq<Seq<char>>,
    mid: QueueModel,
    r: (nat, Seq<char>),
)
    requires
        files.len() > 1,
        files.no_duplicates(),
        run_history(q, files, prev),
        q.cycle().len() < files.len(),
        random_pick(prev, q, files, mid, r),
    ensures
        run_history(mid.after_push(r.1), files, r.1),
        mid.after_push(r.1).size == q.size,
        mid.after_push(r.1).cycle() == q.cycle().push(r.1),
        !q.cycle().contains(r.1),
{
    let c = q.cycle();
    assert(walked_to_end(q) == q);
    lemma_cycle_no_duplicates(q);
    lemma_cycle_within_files(c, files);
    assert(has_unseen(q, files));
    lemma_fresh_pick_extends_cycle(prev, q, files, mid, r);
    let qk = mid.after_push(r.1);
    assert(qk.cycle()[qk.cycle().len() - 1] == r.1);
    assert(files[r.0 as int] == r.1);
    assert(qk.cycle().contains(r.1));
    assert forall|x: Seq<char>| qk.cycle().contains(x) implies files.contains(x) by {
        if x != r.1 {
            let a = choose|a: int| 0 <= a < qk.cycle().len() && qk.cycle()[a] == x;
            assert(c[a] == x);
        }
    }
}

/// A pick once every file is in the current cycle starts a new cycle that
/// holds the pick alone.
proof fn lemma_step_new_cycle(
    prev: Seq<char>,
    q: QueueModel,
    files: Seq<Seq<char>>,
    mid: QueueModel,
    r: (nat, Seq<char>),
)
    requires
        files.len() > 1,
        files.no_duplicates(),
        run_history(q, files, prev),
        q.cycle().len() == files.len(),
        random_pick(prev, q, files, mid, r),
    ensures
        run_history(mid.after_push(r.1), files, r.1),
        mid.after_push(r.1).size == q.size,
        mid.after_push(r.1).cycle() == seq![r.1],
        r.1 != prev,
{
    let c = q.cycle();
    let p = r.1;
    assert(walked_to_end(q) == q);
    lemma_cycle_no_duplicates(q);
    lemma_cycle_within_files(c, files);
    assert(!has_unseen(q, files));
    assert(files[r.0 as int] == p);
    assert(c.contains(p));
    assert(q.items.contains(p)) by {
        let a = choose|a: int| 0 <= a < c.len() && c[a] == p;
        assert(q.items[q.items.len() - q.in_cycle + a] == p);
    }
    crate::queue::lemma_push_shows_image(mid, p);
    let qk = mid.after_push(p);
    assert(mid.current_item() == prev);
    assert(qk.in_cycle == 1);
    assert(qk.items[qk.items.len() - 1] == p);
    assert(qk.cycle() =~= seq![p]);
    assert(qk.cycle()[0] == p);
}

/// A full current cycle holds every file.
proof fn lemma_full_cycle_covers(q: QueueModel, files: Seq<Seq<char>>, last: Seq<char>)
    requires
        files.no_duplicates(),
        run_history(q, files, last),
        q.cycle().len() == files.len(),
    ensures
        forall|i: int| 0 <= i < files.len() ==> q.cycle().contains(#[trigger] files[i]),
{
    lemma_cycle_no_duplicates(q);
    lemma_cycle_within_files(q.cycle(), files);
}

/// Of the first `k` picks, every one is a file, none is the one before it,
/// no block of as many picks as there are files repeats a file, and every
/// complete block holds all files.
#[verifier::opaque]
pub open spec fn run_so_far(files: Seq<Seq<char>>, picks: Seq<(nat, Seq<char>)>, k: int) -> bool {
    let n = files.len() as int;
    &&& forall|a: int| 0 <= a < k ==> files.contains(#[trigger] picks[a].1)
    &&& forall|a: int| 1 <= a < k ==> #[trigger] picks[a].1 != picks[a - 1].1
    &&& forall|j: int, a: int, b: int|
        #![trigger in_block(j, a, n), in_block(j, b, n)]
        in_block(j, a, n) && in_block(j, b, n) && a < b < k ==> picks[a].1 != picks[b].1
    &&& forall|j: int, i: int|
        0 <= j && j * n + n <= k && 0 <= i < n ==> #[trigger] block_images(picks, j, n).contains(
            files[i],
        )
}

/// The first pick of a run, a file, starts the properties of a run.
proof fn lemma_run_so_far_first(files: Seq<Seq<char>>, picks: Seq<(nat, Seq<char>)>)
    requires
        files.len() > 1,
        picks.len() > 0,
        files.contains(picks[0].1),
    ensures
        run_so_far(files, picks, 1),
{
    reveal(run_so_far);
    let n = files.len() as int;
    assert forall|j: int, i: int| 0 <= j && j * n + n <= 1 && 0 <= i < n implies #[trigger] block_images(
        picks,
        j,
        n,
    ).contains(files[i]) by {
        assert(j * n >= 0) by (nonlinear_arith)
            requires
                0 <= j,
                n > 0,
        ;
    }
}

/// A pick `k - 1` that is a file, differs from the pick before it and from
/// the earlier picks of its block `m`, and completes the block with every
/// file when it is the block's last, keeps the properties of a run.
proof fn lemma_run_so_far_step(files: Seq<Seq<char>>, picks: Seq<(nat, Seq<char>)>, k: int, m: int)
    requires
        files.len() > 1,
        2 <= k <= picks.len(),
        run_so_far(files, picks, k - 1),
        files.contains(picks[k - 1].1),
        picks[k - 1].1 != picks[k - 2].1,
        in_block(m, k - 1, files.len() as int),
        forall|a: int| m * files.len() <= a < k - 1 ==> #[trigger] picks[a].1 != picks[k - 1].1,
        k == m * files.len() + files.len() ==> forall|i: int|
            0 <= i < files.len() ==> #[trigger] block_images(picks, m, files.len() as int).contains(
                files[i],
            ),
    ensures
        run_so_far(files, picks, k),
{
    reveal(run_so_far);
    let n = files.len() as int;
    assert forall|j: int, a: int, b: int|
        #![trigger in_block(j, a, n), in_block(j, b, n)]
        in_block(j, a, n) && in_block(j, b, n) && a < b < k implies picks[a].1 != picks[b].1 by {
        if b == k - 1 {
            lemma_one_block(j, m, n, b);
        }
    }
    assert forall|j: int, i: int| 0 <= j && j * n + n <= k && 0 <= i < n implies #[trigger] block_images(
        picks,
        j,
        n,
    ).contains(files[i]) by {
        if j * n + n == k {
            assert(in_block(j, k - 1, n));
            lemma_one_block(j, m, n, k - 1);
        }
    }
}

/// The state after the first `k` picks of a run from a new history: the
/// history holds the current cycle, the picks since block `m` began, with
/// the last pick under the cursor, and the picks so far have the properties
/// of a run.
#[verifier::rlimit(40)]
proof fn lemma_run_prefix(
    cur: Seq<char>,
    files: Seq<Seq<char>>,
    qs: Seq<QueueModel>,
    mids: Seq<QueueModel>,
    picks: Seq<(nat, Seq<char>)>,
    k: int,
) -> (m: int)
    requires
        files.len() > 1,
        files.no_duplicates(),
        qs.len() > 0,
        qs[0].wf(),
        qs[0].items.len() == 0,
        qs[0].size >= files.len(),
        random_run(cur, files, qs, mids, picks),
        1 <= k <= picks.len(),
    ensures
        in_block(m, k - 1, files.len() as int),
        run_history(qs[k], files, picks[k - 1].1),
        qs[k].cycle() == picked_images(picks).subrange(m * files.len(), k),
        run_so_far(files, picks, k),
    decreases k,
{
    let n = files.len() as int;
    let ps = picked_images(picks);
    let q = qs[k - 1];
    let r = picks[k - 1];
    let mid = mids[k - 1];
    let p = r.1;
    assert(ps[k - 1] == p);
    let prev = if k - 1 == 0 {
        cur
    } else {
        picks[k - 2].1
    };
    assert(random_pick(prev, q, files, mid, r));
    let qk = qs[k];
    assert(qk == mid.after_push(p));
    if k == 1 {
        assert(walked_to_end(q) == q);
        assert(q.cycle().len() == 0);
        assert(!q.cycle().contains(files[0]));
        assert(has_unseen(q, files));
        lemma_fresh_pick_extends_cycle(cur, q, files, mid, r);
        assert(qk.items =~= seq![p]);
        assert(qk.cycle() =~= ps.subrange(0, 1));
        assert(files[r.0 as int] == p);
        assert(qk.cycle()[0] == p);
        assert forall|x: Seq<char>| qk.cycle().contains(x) implies files.contains(x) by {
            assert(qk.cycle()[0] == x);
        }
        lemma_run_so_far_first(files, picks);
        assert(0 * n == 0);
        0
    } else {
        let m0 = lemma_run_prefix(cur, files, qs, mids, picks, k - 1);
        assert(prev == picks[k - 2].1);
        let c = q.cycle();
        if k - 1 < m0 * n + n {
            assert(c.len() == k - 1 - m0 * n);
            lemma_step_in_cycle(prev, q, files, mid, r);
            assert(qk.cycle() =~= ps.subrange(m0 * n, k));
            assert(files.contains(p)) by {
                assert(qk.cycle()[qk.cycle().len() - 1] == p);
            }
            assert(c[k - 2 - m0 * n] == prev);
            assert forall|a: int| m0 * n <= a < k - 1 implies #[trigger] picks[a].1 != picks[k - 1].1 by {
                assert(c[a - m0 * n] == ps[a]);
            }
            if k == m0 * n + n {
                lemma_full_cycle_covers(qk, files, p);
                assert(block_images(picks, m0, n) == qk.cycle());
            }
            lemma_run_so_far_step(files, picks, k, m0);
            m0
        } else {
            let m = m0 + 1;
            assert(k - 1 == m * n) by (nonlinear_arith)
                requires
                    k - 1 == m0 * n + n,
                    m == m0 + 1,
            ;
            lemma_step_new_cycle(prev, q, files, mid, r);
            assert(qk.cycle() =~= ps.subrange(m * n, k));
            assert(files.contains(p)) by {
                assert(qk.cycle()[0] == p);
            }
            lemma_run_so_far_step(files, picks, k, m);
            m
        }
    }
}

/// Random picks run in cycles. From a new history with room for every file,
/// picking from files with no repeats and more than one of them, and
/// recording each pick before the next: every pick is a file; no pick is
/// the image picked just before it, not even across the start of a new
/// cycle; and each block of as many consecutive picks as there are files,
/// the first block starting with the first pick, shows each file once.
pub proof fn lemma_random_cycles(
    cur: Seq<char>,
    files: Seq<Seq<char>>,
    qs: Seq<QueueModel>,
    mids: Seq<QueueModel>,
    picks: Seq<(nat, Seq<char>)>,
)
    requires
        files.len() > 1,
        files.no_duplicates(),
        qs.len() > 0,
        qs[0].wf(),
        qs[0].items.len() == 0,
        qs[0].size >= files.len(),
        random_run(cur, files, qs, mids, picks),
    ensures
        forall|a: int| 0 <= a < picks.len() ==> files.contains(#[trigger] picks[a].1),
        forall|a: int| 1 <= a < picks.len() ==> #[trigger] picks[a].1 != picks[a - 1].1,
        forall|j: int, a: int, b: int|
            #![trigger in_block(j, a, files.len() as int), in_block(j, b, files.len() as int)]
            in_block(j, a, files.len() as int) && in_block(j, b, files.len() as int) && a < b
                < picks.len() ==> picks[a].1 != picks[b].1,
        forall|j: int, i: int|
            0 <= j && j * files.len() + files.len() <= picks.len() && 0 <= i < files.len()
                ==> #[trigger] block_images(picks, j, files.len() as int).contains(files[i]),
{
    let n = files.len() as int;
    if picks.len() > 0 {
        lemma_run_prefix(cur, files, qs, mids, picks, picks.len() as int);
        reveal(run_so_far);
    } else {
        assert forall|j: int, i: int| 0 <= j && j * n + n <= picks.len() && 0 <= i < n implies #[trigger] block_images(
            picks,
            j,
            n,
        ).contains(files[i]) by {
            assert(j * n >= 0) by (nonlinear_arith)
                requires
                    0 <= j,
                    n > 0,
            ;
        }
    }
}

} // verus!
