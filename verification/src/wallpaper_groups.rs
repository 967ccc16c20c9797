//! Groups of displays that share the same randomly picked wallpaper.

use std::collections::HashMap;

use vstd::prelude::*;

use crate::queue::{Queue, QueueModel};
use crate::{contains_str, views};

verus! {

broadcast use vstd::std_specs::hash::group_hash_axioms;

/// Abstract value of a [`WallpaperGroup`].
pub struct GroupModel {
    pub group: u8,
    pub index: nat,
    pub current_image: Seq<char>,
    pub loading_image: Option<(nat, Seq<char>)>,
    pub surfaces: Seq<Seq<char>>,
    pub queue: QueueModel,
}

/// The state shared by the displays of a group: the image they show, the
/// image being loaded for them, and the history of the group.
#[derive(Debug)]
pub struct WallpaperGroup {
    pub group: u8,
    pub index: usize,
    pub current_image: String,
    pub loading_image: Option<(usize, String)>,
    /// The names of the displays of the group, each once.
    pub surfaces: Vec<String>,
    pub queue: Queue,
}

/// The abstract value of an optional image with its index.
pub open spec fn loading_view(l: Option<(usize, String)>) -> Option<(nat, Seq<char>)> {
    match l {
        Some((i, p)) => Some((i as nat, p@)),
        None => None,
    }
}

impl View for WallpaperGroup {
    type V = GroupModel;

    open spec fn view(&self) -> GroupModel {
        GroupModel {
            group: self.group,
            index: self.index as nat,
            current_image: self.current_image@,
            loading_image: loading_view(self.loading_image),
            surfaces: views(self.surfaces@),
            queue: self.queue@,
        }
    }
}

impl WallpaperGroup {
    /// The history is well formed and each display is listed once.
    pub open spec fn wf(&self) -> bool {
        &&& self.queue.wf()
        &&& views(self.surfaces@).no_duplicates()
    }

    /// A group with no display yet, nothing shown, and an empty history with
    /// room for `queue_size` images.
    pub fn new(group: u8, queue_size: usize) -> (g: Self)
        requires
            queue_size >= 1,
        ensures
            g.wf(),
            g@.group == group,
            g@.index == 0,
            g@.current_image == Seq::<char>::empty(),
            g@.loading_image is None,
            g@.surfaces == Seq::<Seq<char>>::empty(),
            g@.queue.items == Seq::<Seq<char>>::empty(),
            g@.queue.current == 0,
            g@.queue.size == queue_size,
            g@.queue.in_cycle == 0,
    {
        let g = Self {
            group,
            index: 0,
            current_image: String::new(),
            loading_image: None,
            surfaces: Vec::new(),
            queue: Queue::with_capacity(queue_size),
        };
        assert(views(g.surfaces@) =~= Seq::<Seq<char>>::empty());
        g
    }
}

/// `surfaces` with `s` added when it is not listed yet.
pub open spec fn with_surface(surfaces: Seq<Seq<char>>, s: Seq<char>) -> Seq<Seq<char>> {
    if surfaces.contains(s) {
        surfaces
    } else {
        surfaces.push(s)
    }
}

/// `surfaces` without `s`.
pub open spec fn without_surface(surfaces: Seq<Seq<char>>, s: Seq<char>) -> Seq<Seq<char>> {
    if surfaces.contains(s) {
        surfaces.remove(surfaces.index_of(s))
    } else {
        surfaces
    }
}

/// An empty history with room for `size` images.
pub open spec fn empty_queue(size: nat) -> QueueModel {
    QueueModel { items: Seq::empty(), current: 0, size, in_cycle: 0 }
}

/// The groups after display `surface` joins group `group`, which is created
/// with an empty history of `queue_size` images when it does not exist.
pub open spec fn joined(
    g: Map<u8, GroupModel>,
    group: u8,
    surface: Seq<char>,
    queue_size: nat,
) -> Map<u8, GroupModel> {
    g.insert(
        group,
        if g.contains_key(group) {
            GroupModel { surfaces: with_surface(g[group].surfaces, surface), ..g[group] }
        } else {
            GroupModel {
                group,
                index: 0,
                current_image: Seq::empty(),
                loading_image: None,
                surfaces: seq![surface],
                queue: empty_queue(queue_size),
            }
        },
    )
}

/// The groups after display `surface` leaves group `group`: a group with a
/// single display is dropped, whichever display that is.
pub open spec fn released(g: Map<u8, GroupModel>, group: u8, surface: Seq<char>) -> Map<
    u8,
    GroupModel,
> {
    if g[group].surfaces.len() == 1 {
        g.remove(group)
    } else {
        g.insert(group, GroupModel { surfaces: without_surface(g[group].surfaces, surface), ..g[group] })
    }
}

/// A display that joins a group it is not part of and then leaves it again
/// leaves the groups as they were.
pub proof fn lemma_join_then_release(g: Map<u8, GroupModel>, group: u8, surface: Seq<char>, qs: nat)
    requires
        g.contains_key(group) ==> g[group].surfaces.len() > 0 && g[group].surfaces.no_duplicates()
            && !g[group].surfaces.contains(surface),
    ensures
        released(joined(g, group, surface, qs), group, surface) == g,
{
    let j = joined(g, group, surface, qs);
    if g.contains_key(group) {
        let s = g[group].surfaces;
        let t = s.push(surface);
        assert(j[group].surfaces == t);
        assert(t[s.len() as int] == surface);
        assert(t.contains(surface));
        let i = t.index_of(surface);
        assert(t[i] == surface);
        if i < s.len() {
            assert(s[i] == surface);
            assert(s.contains(surface));
        }
        assert(i == s.len());
        assert(t.remove(i) =~= s);
        assert(released(j, group, surface) =~= g);
    } else {
        assert(j[group].surfaces.len() == 1);
        assert(released(j, group, surface) =~= g);
    }
}

/// The groups of displays, by group number.
pub struct WallpaperGroups {
    groups: HashMap<u8, WallpaperGroup>,
}

impl View for WallpaperGroups {
    type V = Map<u8, GroupModel>;

    closed spec fn view(&self) -> Map<u8, GroupModel> {
        self.groups@.map_values(|g: WallpaperGroup| g@)
    }
}

impl WallpaperGroups {
    /// Every group is well formed and filed under its own number.
    pub closed spec fn wf(&self) -> bool {
        forall|k: u8| #[trigger]
            self.groups@.contains_key(k) ==> self.groups@[k].wf() && self.groups@[k].group == k
    }

    /// The groups are filed under their numbers, with well-formed histories
    /// and each display listed once.
    pub proof fn lemma_wf(&self, k: u8)
        requires
            self.wf(),
            self@.contains_key(k),
        ensures
            self@[k].group == k,
            self@[k].queue.wf(),
            self@[k].surfaces.no_duplicates(),
    {
        self.groups@[k].queue.lemma_wf_model();
    }

    /// No group.
    pub fn new() -> (g: Self)
        ensures
            g.wf(),
            g@ == Map::<u8, GroupModel>::empty(),
    {
        let g = Self { groups: HashMap::new() };
        assert(g@ =~= Map::<u8, GroupModel>::empty());
        g
    }

    /// Take group `group` out, to work on it.
    pub fn take(&mut self, group: u8) -> (g: WallpaperGroup)
        requires
            old(self).wf(),
            old(self)@.contains_key(group),
        ensures
            final(self).wf(),
            g.wf(),
            g.group == group,
            g@ == old(self)@[group],
            final(self)@ == old(self)@.remove(group),
    {
        let g = self.groups.remove(&group).unwrap();
        assert(self@ =~= old(self)@.remove(group));
        g
    }

    /// File group `g` under its number, replacing what was there.
    pub fn put(&mut self, g: WallpaperGroup)
        requires
            old(self).wf(),
            g.wf(),
        ensures
            final(self).wf(),
            final(self)@ == old(self)@.insert(g.group, g@),
    {
        let ghost gv = g@;
        let k = g.group;
        self.groups.insert(k, g);
        assert(self@ =~= old(self)@.insert(k, gv));
    }

    /// Whether group `group` exists.
    pub fn contains(&self, group: u8) -> (b: bool)
        ensures
            b == self@.contains_key(group),
    {
        self.groups.contains_key(&group)
    }

    /// Add display `surface` to group `group`, creating the group with room
    /// for `queue_size` images in its history when it does not exist.
    pub fn get_or_insert(&mut self, group: u8, surface: &String, queue_size: usize)
        requires
            old(self).wf(),
            !old(self)@.contains_key(group) ==> queue_size >= 1,
        ensures
            final(self).wf(),
            final(self)@.contains_key(group),
            final(self)@ == joined(old(self)@, group, surface@, queue_size as nat),
    {
        let mut g = if self.contains(group) {
            self.take(group)
        } else {
            WallpaperGroup::new(group, queue_size)
        };
        let ghost before = g@;
        if !contains_str(&g.surfaces, surface) {
            let ghost sv = g.surfaces@;
            let c = surface.clone();
            g.surfaces.push(c);
            proof {
                crate::lemma_views_push(sv, c);
                assert forall|a: int, b: int|
                    0 <= a < views(g.surfaces@).len() && 0 <= b < views(g.surfaces@).len() && a != b
                    implies views(g.surfaces@)[a] != views(g.surfaces@)[b] by {
                    if a < sv.len() && b < sv.len() {
                        assert(views(g.surfaces@)[a] == views(sv)[a]);
                        assert(views(g.surfaces@)[b] == views(sv)[b]);
                    } else if a < sv.len() {
                        assert(views(g.surfaces@)[a] == views(sv)[a]);
                    } else if b < sv.len() {
                        assert(views(g.surfaces@)[b] == views(sv)[b]);
                    }
                }
            }
        }
        proof {
            assert(g@.surfaces =~= with_surface(before.surfaces, surface@));
        }
        self.put(g);
        proof {
            if !old(self)@.contains_key(group) {
                assert(seq![surface@] =~= Seq::<Seq<char>>::empty().push(surface@));
            }
        }
    }

    /// The index of the image of group `group`.
    pub fn index_of(&self, group: u8) -> (i: usize)
        requires
            self@.contains_key(group),
        ensures
            i == self@[group].index,
    {
        self.groups.get(&group).unwrap().index
    }

    /// How many displays group `group` has.
    pub fn surface_count(&self, group: u8) -> (n: usize)
        requires
            self@.contains_key(group),
        ensures
            n == self@[group].surfaces.len(),
    {
        self.groups.get(&group).unwrap().surfaces.len()
    }

    /// The displays of group `group`.
    pub fn surfaces_of(&self, group: u8) -> (v: Vec<String>)
        requires
            self@.contains_key(group),
        ensures
            views(v@) == self@[group].surfaces,
    {
        let g = self.groups.get(&group).unwrap();
        let mut v: Vec<String> = Vec::new();
        let mut i: usize = 0;
        while i < g.surfaces.len()
            invariant
                i <= g.surfaces@.len(),
                views(v@) == views(g.surfaces@).take(i as int),
            decreases g.surfaces@.len() - i,
        {
            let ghost before = v@;
            v.push(g.surfaces[i].clone());
            proof {
                crate::lemma_views_push(before, g.surfaces@[i as int]);
                assert(views(g.surfaces@).take(i + 1) =~= views(g.surfaces@).take(i as int).push(
                    g.surfaces@[i as int]@,
                ));
            }
            i += 1;
        }
        proof {
            assert(views(g.surfaces@).take(g.surfaces@.len() as int) =~= views(g.surfaces@));
        }
        v
    }

    /// Take display `surface` out of group `group`; the group is dropped
    /// when it has a single display, whichever that is.
    pub fn remove(&mut self, group: u8, surface: &String)
        requires
            old(self).wf(),
            old(self)@.contains_key(group),
        ensures
            final(self).wf(),
            final(self)@ == released(old(self)@, group, surface@),
    {
        let mut g = self.take(group);
        if g.surfaces.len() == 1 {
            return;
        }
        let ghost sv = g@.surfaces;
        let found = crate::position_str(&g.surfaces, surface);
        if let Some(i) = found {
            g.surfaces.remove(i);
            proof {
                assert(sv[i as int] == surface@);
                assert(sv.contains(surface@));
                let k = sv.index_of(surface@);
                assert(sv[k] == surface@);
                assert(k == i);
                assert(views(g.surfaces@) =~= sv.remove(i as int));
                assert forall|a: int, b: int|
                    0 <= a < views(g.surfaces@).len() && 0 <= b < views(g.surfaces@).len() && a != b
                    implies views(g.surfaces@)[a] != views(g.surfaces@)[b] by {
                    let ia = if a < i { a } else { a + 1 };
                    let ib = if b < i { b } else { b + 1 };
                    assert(views(g.surfaces@)[a] == sv[ia]);
                    assert(views(g.surfaces@)[b] == sv[ib]);
                }
            }
        } else {
            proof {
                assert(!sv.contains(surface@));
            }
        }
        self.put(g);
    }
}

} // verus!
