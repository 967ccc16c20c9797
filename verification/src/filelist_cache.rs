//! The lists of image files found under the configured paths.

use vstd::prelude::*;

use crate::path_order::{is_same_path, path_components, same_path};
use crate::system::{guess_top_level_type, guessed_top_level_type, walk_sorted};
use crate::views;

verus! {

/// `t` is the top-level media type `image`, compared ignoring ASCII case.
pub open spec fn is_image_type(t: Seq<char>) -> bool {
    &&& t.len() == 5
    &&& (t[0] == 'i' || t[0] == 'I')
    &&& (t[1] == 'm' || t[1] == 'M')
    &&& (t[2] == 'a' || t[2] == 'A')
    &&& (t[3] == 'g' || t[3] == 'G')
    &&& (t[4] == 'e' || t[4] == 'E')
}

/// The media type guessed from the extension of `p` is an image type.
pub open spec fn is_image_path(p: Seq<char>) -> bool {
    match guessed_top_level_type(p) {
        Some(t) => is_image_type(t),
        None => false,
    }
}

/// Whether the media type guessed from the extension of `path` is an image.
pub fn is_image(path: &String) -> (b: bool)
    ensures
        b == is_image_path(path@),
{
    match guess_top_level_type(path) {
        Some(t) => {
            let s = t.as_str();
            if s.unicode_len() != 5 {
                return false;
            }
            let c0 = s.get_char(0);
            let c1 = s.get_char(1);
            let c2 = s.get_char(2);
            let c3 = s.get_char(3);
            let c4 = s.get_char(4);
            (c0 == 'i' || c0 == 'I') && (c1 == 'm' || c1 == 'M') && (c2 == 'a' || c2 == 'A') && (
            c3 == 'g' || c3 == 'G') && (c4 == 'e' || c4 == 'E')
        },
        None => false,
    }
}

/// The entries of `entries` whose media type is an image type, in order.
pub fn filter_images(entries: &Vec<String>) -> (r: Vec<String>)
    ensures
        views(r@) == views(entries@).filter(|p: Seq<char>| is_image_path(p)),
{
    let mut r: Vec<String> = Vec::new();
    let mut i: usize = 0;
    while i < entries.len()
        invariant
            i <= entries.len(),
            views(r@) == views(entries@).take(i as int).filter(|p: Seq<char>| is_image_path(p)),
        decreases entries.len() - i,
    {
        let ghost before = r@;
        let ghost prefix = views(entries@).take(i as int);
        let e = &entries[i];
        if is_image(e) {
            let c = e.clone();
            r.push(c);
            proof {
                crate::lemma_views_push(before, c);
            }
        }
        proof {
            assert(views(entries@).take(i + 1) =~= prefix.push(e@));
            prefix.lemma_filter_push(e@, |p: Seq<char>| is_image_path(p));
        }
        i += 1;
    }
    proof {
        assert(views(entries@).take(entries@.len() as int) =~= views(entries@));
    }
    r
}

/// Abstract state of a [`Filelist`].
pub struct FilelistModel {
    pub path: Seq<char>,
    pub files: Seq<Seq<char>>,
    pub outdated: bool,
}

impl FilelistModel {
    /// Every file of the list is an image.
    pub open spec fn all_images(self) -> bool {
        forall|k: int| 0 <= k < self.files.len() ==> is_image_path(#[trigger] self.files[k])
    }
}

/// The image files found under one path, and whether the list must be read
/// again because the path changed on disk.
#[derive(Debug)]
pub struct Filelist {
    path: String,
    filelist: Vec<String>,
    outdated: bool,
}

impl View for Filelist {
    type V = FilelistModel;

    closed spec fn view(&self) -> FilelistModel {
        FilelistModel { path: self.path@, files: views(self.filelist@), outdated: self.outdated }
    }
}

impl Filelist {
    /// The list of the images found under `path`.
    pub fn new(path: &String) -> (f: Self)
        ensures
            f@.path == path@,
            !f@.outdated,
            f@.all_images(),
    {
        let mut res = Self { path: path.clone(), filelist: Vec::new(), outdated: true };
        res.populate();
        res
    }

    /// Read the list again: every entry under the path, depth first and
    /// sorted by name, that has an image type.
    fn populate(&mut self)
        ensures
            final(self)@.path == old(self)@.path,
            !final(self)@.outdated,
            final(self)@.all_images(),
    {
        let entries = walk_sorted(&self.path);
        let files = filter_images(&entries);
        proof {
            let pred = |p: Seq<char>| is_image_path(p);
            assert forall|k: int| 0 <= k < views(files@).len() implies is_image_path(
                #[trigger] views(files@)[k],
            ) by {
                views(entries@).lemma_filter_pred(pred, k);
            }
        }
        self.filelist = files;
        self.outdated = false;
    }
}

/// The paths that a call of [`FilelistCache::update_paths`] stopped and
/// started caching: the caller stops and starts watching them.
pub struct PathsUpdate {
    pub removed: Vec<String>,
    pub added: Vec<String>,
}

/// The paths of the file lists.
pub open spec fn paths_of(cache: Seq<FilelistModel>) -> Seq<Seq<char>> {
    cache.map_values(|f: FilelistModel| f.path)
}

/// The components of each of the paths `ps`: what a path is compared by.
pub open spec fn path_keys(ps: Seq<Seq<char>>) -> Seq<Seq<(u8, Seq<char>)>> {
    ps.map_values(|p: Seq<char>| path_components(p))
}

/// One of the paths `ps` names the same path as `p`.
pub open spec fn holds_path(ps: Seq<Seq<char>>, p: Seq<char>) -> bool {
    path_keys(ps).contains(path_components(p))
}

/// `existing`, followed by the paths of `paths` that name no path it holds
/// yet, in order and each once.
pub open spec fn append_new(existing: Seq<Seq<char>>, paths: Seq<Seq<char>>) -> Seq<Seq<char>>
    decreases paths.len(),
{
    if paths.len() == 0 {
        existing
    } else {
        let e = append_new(existing, paths.drop_last());
        if holds_path(e, paths.last()) {
            e
        } else {
            e.push(paths.last())
        }
    }
}

/// The list cached for the path `p`.
pub open spec fn entry_of(cache: Seq<FilelistModel>, p: Seq<char>) -> FilelistModel {
    cache[path_keys(paths_of(cache)).index_of(path_components(p))]
}

/// With distinct paths, the entry found for the path at `k` is the one at
/// `k`.
proof fn lemma_entry_at(cache: Seq<FilelistModel>, k: int)
    requires
        path_keys(paths_of(cache)).no_duplicates(),
        0 <= k < cache.len(),
    ensures
        holds_path(paths_of(cache), cache[k].path),
        path_keys(paths_of(cache)).index_of(path_components(cache[k].path)) == k,
        entry_of(cache, cache[k].path) == cache[k],
{
    let ks = path_keys(paths_of(cache));
    assert(ks[k] == path_components(cache[k].path));
    assert(ks.contains(path_components(cache[k].path)));
    let j = ks.index_of(path_components(cache[k].path));
    assert(ks[j] == ks[k]);
}

/// Appending a path appends its components.
proof fn lemma_keys_push(ps: Seq<Seq<char>>, p: Seq<char>)
    ensures
        path_keys(ps.push(p)) == path_keys(ps).push(path_components(p)),
{
    assert(path_keys(ps.push(p)) =~= path_keys(ps).push(path_components(p)));
}

/// Whether one of the paths `v` names the same path as `p`.
fn contains_path(v: &Vec<String>, p: &String) -> (b: bool)
    ensures
        b == holds_path(views(v@), p@),
{
    let mut i: usize = 0;
    while i < v.len()
        invariant
            i <= v@.len(),
            forall|j: int| 0 <= j < i ==> path_keys(views(v@))[j] != path_components(p@),
        decreases v@.len() - i,
    {
        if is_same_path(&v[i], p) {
            assert(path_keys(views(v@))[i as int] == path_components(p@));
            return true;
        }
        i += 1;
    }
    false
}

/// One step of keeping the configured paths of a cache: the paths `bt` of
/// the first entries, the path `x` of the next, and the paths `kept` kept so
/// far, each named in `bt` and none twice.
proof fn lemma_retain_step(bt: Seq<Seq<char>>, x: Seq<char>, kept: Seq<Seq<char>>)
    requires
        path_keys(bt.push(x)).no_duplicates(),
        path_keys(kept).no_duplicates(),
        forall|j: int| 0 <= j < kept.len() ==> holds_path(bt, #[trigger] kept[j]),
    ensures
        !holds_path(bt, x),
        holds_path(bt.push(x), x),
        forall|y: Seq<char>| holds_path(bt, y) ==> holds_path(bt.push(x), y),
        path_keys(kept.push(x)).no_duplicates(),
        forall|j: int| 0 <= j < kept.len() ==> holds_path(bt.push(x), #[trigger] kept[j]),
        forall|j: int| 0 <= j < kept.len() + 1 ==> holds_path(bt.push(x), #[trigger] kept.push(x)[j]),
{
    lemma_keys_push(bt, x);
    lemma_keys_push(kept, x);
    let kb = path_keys(bt);
    assert(path_keys(bt.push(x))[bt.len() as int] == path_components(x));
    assert(!holds_path(bt, x)) by {
        if kb.contains(path_components(x)) {
            let j = choose|j: int| 0 <= j < kb.len() && kb[j] == path_components(x);
            assert(path_keys(bt.push(x))[j] == kb[j]);
        }
    }
    assert forall|y: Seq<char>| holds_path(bt, y) implies holds_path(bt.push(x), y) by {
        let j = choose|j: int| 0 <= j < kb.len() && kb[j] == path_components(y);
        assert(path_keys(bt.push(x))[j] == path_components(y));
    }
    assert(!path_keys(kept).contains(path_components(x))) by {
        if path_keys(kept).contains(path_components(x)) {
            let j = choose|j: int| 0 <= j < path_keys(kept).len() && path_keys(kept)[j] == path_components(x);
            assert(holds_path(bt, kept[j]));
            assert(path_keys(kept)[j] == path_components(kept[j]));
        }
    }
    assert forall|j: int| 0 <= j < kept.len() + 1 implies holds_path(bt.push(x), #[trigger] kept.push(x)[j]) by {
        if j < kept.len() {
            assert(kept.push(x)[j] == kept[j]);
            assert(holds_path(bt, kept[j]));
        }
    }
}

/// A cache of file lists, one per configured path.
pub struct FilelistCache {
    cache: Vec<Filelist>,
}

impl View for FilelistCache {
    type V = Seq<FilelistModel>;

    closed spec fn view(&self) -> Seq<FilelistModel> {
        self.cache@.map_values(|f: Filelist| f@)
    }
}

impl FilelistCache {
    /// Each path is cached once, and each list holds images only.
    pub open spec fn wf(&self) -> bool {
        &&& path_keys(paths_of(self@)).no_duplicates()
        &&& forall|k: int| 0 <= k < self@.len() ==> (#[trigger] self@[k]).all_images()
    }

    /// `path` is cached, under a text with the same components.
    pub open spec fn has_path(&self, path: Seq<char>) -> bool {
        holds_path(paths_of(self@), path)
    }

    /// The files cached for `path`.
    pub open spec fn files_of(&self, path: Seq<char>) -> Seq<Seq<char>> {
        self@[path_keys(paths_of(self@)).index_of(path_components(path))].files
    }

    /// A cache for `paths`, each read from disk.
    pub fn new(paths: &Vec<String>) -> (c: Self)
        ensures
            c.wf(),
            paths_of(c@) == append_new(Seq::empty(), views(paths@)),
            forall|k: int| 0 <= k < c@.len() ==> !(#[trigger] c@[k]).outdated,
    {
        let mut c = Self { cache: Vec::new() };
        proof {
            assert(c@ =~= Seq::<FilelistModel>::empty());
            assert(paths_of(c@) =~= Seq::<Seq<char>>::empty());
        }
        let _ = c.update_paths(paths);
        proof {
            assert(paths_of(Seq::<FilelistModel>::empty()).filter(
                |p: Seq<char>| holds_path(views(paths@), p),
            ) =~= Seq::<Seq<char>>::empty()) by {
                reveal(Seq::filter);
            }
        }
        c
    }

    /// The position of `path` in the cache.
    fn find(&self, path: &String) -> (r: Option<usize>)
        requires
            self.wf(),
        ensures
            match r {
                Some(k) => k < self@.len() && same_path(self@[k as int].path, path@) && k == path_keys(
                    paths_of(self@),
                ).index_of(path_components(path@)),
                None => !self.has_path(path@),
            },
    {
        let ghost ks = path_keys(paths_of(self@));
        let mut k: usize = 0;
        while k < self.cache.len()
            invariant
                self.wf(),
                k <= self.cache@.len(),
                self@.len() == self.cache@.len(),
                ks == path_keys(paths_of(self@)),
                forall|j: int| 0 <= j < k ==> ks[j] != path_components(path@),
            decreases self.cache@.len() - k,
        {
            if is_same_path(&self.cache[k].path, path) {
                proof {
                    assert(ks[k as int] == path_components(path@));
                    let j = ks.index_of(path_components(path@));
                    assert(ks.contains(path_components(path@)));
                    assert(ks[j] == ks[k as int]);
                }
                return Some(k);
            }
            k += 1;
        }
        None
    }

    /// The files cached for `path`.
    pub fn get(&self, path: &String) -> (files: Vec<String>)
        requires
            self.wf(),
            self.has_path(path@),
        ensures
            views(files@) == self.files_of(path@),
    {
        let k = self.find(path).unwrap();
        let list = &self.cache[k].filelist;
        let mut files: Vec<String> = Vec::new();
        let mut i: usize = 0;
        while i < list.len()
            invariant
                i <= list.len(),
                views(files@) == views(list@).take(i as int),
            decreases list.len() - i,
        {
            let ghost before = files@;
            files.push(list[i].clone());
            proof {
                crate::lemma_views_push(before, list[i as int]);
                assert(views(list@).take(i + 1) =~= views(list@).take(i as int).push(list@[i as int]@));
            }
            i += 1;
        }
        proof {
            assert(views(list@).take(list@.len() as int) =~= views(list@));
        }
        files
    }

    /// Mark the list of `path` to be read again, because the path changed on
    /// disk.
    pub fn mark_outdated(&mut self, path: &String)
        requires
            old(self).wf(),
        ensures
            final(self).wf(),
            final(self)@.len() == old(self)@.len(),
            forall|k: int| 0 <= k < old(self)@.len() ==> (#[trigger] final(self)@[k]) == (if same_path(
                old(self)@[k].path,
                path@,
            ) {
                FilelistModel { outdated: true, ..old(self)@[k] }
            } else {
                old(self)@[k]
            }),
    {
        let ghost before = self@;
        match self.find(path) {
            Some(k) => {
                let ghost bc = self.cache@;
                let mut f = self.cache.remove(k);
                f.outdated = true;
                let ghost fm = f@;
                self.cache.insert(k, f);
                proof {
                    assert(self.cache@ =~= bc.update(k as int, f));
                    assert(self@ =~= before.update(k as int, fm));
                    assert forall|j: int| 0 <= j < before.len() implies (#[trigger] self@[j]) == (if same_path(
                        before[j].path,
                        path@,
                    ) {
                        FilelistModel { outdated: true, ..before[j] }
                    } else {
                        before[j]
                    }) by {
                        if j != k {
                            assert(path_keys(paths_of(before))[j] != path_keys(paths_of(before))[k as int]);
                        }
                    }
                    assert(paths_of(self@) =~= paths_of(before));
                }
            },
            None => {
                proof {
                    assert forall|j: int| 0 <= j < before.len() implies !same_path(before[j].path, path@) by {
                        assert(path_keys(paths_of(before))[j] == path_components(before[j].path));
                    }
                }
            },
        }
    }

    /// Read again the lists that are out of date.
    pub fn update_cache(&mut self)
        requires
            old(self).wf(),
        ensures
            final(self).wf(),
            final(self)@.len() == old(self)@.len(),
            forall|k: int| 0 <= k < old(self)@.len() ==> (#[trigger] final(self)@[k]).path == old(
                self,
            )@[k].path && !final(self)@[k].outdated && (!old(self)@[k].outdated ==> final(self)@[k]
                == old(self)@[k]),
    {
        let ghost before = self@;
        let mut k: usize = 0;
        while k < self.cache.len()
            invariant
                k <= self.cache@.len(),
                self@.len() == before.len(),
                self.cache@.len() == before.len(),
                paths_of(self@) == paths_of(before),
                forall|j: int| 0 <= j < self@.len() ==> (#[trigger] self@[j]).all_images(),
                forall|j: int| 0 <= j < before.len() ==> (#[trigger] self@[j]).path == before[j].path,
                forall|j: int| 0 <= j < k ==> !(#[trigger] self@[j]).outdated,
                forall|j: int| 0 <= j < before.len() && !before[j].outdated ==> (#[trigger] self@[j]) == before[j],
                forall|j: int| k <= j < before.len() ==> (#[trigger] self@[j]) == before[j],
            decreases self.cache@.len() - k,
        {
            if self.cache[k].outdated {
                let ghost mid = self@;
                let ghost mc = self.cache@;
                let mut f = self.cache.remove(k);
                assert(f@ == mid[k as int]);
                assert(mid[k as int] == before[k as int]);
                assert(before[k as int].outdated);
                f.populate();
                let ghost fm = f@;
                self.cache.insert(k, f);
                proof {
                    assert(self.cache@ =~= mc.update(k as int, f));
                    assert(self@ =~= mid.update(k as int, fm));
                    assert forall|j: int| 0 <= j < before.len() implies (#[trigger] self@[j]).path == before[j].path by {
                        if j != k {
                            assert(self@[j] == mid[j]);
                        }
                    }
                    assert(paths_of(self@) =~= paths_of(before));
                }
            }
            k += 1;
        }
    }

    /// Keep the lists of the paths named in `paths` and read the lists of
    /// the paths that are not cached yet, then read again the lists that are
    /// out of date. Returns the paths that stopped and started being cached.
    /// Paths are compared by their components.
    #[verifier::rlimit(100)]
    pub fn update_paths(&mut self, paths: &Vec<String>) -> (u: PathsUpdate)
        requires
            old(self).wf(),
        ensures
            final(self).wf(),
            paths_of(final(self)@) == append_new(
                paths_of(old(self)@).filter(|p: Seq<char>| holds_path(views(paths@), p)),
                views(paths@),
            ),
            views(u.removed@) == paths_of(old(self)@).filter(
                |p: Seq<char>| !holds_path(views(paths@), p),
            ),
            paths_of(final(self)@) == paths_of(old(self)@).filter(
                |p: Seq<char>| holds_path(views(paths@), p),
            ) + views(u.added@),
            forall|k: int| 0 <= k < final(self)@.len() ==> !(#[trigger] final(self)@[k]).outdated,
            forall|p: Seq<char>|
                old(self).has_path(p) && holds_path(views(paths@), p) && !entry_of(old(self)@, p).outdated
                    ==> #[trigger] entry_of(final(self)@, p) == entry_of(old(self)@, p),
    {
        let ghost pv = views(paths@);
        let ghost before = self@;
        // Stop caching the paths that are no longer configured.
        let mut old_cache: Vec<Filelist> = Vec::new();
        std::mem::swap(&mut old_cache, &mut self.cache);
        let ghost before_cache = old_cache@;
        let mut removed: Vec<String> = Vec::new();
        let ghost mut i: int = 0;
        proof {
            assert(self@ =~= Seq::<FilelistModel>::empty());
            assert(before.take(0) =~= Seq::<FilelistModel>::empty());
            assert(paths_of(before.take(0)) =~= Seq::<Seq<char>>::empty());
            reveal(Seq::filter);
            assert(paths_of(self@) =~= paths_of(before.take(0)).filter(|p: Seq<char>| holds_path(pv, p)));
            assert(views(removed@) =~= paths_of(before.take(0)).filter(|p: Seq<char>| !holds_path(pv, p)));
            assert(path_keys(paths_of(self@)) =~= Seq::<Seq<(u8, Seq<char>)>>::empty());
        }
        while old_cache.len() > 0
            invariant
                0 <= i <= before.len(),
                before_cache.map_values(|f: Filelist| f@) == before,
                old_cache@ == before_cache.skip(i),
                path_keys(paths_of(before)).no_duplicates(),
                forall|j: int| 0 <= j < before.len() ==> (#[trigger] before[j]).all_images(),
                pv == views(paths@),
                paths_of(self@) == paths_of(before.take(i)).filter(|p: Seq<char>| holds_path(pv, p)),
                path_keys(paths_of(self@)).no_duplicates(),
                forall|j: int| 0 <= j < self@.len() ==> (#[trigger] self@[j]).all_images(),
                forall|j: int|
                    0 <= j < self@.len() ==> holds_path(paths_of(before.take(i)), #[trigger] paths_of(self@)[j]),
                views(removed@) == paths_of(before.take(i)).filter(|p: Seq<char>| !holds_path(pv, p)),
                forall|j: int| 0 <= j < self@.len() ==> exists|w: int| 0 <= w < i && #[trigger] self@[j] == before[w],
            decreases old_cache@.len(),
        {
            let f = old_cache.remove(0);
            let ghost fm = f@;
            let ghost self_before = self@;
            let ghost removed_before = removed@;
            let ghost bt = paths_of(before.take(i));
            proof {
                assert(before_cache.skip(i)[0] == before_cache[i]);
                assert(fm == before[i]);
                assert(paths_of(before.take(i + 1)) =~= bt.push(fm.path));
                assert(path_keys(bt.push(fm.path)) =~= path_keys(paths_of(before)).take(i + 1));
                assert(path_keys(bt.push(fm.path)).no_duplicates()) by {
                    let kb = path_keys(paths_of(before));
                    assert forall|a: int, c: int| 0 <= a < i + 1 && 0 <= c < i + 1 && a != c implies #[trigger] kb.take(i + 1)[a] != #[trigger] kb.take(i + 1)[c] by {
                        assert(kb.take(i + 1)[a] == kb[a] && kb.take(i + 1)[c] == kb[c]);
                    }
                }
                lemma_retain_step(bt, fm.path, paths_of(self_before));
                bt.lemma_filter_push(fm.path, |p: Seq<char>| holds_path(pv, p));
                bt.lemma_filter_push(fm.path, |p: Seq<char>| !holds_path(pv, p));
            }
            if contains_path(paths, &f.path) {
                self.cache.push(f);
                proof {
                    assert(self@ =~= self_before.push(fm));
                    assert(paths_of(self@) =~= paths_of(self_before).push(fm.path));
                    assert forall|j: int| 0 <= j < self@.len() implies exists|w: int| 0 <= w < i + 1 && #[trigger] self@[j] == before[w] by {
                        if j < self_before.len() {
                            assert(self@[j] == self_before[j]);
                        } else {
                            assert(self@[j] == before[i]);
                        }
                    }
                }
            } else {
                let ghost fpath = f.path;
                removed.push(f.path);
                proof {
                    crate::lemma_views_push(removed_before, fpath);
                }
            }
            proof {
                i = i + 1;
                assert(old_cache@ =~= before_cache.skip(i));
            }
        }
        proof {
            assert(before.take(i) =~= before);
        }
        let ghost retained = paths_of(self@);
        let ghost kept = self@;
        // Start caching the paths that are new.
        let mut added: Vec<String> = Vec::new();
        proof {
            assert(retained + views(added@) =~= retained);
        }
        let mut j: usize = 0;
        while j < paths.len()
            invariant
                j <= paths@.len(),
                pv == views(paths@),
                paths_of(self@) == append_new(retained, pv.take(j as int)),
                paths_of(self@) == retained + views(added@),
                retained == paths_of(kept),
                self@.len() >= kept.len(),
                forall|k: int| 0 <= k < kept.len() ==> #[trigger] self@[k] == kept[k],
                path_keys(paths_of(self@)).no_duplicates(),
                forall|k: int| 0 <= k < self@.len() ==> (#[trigger] self@[k]).all_images(),
                forall|k: int| kept.len() <= k < self@.len() ==> !(#[trigger] self@[k]).outdated,
            decreases paths@.len() - j,
        {
            let p = &paths[j];
            let ghost self_before = self@;
            proof {
                assert(pv.take(j + 1).drop_last() =~= pv.take(j as int));
                assert(pv.take(j + 1).last() == p@);
                assert(append_new(retained, pv.take(j + 1)) == (if holds_path(
                    append_new(retained, pv.take(j as int)),
                    p@,
                ) {
                    append_new(retained, pv.take(j as int))
                } else {
                    append_new(retained, pv.take(j as int)).push(p@)
                }));
            }
            let found = self.find(p);
            if let Some(k) = found {
                proof {
                    assert(path_keys(paths_of(self@))[k as int] == path_components(p@));
                    assert(self.has_path(p@));
                }
            }
            if found.is_none() {
                let f = Filelist::new(p);
                let ghost fm = f@;
                self.cache.push(f);
                let ghost added_before = added@;
                let c = p.clone();
                added.push(c);
                proof {
                    assert(self@ =~= self_before.push(fm));
                    assert(paths_of(self@) =~= paths_of(self_before).push(p@));
                    lemma_keys_push(paths_of(self_before), p@);
                    crate::lemma_views_push(added_before, c);
                    assert(retained + views(added@) =~= (retained + views(added_before)).push(p@));
                }
            }
            j += 1;
        }
        proof {
            assert(pv.take(pv.len() as int) =~= pv);
        }
        let ghost mid = self@;
        self.update_cache();
        proof {
            assert forall|p: Seq<char>|
                holds_path(paths_of(before), p) && holds_path(pv, p) && !entry_of(before, p).outdated
                    implies #[trigger] entry_of(self@, p) == entry_of(before, p) by {
                let kb = path_keys(paths_of(before));
                let wb = kb.index_of(path_components(p));
                assert(kb[wb] == path_components(p));
                assert(kb[wb] == path_components(paths_of(before)[wb]));
                let pred = |q: Seq<char>| holds_path(pv, q);
                assert(pred(paths_of(before)[wb]));
                paths_of(before).lemma_filter_contains(pred, wb);
                assert(retained.contains(paths_of(before)[wb]));
                let r = choose|r: int| 0 <= r < retained.len() && retained[r] == paths_of(before)[wb];
                assert(kept[r].path == paths_of(before)[wb]);
                let w = choose|w: int| 0 <= w < before.len() && kept[r] == before[w];
                lemma_entry_at(before, w);
                assert(kb[w] == path_components(before[w].path));
                assert(w == wb);
                assert(mid[r] == kept[r]);
                assert(paths_of(mid)[r] == paths_of(before)[wb]);
                lemma_entry_at(mid, r);
                assert(!mid[r].outdated);
                assert(self@[r] == mid[r]);
                assert(paths_of(self@) == paths_of(mid));
                lemma_entry_at(self@, r);
            }
        }
        PathsUpdate { removed, added }
    }
}

} // verus!
