//! The bookkeeping of the images being decoded in the background: which
//! displays asked for each image, and who gets the decoded data. The
//! decoding threads and the data live with the caller, which performs what
//! the answers ask.

use vstd::prelude::*;

use crate::{contains_str, position_str, views};

verus! {

/// What the decoding thread of an image answered when asked.
#[derive(Debug, Copy, Clone, PartialEq, Eq, Structural)]
pub enum Poll {
    /// The image is decoded.
    Decoded,
    /// The image could not be decoded, or the thread is gone.
    Failed,
    /// The thread still runs.
    Running,
}

/// What the caller must do for a request of an image.
#[derive(Debug, Copy, Clone, PartialEq, Eq, Structural)]
pub enum LoaderAnswer {
    /// Start a thread that decodes the image; wait for it.
    Start,
    /// Wait for the thread.
    Waiting,
    /// The image cannot be loaded; forget its thread.
    Error,
    /// Hand the decoded image to the requester: keep a copy when other
    /// displays still wait for it (`keep`), else hand it over and forget it.
    Loaded { keep: bool },
}

/// Abstract value of an image being loaded.
pub struct ImageModel {
    /// The decoded data is there.
    pub ready: bool,
    /// The displays that asked for it and did not get it yet.
    pub requesters: Seq<Seq<char>>,
}

/// An image being loaded.
#[derive(Debug)]
struct LoadingImage {
    path: String,
    ready: bool,
    requesters: Vec<String>,
}

/// The images being loaded, by path.
#[derive(Debug)]
pub struct ImageLoader {
    images: Vec<LoadingImage>,
}

/// The abstract value of an image entry.
spec fn entry_view(e: LoadingImage) -> ImageModel {
    ImageModel { ready: e.ready, requesters: views(e.requesters@) }
}

/// The paths of the entries.
spec fn entry_paths(v: Seq<LoadingImage>) -> Seq<Seq<char>> {
    v.map_values(|e: LoadingImage| e.path@)
}

/// The entries by path.
spec fn images_map(v: Seq<LoadingImage>) -> Map<Seq<char>, ImageModel> {
    Map::new(
        |k: Seq<char>| entry_paths(v).contains(k),
        |k: Seq<char>| entry_view(v[entry_paths(v).index_of(k)]),
    )
}

impl View for ImageLoader {
    type V = Map<Seq<char>, ImageModel>;

    closed spec fn view(&self) -> Map<Seq<char>, ImageModel> {
        images_map(self.images@)
    }
}

/// `s` without `x`.
pub open spec fn without(s: Seq<Seq<char>>, x: Seq<char>) -> Seq<Seq<char>> {
    if s.contains(x) {
        s.remove(s.index_of(x))
    } else {
        s
    }
}

/// The loader hands the ready image `e` of `path` to `req`: the last
/// display waiting gets the data and the image is forgotten; otherwise the
/// display gets a copy and stops waiting.
pub open spec fn handed(
    m: Map<Seq<char>, ImageModel>,
    path: Seq<char>,
    req: Seq<char>,
    e: ImageModel,
    m2: Map<Seq<char>, ImageModel>,
    a: LoaderAnswer,
) -> bool {
    if e.requesters == seq![req] {
        a == (LoaderAnswer::Loaded { keep: false }) && m2 == m.remove(path)
    } else {
        a == (LoaderAnswer::Loaded { keep: true }) && m2 == m.insert(
            path,
            ImageModel { requesters: without(e.requesters, req), ..e },
        )
    }
}

/// How the loader answers display `req` asking for the image at `path`,
/// when the thread decoding it answered `poll`.
pub open spec fn loader_step(
    m: Map<Seq<char>, ImageModel>,
    path: Seq<char>,
    req: Seq<char>,
    poll: Option<Poll>,
    m2: Map<Seq<char>, ImageModel>,
    a: LoaderAnswer,
) -> bool {
    if !m.contains_key(path) {
        a == LoaderAnswer::Start && m2 == m.insert(
            path,
            ImageModel { ready: false, requesters: seq![req] },
        )
    } else if m[path].ready {
        handed(m, path, req, m[path], m2, a)
    } else {
        match poll {
            Some(Poll::Decoded) => handed(m, path, req, ImageModel { ready: true, ..m[path] }, m2, a),
            Some(Poll::Failed) => a == LoaderAnswer::Error && m2 == m.remove(path),
            _ => a == LoaderAnswer::Waiting && m2 == m.insert(
                path,
                ImageModel {
                    requesters: if m[path].requesters.contains(req) {
                        m[path].requesters
                    } else {
                        m[path].requesters.push(req)
                    },
                    ..m[path]
                },
            ),
        }
    }
}

/// Each path once; each image has a display waiting for it, each listed
/// once.
spec fn images_ok(v: Seq<LoadingImage>) -> bool {
    &&& entry_paths(v).no_duplicates()
    &&& forall|i: int|
        0 <= i < v.len() ==> (#[trigger] entry_view(v[i])).requesters.len() > 0
            && entry_view(v[i]).requesters.no_duplicates()
}

/// Updating the entry at `i`, under the same path, updates the map.
proof fn lemma_update_entry(v: Seq<LoadingImage>, i: int, e: LoadingImage)
    requires
        entry_paths(v).no_duplicates(),
        0 <= i < v.len(),
        e.path@ == v[i].path@,
    ensures
        entry_paths(v.update(i, e)) == entry_paths(v),
        images_map(v.update(i, e)) == images_map(v).insert(v[i].path@, entry_view(e)),
{
    let w = v.update(i, e);
    assert(entry_paths(w) =~= entry_paths(v));
    let k = v[i].path@;
    assert(entry_paths(v)[i] == k);
    lemma_index_of_unique(entry_paths(v), i);
    assert(images_map(w) =~= images_map(v).insert(k, entry_view(e))) by {
        assert forall|x: Seq<char>| #[trigger] images_map(w).contains_key(x) implies images_map(w)[x]
            == images_map(v).insert(k, entry_view(e))[x] by {
            if x != k {
                let j = entry_paths(v).index_of(x);
                assert(entry_paths(v).contains(x));
                assert(entry_paths(v)[j] == x);
                assert(j != i);
            }
        }
    }
}

/// With distinct paths, the position found for the path at `i` is `i`.
proof fn lemma_index_of_unique(s: Seq<Seq<char>>, i: int)
    requires
        s.no_duplicates(),
        0 <= i < s.len(),
    ensures
        s.contains(s[i]),
        s.index_of(s[i]) == i,
{
    assert(s.contains(s[i]));
    let j = s.index_of(s[i]);
    assert(s[j] == s[i]);
}

/// Removing the entry at `i` removes its path from the map.
proof fn lemma_remove_entry(v: Seq<LoadingImage>, i: int)
    requires
        entry_paths(v).no_duplicates(),
        0 <= i < v.len(),
    ensures
        entry_paths(v.remove(i)) == entry_paths(v).remove(i),
        images_map(v.remove(i)) == images_map(v).remove(v[i].path@),
{
    let w = v.remove(i);
    let k = v[i].path@;
    let pv = entry_paths(v);
    assert(entry_paths(w) =~= pv.remove(i));
    lemma_index_of_unique(pv, i);
    assert forall|x: Seq<char>| entry_paths(w).contains(x) <==> (pv.contains(x) && x != k) by {
        if entry_paths(w).contains(x) {
            let j = choose|j: int| 0 <= j < entry_paths(w).len() && entry_paths(w)[j] == x;
            let jj = if j < i { j } else { j + 1 };
            assert(pv[jj] == x);
            assert(jj != i);
        }
        if pv.contains(x) && x != k {
            let j = choose|j: int| 0 <= j < pv.len() && pv[j] == x;
            assert(j != i);
            let jj = if j < i { j } else { j - 1 };
            assert(entry_paths(w)[jj] == x);
        }
    }
    assert(images_map(w) =~= images_map(v).remove(k)) by {
        assert forall|x: Seq<char>| #[trigger] images_map(w).contains_key(x) implies images_map(w)[x]
            == images_map(v)[x] by {
            let j = entry_paths(w).index_of(x);
            assert(entry_paths(w).contains(x));
            assert(entry_paths(w)[j] == x);
            let jj = if j < i { j } else { j + 1 };
            assert(pv[jj] == x);
            lemma_index_of_unique(pv, jj);
            assert(w[j] == v[jj]);
        }
    }
}

/// Removing an entry keeps the entries fit.
proof fn lemma_images_ok_remove(v: Seq<LoadingImage>, i: int)
    requires
        images_ok(v),
        0 <= i < v.len(),
    ensures
        images_ok(v.remove(i)),
{
    let w = v.remove(i);
    lemma_remove_entry(v, i);
    lemma_remove_distinct(entry_paths(v), i);
    assert forall|j: int| 0 <= j < w.len() implies (#[trigger] entry_view(w[j])).requesters.len() > 0
        && entry_view(w[j]).requesters.no_duplicates() by {
        let jj = if j < i { j } else { j + 1 };
        assert(w[j] == v[jj]);
    }
}

/// Appending an entry for a new path adds it to the map.
proof fn lemma_push_entry(v: Seq<LoadingImage>, e: LoadingImage)
    requires
        entry_paths(v).no_duplicates(),
        !entry_paths(v).contains(e.path@),
    ensures
        entry_paths(v.push(e)) == entry_paths(v).push(e.path@),
        entry_paths(v.push(e)).no_duplicates(),
        images_map(v.push(e)) == images_map(v).insert(e.path@, entry_view(e)),
{
    let w = v.push(e);
    let pv = entry_paths(v);
    assert(entry_paths(w) =~= pv.push(e.path@));
    assert forall|a: int, b: int|
        0 <= a < entry_paths(w).len() && 0 <= b < entry_paths(w).len() && a != b implies entry_paths(
        w,
    )[a] != entry_paths(w)[b] by {
        if a < pv.len() && b < pv.len() {
            assert(entry_paths(w)[a] == pv[a]);
            assert(entry_paths(w)[b] == pv[b]);
        } else if a < pv.len() {
            assert(entry_paths(w)[a] == pv[a]);
        } else if b < pv.len() {
            assert(entry_paths(w)[b] == pv[b]);
        }
    }
    lemma_index_of_unique(entry_paths(w), pv.len() as int);
    assert(entry_paths(w)[pv.len() as int] == e.path@);
    assert(w[pv.len() as int] == e);
    assert forall|x: Seq<char>| entry_paths(w).contains(x) <==> (pv.contains(x) || x == e.path@) by {
        if entry_paths(w).contains(x) && x != e.path@ {
            let j = choose|j: int| 0 <= j < entry_paths(w).len() && entry_paths(w)[j] == x;
            assert(j < pv.len());
            assert(pv[j] == x);
        }
        if pv.contains(x) {
            let j = choose|j: int| 0 <= j < pv.len() && pv[j] == x;
            assert(entry_paths(w)[j] == x);
        }
    }
    assert(images_map(w) =~= images_map(v).insert(e.path@, entry_view(e))) by {
        assert forall|x: Seq<char>| #[trigger] images_map(w).contains_key(x) && x != e.path@ implies images_map(
            w,
        )[x] == images_map(v)[x] by {
            let j = pv.index_of(x);
            assert(entry_paths(w).contains(x));
            let jw = entry_paths(w).index_of(x);
            assert(entry_paths(w)[jw] == x);
            assert(jw < pv.len());
            assert(pv.contains(x));
            assert(pv[j] == x);
            lemma_index_of_unique(entry_paths(w), jw);
            lemma_index_of_unique(pv, j);
            assert(entry_paths(w)[j] == x);
        }
    }
}

/// The position of the entry of `path`.
fn find_entry(images: &Vec<LoadingImage>, path: &String) -> (r: Option<usize>)
    requires
        entry_paths(images@).no_duplicates(),
    ensures
        match r {
            Some(i) => i < images@.len() && images@[i as int].path@ == path@ && entry_paths(
                images@,
            ).index_of(path@) == i,
            None => !entry_paths(images@).contains(path@),
        },
{
    let mut i: usize = 0;
    while i < images.len()
        invariant
            i <= images@.len(),
            entry_paths(images@).no_duplicates(),
            forall|j: int| 0 <= j < i ==> entry_paths(images@)[j] != path@,
        decreases images@.len() - i,
    {
        if images[i].path == *path {
            proof {
                assert(entry_paths(images@)[i as int] == path@);
                lemma_index_of_unique(entry_paths(images@), i as int);
            }
            return Some(i);
        }
        i += 1;
    }
    None
}

impl ImageLoader {
    /// Each path once, each image waited for.
    pub closed spec fn wf(&self) -> bool {
        images_ok(self.images@)
    }

    /// No image being loaded.
    pub fn new() -> (l: ImageLoader)
        ensures
            l.wf(),
            l@ == Map::<Seq<char>, ImageModel>::empty(),
    {
        let l = ImageLoader { images: Vec::new() };
        assert(l@ =~= Map::<Seq<char>, ImageModel>::empty());
        l
    }

    /// Whether the image at `path` is being decoded.
    pub fn is_loading(&self, path: &String) -> (b: bool)
        requires
            self.wf(),
        ensures
            b == (self@.contains_key(path@) && !self@[path@].ready),
    {
        match find_entry(&self.images, path) {
            Some(i) => {
                proof {
                    assert(entry_paths(self.images@)[i as int] == path@);
                }
                !self.images[i].ready
            },
            None => false,
        }
    }

    /// Display `requester` asks for the image at `path`; `poll` is what the
    /// thread decoding it answered, when it is being decoded.
    pub fn background_load(&mut self, path: &String, requester: &String, poll: Option<Poll>) -> (a:
        LoaderAnswer)
        requires
            old(self).wf(),
            old(self)@.contains_key(path@) && !old(self)@[path@].ready ==> poll is Some,
        ensures
            final(self).wf(),
            loader_step(old(self)@, path@, requester@, poll, final(self)@, a),
    {
        let ghost v0 = self.images@;
        match find_entry(&self.images, path) {
            None => {
                // Start decoding it.
                let mut requesters: Vec<String> = Vec::new();
                requesters.push(requester.clone());
                let e = LoadingImage { path: path.clone(), ready: false, requesters };
                proof {
                    assert(views(e.requesters@) =~= seq![requester@]);
                    lemma_push_entry(v0, e);
                }
                self.images.push(e);
                proof {
                    assert forall|i: int| 0 <= i < self.images@.len() implies (#[trigger] entry_view(
                        self.images@[i],
                    )).requesters.len() > 0 && entry_view(self.images@[i]).requesters.no_duplicates() by {
                        if i < v0.len() {
                            assert(self.images@[i] == v0[i]);
                        }
                    }
                }
                LoaderAnswer::Start
            },
            Some(i) => {
                let mut e = self.images.remove(i);
                proof {
                    assert(entry_paths(v0)[i as int] == path@);
                    assert(old(self)@.contains_key(path@));
                    assert(old(self)@[path@] == entry_view(v0[i as int]));
                    assert(e == v0[i as int]);
                    lemma_remove_entry(v0, i as int);
                    lemma_images_ok_remove(v0, i as int);
                }
                if !e.ready {
                    match poll {
                        Some(Poll::Decoded) => {
                            e.ready = true;
                        },
                        Some(Poll::Failed) => {
                            // Forget it.
                            return LoaderAnswer::Error;
                        },
                        _ => {
                            // Still decoding: note the new requester.
                            if !contains_str(&e.requesters, requester) {
                                let ghost rb = e.requesters@;
                                e.requesters.push(requester.clone());
                                proof {
                                    crate::lemma_views_push(rb, e.requesters@[rb.len() as int]);
                                    lemma_push_distinct(views(rb), requester@);
                                }
                            }
                            self.images.insert(i, e);
                            proof {
                                self.restore(v0, i as int, e);
                            }
                            return LoaderAnswer::Waiting;
                        },
                    }
                }
                // The data is there.
                if e.requesters.len() == 1 && e.requesters[0] == *requester {
                    proof {
                        assert(views(e.requesters@) =~= seq![requester@]);
                    }
                    return LoaderAnswer::Loaded { keep: false };
                }
                // Other displays wait for it too.
                let ghost rb = e.requesters@;
                if let Some(k) = position_str(&e.requesters, requester) {
                    e.requesters.remove(k);
                    proof {
                        let rv = views(rb);
                        assert(rv[k as int] == requester@);
                        lemma_index_of_unique(rv, k as int);
                        assert(views(e.requesters@) =~= rv.remove(k as int));
                        lemma_remove_distinct(rv, k as int);
                        assert(views(rb) != seq![requester@]);
                        if rv.len() == 1 {
                            assert(rv =~= seq![requester@]);
                        }
                    }
                }
                self.images.insert(i, e);
                proof {
                    self.restore(v0, i as int, e);
                    let m = old(self)@;
                    let er = ImageModel { ready: true, ..m[path@] };
                    assert(views(rb) == m[path@].requesters);
                    if views(rb) == seq![requester@] {
                        assert(views(rb)[0] == requester@);
                        assert(rb[0]@ == requester@);
                    }
                    assert(er.requesters != seq![requester@]);
                    assert(entry_view(e) == ImageModel { requesters: without(er.requesters, requester@), ..er });
                    assert(handed(m, path@, requester@, er, self@, LoaderAnswer::Loaded { keep: true }));
                }
                LoaderAnswer::Loaded { keep: true }
            },
        }
    }

    /// The entry `e` put back at `i` in place of the one of the same path.
    proof fn restore(&self, v0: Seq<LoadingImage>, i: int, e: LoadingImage)
        requires
            images_ok(v0),
            0 <= i < v0.len(),
            e.path@ == v0[i].path@,
            self.images@ == v0.remove(i).insert(i, e),
            entry_view(e).requesters.len() > 0,
            entry_view(e).requesters.no_duplicates(),
        ensures
            self.wf(),
            self@ == images_map(v0).insert(v0[i].path@, entry_view(e)),
    {
        assert(self.images@ =~= v0.update(i, e));
        lemma_update_entry(v0, i, e);
        assert forall|j: int| 0 <= j < self.images@.len() implies (#[trigger] entry_view(
            self.images@[j],
        )).requesters.len() > 0 && entry_view(self.images@[j]).requesters.no_duplicates() by {
            if j != i {
                assert(self.images@[j] == v0[j]);
            }
        }
    }

    /// Whether an image is waited for by no display, which never happens.
    pub fn check_lingering_threads(&self) -> (lingering: bool)
        requires
            self.wf(),
        ensures
            !lingering,
    {
        let mut i: usize = 0;
        while i < self.images.len()
            invariant
                i <= self.images@.len(),
                images_ok(self.images@),
            decreases self.images@.len() - i,
        {
            if self.images[i].requesters.len() == 0 {
                proof {
                    assert(entry_view(self.images@[i as int]).requesters.len() > 0);
                }
                return true;
            }
            i += 1;
        }
        false
    }
}

/// Appending a name that is not listed keeps the names distinct.
proof fn lemma_push_distinct(s: Seq<Seq<char>>, x: Seq<char>)
    requires
        s.no_duplicates(),
        !s.contains(x),
    ensures
        s.push(x).no_duplicates(),
{
    let t = s.push(x);
    assert forall|a: int, b: int| 0 <= a < t.len() && 0 <= b < t.len() && a != b implies t[a] != t[b] by {
        if a < s.len() && b < s.len() {
        } else if a < s.len() {
            assert(t[a] == s[a]);
        } else if b < s.len() {
            assert(t[b] == s[b]);
        }
    }
}

/// Removing a name keeps the names distinct.
proof fn lemma_remove_distinct(s: Seq<Seq<char>>, k: int)
    requires
        s.no_duplicates(),
        0 <= k < s.len(),
    ensures
        s.remove(k).no_duplicates(),
{
    let t = s.remove(k);
    assert forall|a: int, b: int| 0 <= a < t.len() && 0 <= b < t.len() && a != b implies t[a] != t[b] by {
        let ia = if a < k { a } else { a + 1 };
        let ib = if b < k { b } else { b + 1 };
        assert(t[a] == s[ia]);
        assert(t[b] == s[ib]);
    }
}


/// An image asked for by one display alone is decoded in a new thread,
/// handed over to that display once decoded, and then forgotten.
pub proof fn lemma_single_request(
    m: Map<Seq<char>, ImageModel>,
    path: Seq<char>,
    req: Seq<char>,
    m1: Map<Seq<char>, ImageModel>,
    a1: LoaderAnswer,
    m2: Map<Seq<char>, ImageModel>,
    a2: LoaderAnswer,
)
    requires
        !m.contains_key(path),
        loader_step(m, path, req, None, m1, a1),
        loader_step(m1, path, req, Some(Poll::Decoded), m2, a2),
    ensures
        a1 == LoaderAnswer::Start,
        a2 == (LoaderAnswer::Loaded { keep: false }),
        m2 == m,
{
    assert(m1[path].requesters == seq![req]);
    assert(m2 =~= m);
}

/// Two displays asking for the same image while it is decoded both get it:
/// the first one a copy, the last one the data, and the image is then
/// forgotten.
pub proof fn lemma_shared_request(
    m: Map<Seq<char>, ImageModel>,
    path: Seq<char>,
    first: Seq<char>,
    second: Seq<char>,
    m1: Map<Seq<char>, ImageModel>,
    a1: LoaderAnswer,
    m2: Map<Seq<char>, ImageModel>,
    a2: LoaderAnswer,
    m3: Map<Seq<char>, ImageModel>,
    a3: LoaderAnswer,
    m4: Map<Seq<char>, ImageModel>,
    a4: LoaderAnswer,
)
    requires
        first != second,
        !m.contains_key(path),
        loader_step(m, path, first, None, m1, a1),
        loader_step(m1, path, second, Some(Poll::Running), m2, a2),
        loader_step(m2, path, first, Some(Poll::Decoded), m3, a3),
        loader_step(m3, path, second, None, m4, a4),
    ensures
        a1 == LoaderAnswer::Start,
        a2 == LoaderAnswer::Waiting,
        a3 == (LoaderAnswer::Loaded { keep: true }),
        a4 == (LoaderAnswer::Loaded { keep: false }),
        m4 == m,
{
    let r1 = seq![first];
    assert(m1[path].requesters == r1);
    assert(!r1.contains(second)) by {
        if r1.contains(second) {
            let k = choose|k: int| 0 <= k < r1.len() && r1[k] == second;
            assert(r1[k] == first);
        }
    }
    let r2 = r1.push(second);
    assert(m2[path].requesters == r2);
    assert(r2 != seq![first]) by {
        assert(r2.len() == 2);
    }
    assert(r2[0] == first);
    assert(r2.contains(first));
    assert(r2.index_of(first) == 0) by {
        let j = r2.index_of(first);
        assert(r2[j] == first);
        if j == 1 {
            assert(r2[1] == second);
        }
    }
    assert(without(r2, first) =~= seq![second]);
    assert(m3[path].requesters == seq![second]);
    assert(m3[path].ready);
    assert(m4 =~= m);
}

} // verus!
