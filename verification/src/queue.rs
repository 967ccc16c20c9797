//! The history of the wallpapers shown on a display in random order.

use std::collections::VecDeque;

use vstd::prelude::*;

use crate::views;

verus! {

/// Abstract state of a [`Queue`]: the recorded images, oldest first, the
/// position of the cursor, the capacity, and how many of the newest images
/// belong to the current cycle (have been shown since the last time every
/// available image had been seen).
pub struct QueueModel {
    pub items: Seq<Seq<char>>,
    pub current: nat,
    pub size: nat,
    pub in_cycle: nat,
}

impl QueueModel {
    /// The invariant every queue keeps.
    pub open spec fn wf(self) -> bool {
        &&& self.size >= 1
        &&& self.items.len() <= self.size
        &&& self.in_cycle <= self.items.len()
        &&& (self.items.len() == 0 ==> self.current == 0)
        &&& (self.items.len() > 0 ==> self.current < self.items.len())
        &&& self.items.no_duplicates()
    }

    pub open spec fn is_full(self) -> bool {
        self.items.len() == self.size
    }

    /// The cursor is on the last slot of the queue.
    pub open spec fn at_tail(self) -> bool {
        self.current + 1 == self.size
    }

    /// The image under the cursor.
    pub open spec fn current_item(self) -> Seq<char> {
        self.items[self.current as int]
    }

    /// The images of the current cycle, oldest first.
    pub open spec fn cycle(self) -> Seq<Seq<char>> {
        self.items.subrange(self.items.len() - self.in_cycle, self.items.len() as int)
    }

    pub open spec fn has_next(self) -> bool {
        self.current + 1 < self.items.len()
    }

    pub open spec fn has_previous(self) -> bool {
        self.current > 0
    }

    pub open spec fn with_current(self, c: nat) -> QueueModel {
        QueueModel { current: c, ..self }
    }

    /// The state after moving the cursor one image forward, when possible.
    pub open spec fn after_next(self) -> QueueModel {
        if self.has_next() {
            self.with_current(self.current + 1)
        } else {
            self
        }
    }

    /// The state after moving the cursor one image back, when possible.
    pub open spec fn after_previous(self) -> QueueModel {
        if self.has_previous() {
            self.with_current((self.current - 1) as nat)
        } else {
            self
        }
    }

    /// The state after moving the cursor onto `p`, when `p` is recorded.
    pub open spec fn after_set_current_to(self, p: Seq<char>) -> QueueModel {
        if self.items.contains(p) {
            self.with_current(self.items.index_of(p) as nat)
        } else {
            self
        }
    }

    /// The state after recording that `p` is being shown.
    pub open spec fn after_push(self, p: Seq<char>) -> QueueModel {
        let len: nat = self.items.len();
        if len > 0 && self.current_item() == p {
            // Replaying the history: nothing to record.
            self
        } else if self.items.contains(p) {
            // Shown again by a new cycle: it moves to the newest slot.
            let i = self.items.index_of(p);
            QueueModel {
                items: self.items.remove(i).push(p),
                current: (len - 1) as nat,
                size: self.size,
                in_cycle: if i < len - self.in_cycle {
                    self.in_cycle + 1
                } else {
                    self.in_cycle
                },
            }
        } else if len == self.size {
            // Full: the oldest image is evicted, the cursor keeps its slot.
            QueueModel {
                items: self.items.subrange(1, len as int).push(p),
                current: self.current,
                size: self.size,
                in_cycle: if self.in_cycle < len {
                    self.in_cycle + 1
                } else {
                    len
                },
            }
        } else {
            QueueModel {
                items: self.items.push(p),
                current: len,
                size: self.size,
                in_cycle: self.in_cycle + 1,
            }
        }
    }

    /// How many of the oldest images a resize to `n` drops.
    pub open spec fn dropped_by_resize(self, n: nat) -> nat {
        if self.items.len() > n {
            (self.items.len() - n) as nat
        } else {
            0
        }
    }

    /// The state after changing the capacity to `n`; a capacity of zero is
    /// ignored.
    pub open spec fn after_resize(self, n: nat) -> QueueModel {
        if n == 0 {
            self
        } else {
            let k = self.dropped_by_resize(n);
            let items = self.items.subrange(k as int, self.items.len() as int);
            QueueModel {
                items,
                current: if self.current >= k {
                    (self.current - k) as nat
                } else {
                    0
                },
                size: n,
                in_cycle: if self.in_cycle <= items.len() {
                    self.in_cycle
                } else {
                    items.len()
                },
            }
        }
    }
}

/// Walking back one image and then forward again returns to the image that
/// was on screen, at the same position.
pub proof fn lemma_previous_then_next(q: QueueModel)
    requires
        q.wf(),
        q.has_previous(),
    ensures
        q.after_previous().has_next(),
        q.after_previous().after_next() == q,
        q.after_previous().items[q.after_previous().current + 1int] == q.current_item(),
{
}

/// Walking forward one image and then back again returns to the image that
/// was on screen, at the same position.
pub proof fn lemma_next_then_previous(q: QueueModel)
    requires
        q.wf(),
        q.has_next(),
    ensures
        q.after_next().has_previous(),
        q.after_next().after_previous() == q,
        q.after_next().items[q.after_next().current - 1int] == q.current_item(),
{
}

/// Recording an image puts the cursor on it, except when a full queue whose
/// cursor is not on the newest image receives a new image: the oldest image
/// is evicted and the cursor keeps its slot.
pub proof fn lemma_push_shows_image(q: QueueModel, p: Seq<char>)
    requires
        q.wf(),
    ensures
        q.after_push(p).wf(),
        q.after_push(p).items.len() > 0,
        q.after_push(p).current_item() == p || (q.is_full() && !q.items.contains(p)
            && q.current + 1 < q.items.len()),
        q.after_push(p).items.contains(p),
        q.after_push(p).size == q.size,
{
    let r = q.after_push(p);
    let len = q.items.len();
    if len > 0 && q.current_item() == p {
        assert(r.items[q.current as int] == p);
    } else if q.items.contains(p) {
        assert(r.items[len - 1] == p);
        lemma_push_moves_to_newest(q, p);
    } else if len == q.size {
        assert(r.items[len - 1] == p);
        lemma_push_evicts_oldest(q, p);
    } else {
        assert(r.items[len as int] == p);
        lemma_push_appends(q, p);
    }
}

proof fn lemma_push_moves_to_newest(q: QueueModel, p: Seq<char>)
    requires
        q.wf(),
        !(q.items.len() > 0 && q.current_item() == p),
        q.items.contains(p),
    ensures
        q.after_push(p).wf(),
{
    let items = q.items;
    let len = items.len();
    let i = items.index_of(p);
    let r = q.after_push(p);
    assert(r.items.len() == len);
    assert forall|a: int, b: int| 0 <= a < r.items.len() && 0 <= b < r.items.len() && a != b
        implies r.items[a] != r.items[b] by {
        if a < len - 1 && b < len - 1 {
            let ia = if a < i { a } else { a + 1 };
            let ib = if b < i { b } else { b + 1 };
            assert(r.items[a] == items[ia]);
            assert(r.items[b] == items[ib]);
        } else if a < len - 1 {
            let ia = if a < i { a } else { a + 1 };
            assert(r.items[a] == items[ia]);
        } else if b < len - 1 {
            let ib = if b < i { b } else { b + 1 };
            assert(r.items[b] == items[ib]);
        }
    }
}

proof fn lemma_push_evicts_oldest(q: QueueModel, p: Seq<char>)
    requires
        q.wf(),
        !q.items.contains(p),
        q.items.len() == q.size,
    ensures
        q.after_push(p).wf(),
{
    let items = q.items;
    let len = items.len();
    let r = q.after_push(p);
    assert forall|a: int, b: int| 0 <= a < r.items.len() && 0 <= b < r.items.len() && a != b
        implies r.items[a] != r.items[b] by {
        if a < len - 1 && b < len - 1 {
            assert(r.items[a] == items[a + 1]);
            assert(r.items[b] == items[b + 1]);
        } else if a < len - 1 {
            assert(r.items[a] == items[a + 1]);
        } else if b < len - 1 {
            assert(r.items[b] == items[b + 1]);
        }
    }
}

proof fn lemma_push_appends(q: QueueModel, p: Seq<char>)
    requires
        q.wf(),
        !q.items.contains(p),
        q.items.len() < q.size,
    ensures
        q.after_push(p).wf(),
{
    let items = q.items;
    let len = items.len();
    let r = q.after_push(p);
    assert forall|a: int, b: int| 0 <= a < r.items.len() && 0 <= b < r.items.len() && a != b
        implies r.items[a] != r.items[b] by {
        if a < len && b < len {
            assert(r.items[a] == items[a]);
            assert(r.items[b] == items[b]);
        } else if a < len {
            assert(r.items[a] == items[a]);
        } else if b < len {
            assert(r.items[b] == items[b]);
        }
    }
}

/// Showing again an image of the current cycle is no progress through the
/// collection: the cycle count stays. An image that was never recorded joins
/// the cycle.
pub proof fn lemma_push_cycle_count(q: QueueModel, p: Seq<char>)
    requires
        q.wf(),
    ensures
        q.cycle().contains(p) ==> q.after_push(p).in_cycle == q.in_cycle,
        !q.items.contains(p) && q.in_cycle < q.items.len() ==> q.after_push(p).in_cycle
            == q.in_cycle + 1,
        !q.items.contains(p) && !q.is_full() ==> q.after_push(p).in_cycle == q.in_cycle + 1,
{
    let len = q.items.len();
    if q.cycle().contains(p) {
        let k = choose|k: int| 0 <= k < q.cycle().len() && q.cycle()[k] == p;
        assert(q.items[len - q.in_cycle + k] == p);
        if !(len > 0 && q.current_item() == p) {
            let i = q.items.index_of(p);
            assert(q.items[i] == p);
            assert(i == len - q.in_cycle + k);
        }
    }
}

/// Changing the capacity to a positive size keeps the newest images, in
/// order, never more than the new size; the cursor stays on its image when
/// that image is kept.
pub proof fn lemma_resize_keeps_newest(q: QueueModel, n: nat)
    requires
        q.wf(),
        n > 0,
    ensures
        q.after_resize(n).wf(),
        q.after_resize(n).size == n,
        q.after_resize(n).items.len() <= n,
        q.after_resize(n).items == q.items.subrange(
            q.items.len() - q.after_resize(n).items.len(),
            q.items.len() as int,
        ),
        q.items.len() > 0 && q.current >= q.dropped_by_resize(n) ==> q.after_resize(n).current_item()
            == q.current_item(),
{
    let r = q.after_resize(n);
    let k = q.dropped_by_resize(n);
    assert forall|a: int, b: int| 0 <= a < r.items.len() && 0 <= b < r.items.len() && a != b
        implies r.items[a] != r.items[b] by {
        assert(r.items[a] == q.items[a + k]);
        assert(r.items[b] == q.items[b + k]);
    }
}

/// Resizing to a positive capacity keeps the current cycle of the images
/// that stay: the new cycle is the newest part of the old one, as long as
/// the old cycle or the images kept, whichever is shorter; a capacity that
/// keeps every image keeps the cycle as it was.
pub proof fn lemma_resize_keeps_cycle(q: QueueModel, n: nat)
    requires
        q.wf(),
        n > 0,
    ensures
        q.after_resize(n).cycle().len() == if q.in_cycle <= q.after_resize(n).items.len() {
            q.in_cycle
        } else {
            q.after_resize(n).items.len()
        },
        q.after_resize(n).cycle() == q.cycle().subrange(
            q.cycle().len() - q.after_resize(n).cycle().len(),
            q.cycle().len() as int,
        ),
        n >= q.items.len() ==> q.after_resize(n).cycle() == q.cycle(),
{
    let r = q.after_resize(n);
    let k = q.dropped_by_resize(n);
    let c = q.cycle();
    let rc = r.cycle();
    assert(r.items.len() == q.items.len() - k);
    assert forall|i: int| 0 <= i < rc.len() implies rc[i] == c.subrange(c.len() - rc.len(), c.len() as int)[i] by {
        assert(rc[i] == r.items[r.items.len() - r.in_cycle + i]);
        assert(r.items[r.items.len() - r.in_cycle + i] == q.items[r.items.len() - r.in_cycle + i + k]);
        assert(c[c.len() - rc.len() + i] == q.items[q.items.len() - q.in_cycle + c.len() - rc.len() + i]);
    }
    assert(rc =~= c.subrange(c.len() - rc.len(), c.len() as int));
    if n >= q.items.len() {
        assert(k == 0);
        assert(rc =~= c);
    }
}

/// A capacity of zero leaves the queue as it is.
pub proof fn lemma_resize_to_zero(q: QueueModel)
    ensures
        q.after_resize(0) == q,
{
}

/// The wallpapers shown on a display, oldest first, with a cursor on the one
/// on screen. Navigating back and forth walks this history; random picking
/// avoids the images of the current cycle.
#[derive(Debug)]
pub struct Queue {
    buffer: VecDeque<String>,
    current: usize,
    tail: usize,
    size: usize,
    in_cycle: usize,
}

impl View for Queue {
    type V = QueueModel;

    closed spec fn view(&self) -> QueueModel {
        QueueModel {
            items: views(self.buffer@),
            current: self.current as nat,
            size: self.size as nat,
            in_cycle: self.in_cycle as nat,
        }
    }
}

impl Queue {
    /// The invariant of the queue: that of its model, with the last slot
    /// remembered as `tail`.
    pub closed spec fn wf(&self) -> bool {
        &&& self@.wf()
        &&& self.tail + 1 == self.size
    }

    /// A well-formed queue has a well-formed model.
    pub proof fn lemma_wf_model(&self)
        requires
            self.wf(),
        ensures
            self@.wf(),
    {
    }

    /// An empty queue with room for `size` images.
    pub fn with_capacity(size: usize) -> (q: Self)
        requires
            size >= 1,
        ensures
            q.wf(),
            q@.items == Seq::<Seq<char>>::empty(),
            q@.current == 0,
            q@.size == size,
            q@.in_cycle == 0,
    {
        let q = Self { buffer: VecDeque::with_capacity(size), current: 0, tail: size - 1, size, in_cycle: 0 };
        assert(q@.items =~= Seq::<Seq<char>>::empty());
        q
    }

    /// The image under the cursor.
    pub fn current(&self) -> (p: &String)
        requires
            self.wf(),
            self@.items.len() > 0,
        ensures
            p@ == self@.current_item(),
    {
        &self.buffer[self.current]
    }

    /// The image at position `i`, oldest first.
    pub fn get(&self, i: usize) -> (p: &String)
        requires
            self.wf(),
            i < self@.items.len(),
        ensures
            p@ == self@.items[i as int],
    {
        &self.buffer[i]
    }

    /// The capacity of the queue.
    pub fn size(&self) -> (n: usize)
        ensures
            n == self@.size,
    {
        self.size
    }

    /// How many of the newest images belong to the current cycle.
    pub fn in_cycle(&self) -> (n: usize)
        ensures
            n == self@.in_cycle,
    {
        self.in_cycle
    }

    /// The position of the cursor.
    pub fn current_index(&self) -> (n: usize)
        ensures
            n == self@.current,
    {
        self.current
    }

    /// How many images are recorded.
    pub fn len(&self) -> (n: usize)
        ensures
            n == self@.items.len(),
    {
        self.buffer.len()
    }

    /// Move the cursor one image forward and return that image with its
    /// position, or `None` when the cursor is on the newest image.
    pub fn next(&mut self) -> (r: Option<(String, usize)>)
        requires
            old(self).wf(),
        ensures
            final(self).wf(),
            final(self)@ == old(self)@.after_next(),
            match r {
                Some((p, i)) => old(self)@.has_next() && i == old(self)@.current + 1
                    && p@ == old(self)@.items[i as int],
                None => !old(self)@.has_next(),
            },
    {
        let len: usize = self.buffer.len();
        let next_index: usize = if self.current + 1 < self.size {
            self.current + 1
        } else {
            0
        };
        if !self.is_full() {
            if next_index < len {
                self.current = next_index;
                Some((self.buffer[next_index].clone(), next_index))
            } else {
                None
            }
        } else if self.current != self.tail {
            self.current = next_index;
            Some((self.buffer[next_index].clone(), next_index))
        } else {
            None
        }
    }

    /// Move the cursor one image back and return that image with its
    /// position, or `None` when the cursor is on the oldest image.
    pub fn previous(&mut self) -> (r: Option<(String, usize)>)
        requires
            old(self).wf(),
        ensures
            final(self).wf(),
            final(self)@ == old(self)@.after_previous(),
            match r {
                Some((p, i)) => old(self)@.has_previous() && i + 1 == old(self)@.current
                    && p@ == old(self)@.items[i as int],
                None => !old(self)@.has_previous(),
            },
    {
        let prev_index: usize = if self.current == 0 {
            self.size - 1
        } else {
            self.current - 1
        };
        if prev_index != self.tail {
            self.current = prev_index;
            Some((self.buffer[prev_index].clone(), prev_index))
        } else {
            None
        }
    }

    /// Whether every slot holds an image.
    pub fn is_full(&self) -> (b: bool)
        requires
            self.wf(),
        ensures
            b == self@.is_full(),
    {
        self.buffer.len() == self.size
    }

    /// The images of the current cycle, oldest first.
    pub fn current_cycle(&self) -> (v: Vec<String>)
        requires
            self.wf(),
        ensures
            views(v@) == self@.cycle(),
    {
        let len: usize = self.buffer.len();
        let start: usize = len - self.in_cycle;
        let mut v: Vec<String> = Vec::new();
        let mut i: usize = start;
        while i < len
            invariant
                self.wf(),
                len == self@.items.len(),
                start == len - self@.in_cycle,
                start <= i <= len,
                views(v@) == self@.items.subrange(start as int, i as int),
            decreases len - i,
        {
            let ghost old_v = v@;
            let s = self.buffer[i].clone();
            assert(s@ == self@.items[i as int]);
            v.push(s);
            assert(v@ == old_v.push(s));
            i += 1;
            proof {
                crate::lemma_views_push(old_v, s);
                assert(views(v@) =~= self@.items.subrange(start as int, i as int));
            }
        }
        v
    }

    /// Forget the current cycle: every image may be picked again.
    pub fn start_new_cycle(&mut self)
        requires
            old(self).wf(),
        ensures
            final(self).wf(),
            final(self)@ == (QueueModel { in_cycle: 0, ..old(self)@ }),
    {
        self.in_cycle = 0;
    }

    /// The position of `p` in the queue, if it is recorded.
    fn position(&self, p: &String) -> (r: Option<usize>)
        requires
            self.wf(),
        ensures
            match r {
                Some(i) => i < self@.items.len() && self@.items[i as int] == p@
                    && i == self@.items.index_of(p@),
                None => !self@.items.contains(p@),
            },
    {
        let len: usize = self.buffer.len();
        let mut i: usize = 0;
        while i < len
            invariant
                self.wf(),
                len == self@.items.len(),
                i <= len,
                forall|j: int| 0 <= j < i ==> self@.items[j] != p@,
            decreases len - i,
        {
            if self.buffer[i] == *p {
                assert(self@.items[i as int] == p@);
                assert(self@.items.contains(p@));
                assert(self@.items.index_of(p@) == i as int) by {
                    let k = self@.items.index_of(p@);
                    assert(0 <= k < self@.items.len() && self@.items[k] == p@);
                }
                return Some(i);
            }
            i += 1;
        }
        None
    }

    /// Move the cursor onto `p` if it is recorded.
    pub fn set_current_to(&mut self, p: &String)
        requires
            old(self).wf(),
        ensures
            final(self).wf(),
            final(self)@ == old(self)@.after_set_current_to(p@),
    {
        if let Some(index) = self.position(p) {
            self.current = index;
        }
    }

    /// Record that `p` is being shown.
    pub fn push(&mut self, p: String)
        requires
            old(self).wf(),
        ensures
            final(self).wf(),
            final(self)@ == old(self)@.after_push(p@),
    {
        let ghost old_model = self@;
        let len: usize = self.buffer.len();
        // Nothing to record if the cursor is already on this image: we got
        // here by replaying history, and the queue already reflects what is
        // on screen.
        if len > 0 && self.buffer[self.current] == p {
            return;
        }
        // The image is in the history but not under the cursor, so a new
        // cycle showed it again: it moves to the most recent slot.
        if let Some(index) = self.position(&p) {
            if index < len - self.in_cycle {
                self.in_cycle = self.in_cycle + 1;
            }
            self.buffer.remove(index);
            self.buffer.push_back(p);
            self.current = len - 1;
            proof {
                let items = old_model.items;
                let i = index as int;
                assert(self@.items =~= items.remove(i).push(p@));
                assert(self@.items.no_duplicates()) by {
                    assert forall|a: int, b: int|
                        0 <= a < self@.items.len() && 0 <= b < self@.items.len() && a != b
                        implies self@.items[a] != self@.items[b] by {
                        if a < len - 1 && b < len - 1 {
                            let ia = if a < i { a } else { a + 1 };
                            let ib = if b < i { b } else { b + 1 };
                            assert(self@.items[a] == items[ia]);
                            assert(self@.items[b] == items[ib]);
                        } else if a < len - 1 {
                            let ia = if a < i { a } else { a + 1 };
                            assert(self@.items[a] == items[ia]);
                            assert(ia != i);
                        } else if b < len - 1 {
                            let ib = if b < i { b } else { b + 1 };
                            assert(self@.items[b] == items[ib]);
                            assert(ib != i);
                        }
                    }
                }
            }
            return;
        }
        if self.is_full() {
            self.buffer.pop_front();
            self.buffer.push_back(p);
            proof {
                let items = old_model.items;
                assert(self@.items =~= items.subrange(1, len as int).push(p@));
                assert(self@.items.no_duplicates()) by {
                    assert forall|a: int, b: int|
                        0 <= a < self@.items.len() && 0 <= b < self@.items.len() && a != b
                        implies self@.items[a] != self@.items[b] by {
                        if a < len - 1 && b < len - 1 {
                            assert(self@.items[a] == items[a + 1]);
                            assert(self@.items[b] == items[b + 1]);
                        } else if a < len - 1 {
                            assert(self@.items[a] == items[a + 1]);
                        } else if b < len - 1 {
                            assert(self@.items[b] == items[b + 1]);
                        }
                    }
                }
            }
        } else {
            self.buffer.push_back(p);
            self.current = len;
            proof {
                let items = old_model.items;
                assert(self@.items =~= items.push(p@));
                assert(self@.items.no_duplicates()) by {
                    assert forall|a: int, b: int|
                        0 <= a < self@.items.len() && 0 <= b < self@.items.len() && a != b
                        implies self@.items[a] != self@.items[b] by {
                        if a < len && b < len {
                            assert(self@.items[a] == items[a]);
                            assert(self@.items[b] == items[b]);
                        } else if a < len {
                            assert(self@.items[a] == items[a]);
                        } else if b < len {
                            assert(self@.items[b] == items[b]);
                        }
                    }
                }
            }
        }
        let new_len: usize = self.buffer.len();
        self.in_cycle = if self.in_cycle < new_len {
            self.in_cycle + 1
        } else {
            new_len
        };
    }

    /// Whether the cursor is on the last slot of the queue.
    pub fn has_reached_end(&self) -> (b: bool)
        requires
            self.wf(),
        ensures
            b == self@.at_tail(),
    {
        self.current == self.tail
    }

    /// Change the capacity. Shrinking drops the oldest images; the cursor
    /// follows the image it was on, or the oldest survivor if that image is
    /// dropped. A capacity of zero is ignored: a queue needs room for one
    /// image.
    pub fn resize(&mut self, new_size: usize)
        requires
            old(self).wf(),
        ensures
            final(self).wf(),
            final(self)@ == old(self)@.after_resize(new_size as nat),
    {
        if new_size == 0 {
            return;
        }
        let ghost old_model = self@;
        let ghost k = old_model.dropped_by_resize(new_size as nat);
        let ghost mut dropped: nat = 0;
        while self.buffer.len() > new_size
            invariant
                old_model.wf(),
                new_size >= 1,
                k == old_model.dropped_by_resize(new_size as nat),
                dropped <= k,
                self.buffer@.len() + dropped == old_model.items.len(),
                self@.items == old_model.items.subrange(dropped as int, old_model.items.len() as int),
                self.current as nat == if old_model.current >= dropped {
                    (old_model.current - dropped) as nat
                } else {
                    0
                },
                self.size == old_model.size,
                self.in_cycle == old_model.in_cycle,
            decreases self.buffer@.len(),
        {
            let ghost before = self.buffer@;
            self.buffer.pop_front();
            assert(self.buffer@ == before.subrange(1, before.len() as int));
            self.current = if self.current > 0 {
                self.current - 1
            } else {
                0
            };
            proof {
                let prev_items = views(before);
                assert(prev_items == old_model.items.subrange(dropped as int, old_model.items.len() as int));
                dropped = dropped + 1;
                assert(self@.items =~= old_model.items.subrange(
                    dropped as int,
                    old_model.items.len() as int,
                )) by {
                    assert forall|j: int| 0 <= j < self@.items.len() implies #[trigger] self@.items[j]
                        == old_model.items[j + dropped] by {
                        assert(self.buffer@[j] == before[j + 1]);
                        assert(prev_items[j + 1] == before[j + 1]@);
                    }
                }
            }
        }
        self.size = new_size;
        self.tail = new_size - 1;
        let len: usize = self.buffer.len();
        self.in_cycle = if self.in_cycle <= len {
            self.in_cycle
        } else {
            len
        };
        proof {
            assert(dropped == k);
            let items = old_model.items;
            assert(self@.items.no_duplicates()) by {
                assert forall|a: int, b: int|
                    0 <= a < self@.items.len() && 0 <= b < self@.items.len() && a != b
                    implies self@.items[a] != self@.items[b] by {
                    assert(self@.items[a] == items[a + k]);
                    assert(self@.items[b] == items[b + k]);
                }
            }
            assert(self@ == old_model.after_resize(new_size as nat));
        }
    }
}

} // verus!
