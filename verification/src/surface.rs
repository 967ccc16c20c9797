//! The state of a display that decides when its wallpaper changes: the
//! automatic change timer, its pause state, and the image being loaded.
//! Times are nanoseconds on a monotonic clock read by the caller; the timer
//! itself lives in the caller's event loop, which performs the commands the
//! state machine returns.

use vstd::prelude::*;

use crate::filelist_cache::FilelistCache;
use crate::image_picker::{
    advanced, after_queue_resize, after_update, after_update_sorting, initial_groups, initial_sorting,
    lemma_advanced_keeps_groups, outcome_of_path, queue_size_of, ImagePickerAction, ImagePicker,
    PickerModel, SortingModel,
};
use crate::wallpaper_groups::GroupModel;
use crate::system::path_is_dir;
use crate::wallpaper_groups::WallpaperGroups;
use crate::wallpaper_info::{Sorting, WallpaperInfo, WallpaperInfoModel};

verus! {

/// Nanoseconds in a second.
pub const NANOS_PER_SEC: u128 = 1_000_000_000;

/// Nanoseconds in a millisecond.
pub const NANOS_PER_MILLI: u128 = 1_000_000;

/// The longest duration that can be held, in nanoseconds.
pub const MAX_DURATION: u128 = 18_446_744_073_709_551_615_999_999_999;

/// The time left of `duration`, in whole seconds, once `elapsed` has passed;
/// `None` when no whole second is left.
pub open spec fn spec_remaining(duration: u128, elapsed: u128) -> Option<u128> {
    let d = duration / NANOS_PER_SEC;
    let e = elapsed / NANOS_PER_SEC;
    if d <= e {
        None
    } else {
        Some(((d - e) * NANOS_PER_SEC) as u128)
    }
}

/// The time left of a timer of `duration` started at `since`, at `now`, in
/// whole seconds: precision is not needed. `None` when no whole second is
/// left.
pub fn remaining_duration(duration: u128, since: u128, now: u128) -> (r: Option<u128>)
    ensures
        r == spec_remaining(duration, if now >= since { (now - since) as u128 } else { 0 }),
        r matches Some(left) ==> 0 < left <= duration,
{
    let elapsed = now.saturating_sub(since);
    // Only whole seconds.
    let d = duration / NANOS_PER_SEC;
    let e = elapsed / NANOS_PER_SEC;
    if d <= e {
        None
    } else {
        proof {
            assert((d - e) * NANOS_PER_SEC <= d * NANOS_PER_SEC) by (nonlinear_arith)
                requires
                    e < d,
            ;
            assert(d * NANOS_PER_SEC <= duration) by (nonlinear_arith)
                requires
                    d == duration / NANOS_PER_SEC,
            ;
            assert((d - e) * NANOS_PER_SEC > 0) by (nonlinear_arith)
                requires
                    e < d,
            ;
        }
        Some((d - e) * NANOS_PER_SEC)
    }
}

/// The automatic change timer of a display.
#[derive(Debug, Copy, Clone, PartialEq, Eq, Structural)]
pub enum EventSource {
    /// No timer.
    NotSet,
    /// A timer of `duration` runs since the time `since`, when the image on
    /// screen changed.
    Running { duration: u128, since: u128 },
    /// The timer is paused with `remaining` left for when it resumes.
    Paused { remaining: u128 },
}

/// What the event loop must do with the timer of a display: remove the
/// current one, and add one that fires after a duration.
#[derive(Debug, Copy, Clone, PartialEq, Eq, Structural)]
pub struct TimerCommand {
    pub remove: bool,
    pub add: Option<u128>,
}

/// Abstract value of a [`Surface`].
pub struct SurfaceModel {
    pub name: Seq<char>,
    pub picker: PickerModel,
    pub event_source: EventSource,
    pub info: WallpaperInfoModel,
    pub window_drawn: bool,
    pub loading_image: Option<(Seq<char>, nat)>,
    pub loading_image_tries: u8,
    pub skip_next_transition: bool,
    pub should_pause: bool,
}

impl SurfaceModel {
    pub open spec fn with_event_source(self, e: EventSource) -> SurfaceModel {
        SurfaceModel { event_source: e, ..self }
    }

    /// The duration of a new timer: the one left, or the configured one
    /// with the transition time added, for a more precise change.
    pub open spec fn timer_duration(self, duration_left: Option<u128>) -> Option<u128> {
        match duration_left {
            Some(d) => Some(d),
            None => match self.info.duration {
                Some(d) => Some((d + self.info.transition_time * NANOS_PER_MILLI) as u128),
                None => None,
            },
        }
    }

    /// The time left before the wallpaper changes, at `now`.
    pub open spec fn remaining_at(self, now: u128) -> Option<u128> {
        match self.event_source {
            EventSource::Running { duration, since } => spec_remaining(
                duration,
                if now >= since {
                    (now - since) as u128
                } else {
                    0
                },
            ),
            EventSource::Paused { remaining } => Some(remaining),
            EventSource::NotSet => None,
        }
    }
}

/// The state of a display that decides when its wallpaper changes.
#[derive(Debug)]
pub struct Surface {
    name: String,
    pub image_picker: ImagePicker,
    event_source: EventSource,
    pub wallpaper_info: WallpaperInfo,
    window_drawn: bool,
    /// The image being loaded, with its index.
    pub loading_image: Option<(String, usize)>,
    loading_image_tries: u8,
    /// Whether the next transition is skipped: the first one is, when the
    /// first wallpaper is shown at once.
    skip_next_transition: bool,
    /// Whether the automatic changes are paused; only an explicit next or
    /// previous command changes the wallpaper then.
    should_pause: bool,
}

/// The abstract value of an optional image with its index.
pub open spec fn loading_view(l: Option<(String, usize)>) -> Option<(Seq<char>, nat)> {
    match l {
        Some((p, i)) => Some((p@, i as nat)),
        None => None,
    }
}

impl View for Surface {
    type V = SurfaceModel;

    closed spec fn view(&self) -> SurfaceModel {
        SurfaceModel {
            name: self.name@,
            picker: self.image_picker@,
            event_source: self.event_source,
            info: self.wallpaper_info@,
            window_drawn: self.window_drawn,
            loading_image: loading_view(self.loading_image),
            loading_image_tries: self.loading_image_tries,
            skip_next_transition: self.skip_next_transition,
            should_pause: self.should_pause,
        }
    }
}

/// The state with the pause asked for when the changes run, and the other
/// way around.
pub open spec fn toggled(s: SurfaceModel) -> SurfaceModel {
    SurfaceModel { should_pause: !s.should_pause, ..s }
}

/// The state and the timer command after acting at `now` on the pause
/// state: a running timer that should pause is removed and its time left
/// kept; a paused one that should run starts again with the time it had
/// left.
pub open spec fn pause_step(s: SurfaceModel, now: u128) -> (SurfaceModel, TimerCommand) {
    if s.should_pause && s.event_source is Running {
        (
            s.with_event_source(EventSource::Paused { remaining: s.remaining_at(now).unwrap() }),
            TimerCommand { remove: true, add: None },
        )
    } else if !s.should_pause && s.event_source is Paused {
        (
            s.with_event_source(
                EventSource::Running { duration: s.event_source->remaining, since: now },
            ),
            TimerCommand { remove: false, add: Some(s.event_source->remaining) },
        )
    } else {
        (s, TimerCommand { remove: false, add: None })
    }
}

/// Toggling the pause twice comes back to where it was.
pub proof fn lemma_toggle_twice(s: SurfaceModel)
    ensures
        toggled(toggled(s)) == s,
{
}

/// Pausing keeps the time left, and resuming later runs a timer for
/// exactly that time, counted from the resume: a pause does not shorten or
/// lengthen the wait for the next wallpaper.
pub proof fn lemma_pause_then_resume(s: SurfaceModel, paused_at: u128, resumed_at: u128)
    requires
        s.should_pause,
        s.event_source is Running,
        s.remaining_at(paused_at) is Some,
    ensures
        pause_step(pause_step(s, paused_at).0, paused_at).0 == pause_step(s, paused_at).0,
        ({
            let paused = pause_step(s, paused_at).0;
            let (resumed, c) = pause_step(toggled(paused), resumed_at);
            &&& paused.remaining_at(resumed_at) == s.remaining_at(paused_at)
            &&& resumed.event_source == EventSource::Running {
                duration: s.remaining_at(paused_at).unwrap(),
                since: resumed_at,
            }
            &&& c == TimerCommand { remove: false, add: s.remaining_at(paused_at) }
        }),
{
}

/// What `status` reports of a display.
pub open spec fn status_text(is_dir: bool, paused: bool) -> Seq<char> {
    if is_dir {
        if paused {
            "paused"@
        } else {
            "running"@
        }
    } else {
        "static"@
    }
}

impl Surface {
    /// The picker is well formed, durations fit in a `Duration`, and fewer
    /// than [`MAX_LOAD_TRIES`] failed loads are counted.
    pub closed spec fn wf(&self) -> bool {
        &&& self.image_picker.wf()
        &&& (self.wallpaper_info.duration matches Some(d) ==> d <= MAX_DURATION)
        &&& self.loading_image_tries < MAX_LOAD_TRIES
    }

    /// The count of failed loads in a row never reaches [`MAX_LOAD_TRIES`]:
    /// it restarts when the display gives up.
    pub proof fn lemma_tries_bounded(&self)
        requires
            self.wf(),
        ensures
            self@.loading_image_tries < MAX_LOAD_TRIES,
    {
    }

    /// The groups are well formed, and hold the group of the display's
    /// picker.
    pub closed spec fn groups_ok(&self, groups: &WallpaperGroups) -> bool {
        self.image_picker.groups_ok(groups)
    }

    /// The name of the display.
    pub fn name(&self) -> (n: String)
        ensures
            n@ == self@.name,
    {
        self.name.clone()
    }

    /// Pause the automatic changes; the event loop acts on it in
    /// [`Surface::handle_pause_state`].
    pub fn pause(&mut self)
        ensures
            final(self)@ == (SurfaceModel { should_pause: true, ..old(self)@ }),
            final(self).wf() == old(self).wf(),
            forall|g: &WallpaperGroups| old(self).groups_ok(g) ==> final(self).groups_ok(g),
    {
        self.should_pause = true;
    }

    /// Resume the automatic changes; the event loop acts on it in
    /// [`Surface::handle_pause_state`].
    pub fn resume(&mut self)
        ensures
            final(self)@ == (SurfaceModel { should_pause: false, ..old(self)@ }),
            final(self).wf() == old(self).wf(),
            forall|g: &WallpaperGroups| old(self).groups_ok(g) ==> final(self).groups_ok(g),
    {
        self.should_pause = false;
    }

    /// Pause the automatic changes when they run, resume them when paused.
    pub fn toggle_pause(&mut self)
        ensures
            final(self)@ == toggled(old(self)@),
            final(self).wf() == old(self).wf(),
            forall|g: &WallpaperGroups| old(self).groups_ok(g) ==> final(self).groups_ok(g),
    {
        if self.should_pause() {
            self.resume();
        } else {
            self.pause();
        }
    }

    /// Whether the automatic changes are to be paused.
    pub fn should_pause(&self) -> (b: bool)
        ensures
            b == self@.should_pause,
    {
        self.should_pause
    }

    /// The status of the display, when its path is a directory (`is_dir`)
    /// or not: `paused` or `running` for a directory, `static` for an image.
    pub fn status_for(&self, is_dir: bool) -> (s: &'static str)
        ensures
            s@ == status_text(is_dir, self@.should_pause),
    {
        if is_dir {
            if self.should_pause {
                "paused"
            } else {
                "running"
            }
        } else {
            "static"
        }
    }

    /// The status of the display, asking the disk whether its path is a
    /// directory.
    pub fn status(&self) -> (s: &'static str)
        ensures
            s@ == status_text(true, self@.should_pause) || s@ == status_text(false, self@.should_pause),
    {
        let is_dir = path_is_dir(&self.wallpaper_info.path);
        self.status_for(is_dir)
    }

    /// The time left before the wallpaper changes, at `now`.
    pub fn get_remaining_duration(&self, now: u128) -> (r: Option<u128>)
        ensures
            r == self@.remaining_at(now),
    {
        match self.event_source {
            EventSource::Running { duration, since } => remaining_duration(duration, since, now),
            EventSource::Paused { remaining } => Some(remaining),
            EventSource::NotSet => None,
        }
    }

    /// Start a timer at `now` for `duration_left`, or else for the
    /// configured duration, unless one runs already or there is no duration;
    /// the duration of the timer to add is returned.
    pub fn add_timer(&mut self, duration_left: Option<u128>, now: u128) -> (added: Option<u128>)
        requires
            old(self).wf(),
        ensures
            final(self).wf(),
            added == if old(self)@.event_source is Running {
                None
            } else {
                old(self)@.timer_duration(duration_left)
            },
            final(self)@ == match added {
                Some(d) => old(self)@.with_event_source(EventSource::Running { duration: d, since: now }),
                None => old(self)@,
            },
    {
        // A timer runs already.
        if let EventSource::Running { .. } = self.event_source {
            return None;
        }
        let duration = match duration_left {
            Some(d) => Some(d),
            // The transition time is added for a more precise duration.
            None => match self.wallpaper_info.duration {
                Some(d) => Some(d + self.wallpaper_info.transition_time as u128 * NANOS_PER_MILLI),
                None => None,
            },
        };
        match duration {
            Some(d) => {
                self.event_source = EventSource::Running { duration: d, since: now };
                Some(d)
            },
            None => None,
        }
    }

    /// Act at `now` on a change of the pause state: a running timer is
    /// removed and its time left kept; a paused one starts again with the
    /// time it had left.
    pub fn handle_pause_state(&mut self, now: u128) -> (c: TimerCommand)
        requires
            old(self).wf(),
            old(self)@.should_pause && old(self)@.event_source is Running ==> old(self)@.remaining_at(
                now,
            ) is Some,
        ensures
            final(self).wf(),
            (final(self)@, c) == pause_step(old(self)@, now),
    {
        match (self.should_pause, self.event_source) {
            (true, EventSource::Running { duration, since }) => {
                // The time left is never zero here.
                let left = remaining_duration(duration, since, now).unwrap();
                self.event_source = EventSource::Paused { remaining: left };
                TimerCommand { remove: true, add: None }
            },
            (false, EventSource::Paused { remaining }) => {
                let added = self.add_timer(Some(remaining), now);
                TimerCommand { remove: false, add: added }
            },
            _ => TimerCommand { remove: false, add: None },
        }
    }
}


/// What the event loop does when the timer of a display fires: drop it, or
/// run it again after `duration`; `next_image` tells whether the wallpaper
/// moved forward and must be drawn.
#[derive(Debug, Copy, Clone, PartialEq, Eq, Structural)]
pub enum TimerFired {
    Drop,
    Reschedule { duration: u128, next_image: bool },
}

/// The time elapsed at `now` since `since`; a clock read before `since`
/// counts as no time.
pub open spec fn elapsed(since: u128, now: u128) -> u128 {
    if now >= since {
        (now - since) as u128
    } else {
        0
    }
}

/// How long the image on screen has been shown with the timer running, at
/// `now`, when the full duration was `old_duration`.
pub open spec fn shown_time(es: EventSource, old_duration: u128, now: u128) -> int {
    match es {
        EventSource::Running { duration, since } => (if old_duration >= duration {
            old_duration - duration
        } else {
            0
        }) + elapsed(since, now),
        EventSource::Paused { remaining } => old_duration - remaining,
        EventSource::NotSet => 0,
    }
}

/// When the duration of a display changes from `od` to `nd` and its path
/// stays, the time the image has already been shown counts against the new
/// duration: with `t` shown so far and `t < nd`, nothing new is loaded, a
/// paused display stays paused with `nd - t` left, and a running one is
/// re-armed for `nd - t` from now.
pub proof fn lemma_duration_change_keeps_shown_time(
    pre: SurfaceModel,
    g: Map<u8, GroupModel>,
    files: Seq<Seq<char>>,
    od: u128,
    nd: u128,
    now: u128,
    post: SurfaceModel,
    g2: Map<u8, GroupModel>,
    c: TimerCommand,
    load: bool,
)
    requires
        pre.info.duration == Some(nd),
        od != nd,
        duration_changed(pre, g, files, Some(od), false, now, post, g2, c, load),
        0 <= shown_time(pre.event_source, od, now) < nd,
    ensures
        !load,
        post.picker == pre.picker,
        g2 == g,
        pre.event_source is Paused ==> post.event_source is Paused && post.event_source->remaining
            + (od - pre.event_source->remaining) == nd,
        pre.event_source is Paused ==> c == (TimerCommand { remove: false, add: None }),
        pre.event_source is Running ==> c.add is Some && c.add->0 + shown_time(pre.event_source, od, now)
            == nd && post.event_source == (EventSource::Running { duration: c.add->0, since: now }),
{
}

/// The state, the picker's groups, the timer command and whether a load
/// must start, after the configured duration of a display changed from
/// `old_duration` to the one in `pre.info`, at `now`; `path_changed` tells
/// whether the display's path changed and a new image was drawn already.
///
/// A removed duration removes the timer. A new one starts a timer, with the
/// transition time added. A changed one counts the time the image has been
/// on screen against the new duration, unless the path changed: when that
/// time is used up, the picker moves forward and the full duration starts
/// again; a running timer is replaced and a paused one keeps the time left.
pub open spec fn duration_changed(
    pre: SurfaceModel,
    g: Map<u8, GroupModel>,
    files: Seq<Seq<char>>,
    old_duration: Option<u128>,
    path_changed: bool,
    now: u128,
    post: SurfaceModel,
    g2: Map<u8, GroupModel>,
    c: TimerCommand,
    load: bool,
) -> bool {
    if pre.info.duration == old_duration {
        post == pre && g2 == g && c == (TimerCommand { remove: false, add: None }) && !load
    } else {
        match (pre.info.duration, old_duration) {
            (Some(nd), Some(od)) => {
                let tp = shown_time(pre.event_source, od, now);
                let advance = !path_changed && nd <= tp;
                let d: u128 = if path_changed || advance {
                    nd
                } else {
                    (nd - tp) as u128
                };
                &&& load == advance
                &&& if advance {
                    advanced(pre.picker, g, pre.info.path, files, post.picker, g2)
                } else {
                    post.picker == pre.picker && g2 == g
                }
                &&& post == (SurfaceModel {
                    picker: post.picker,
                    event_source: match pre.event_source {
                        EventSource::Paused { .. } => EventSource::Paused { remaining: d },
                        _ => EventSource::Running { duration: d, since: now },
                    },
                    ..pre
                })
                &&& c == match pre.event_source {
                    EventSource::Paused { .. } => TimerCommand { remove: false, add: None },
                    _ => TimerCommand { remove: true, add: Some(d) },
                }
            },
            (None, _) => {
                &&& post == pre.with_event_source(EventSource::NotSet)
                &&& g2 == g
                &&& c == (TimerCommand { remove: pre.event_source is Running, add: None })
                &&& !load
            },
            (Some(_), None) => {
                &&& g2 == g
                &&& !load
                &&& if pre.event_source is Running {
                    post == pre && c == (TimerCommand { remove: false, add: None })
                } else {
                    post == pre.with_event_source(
                        EventSource::Running { duration: pre.timer_duration(None).unwrap(), since: now },
                    ) && c == (TimerCommand { remove: false, add: pre.timer_duration(None) })
                }
            },
        }
    }
}

impl Surface {
    /// The timer of the display fired at `now`: a timer with no duration
    /// configured any more is dropped; one that fired early runs again for
    /// the time left; otherwise the picker moves forward and the timer runs
    /// again for the configured duration.
    pub fn timer_fired(&mut self, now: u128, cache: &FilelistCache, groups: &mut WallpaperGroups) -> (r:
        TimerFired)
        requires
            old(self).wf(),
            old(self).groups_ok(old(groups)),
            cache.wf(),
            cache.has_path(old(self)@.info.path),
            !(old(self)@.event_source is Paused),
        ensures
            final(self).wf(),
            final(self).groups_ok(final(groups)),
            match old(self)@.event_source {
                EventSource::Running { duration, since } => if old(self)@.info.duration is None {
                    r == TimerFired::Drop && final(self)@ == old(self)@ && final(groups)@ == old(groups)@
                } else {
                    match spec_remaining(duration, elapsed(since, now)) {
                        Some(left) => {
                            &&& r == (TimerFired::Reschedule { duration: left, next_image: false })
                            &&& final(self)@ == old(self)@.with_event_source(
                                EventSource::Running { duration: left, since: now },
                            )
                            &&& final(groups)@ == old(groups)@
                        },
                        None => {
                            let d = old(self)@.info.duration.unwrap();
                            &&& r == (TimerFired::Reschedule { duration: d, next_image: true })
                            &&& final(self)@ == (SurfaceModel {
                                picker: final(self)@.picker,
                                event_source: EventSource::Running { duration: d, since: now },
                                ..old(self)@
                            })
                            &&& advanced(
                                old(self)@.picker,
                                old(groups)@,
                                old(self)@.info.path,
                                cache.files_of(old(self)@.info.path),
                                final(self)@.picker,
                                final(groups)@,
                            )
                        },
                    }
                },
                _ => r == TimerFired::Drop && final(self)@ == old(self)@ && final(groups)@
                    == old(groups)@,
            },
    {
        match self.event_source {
            EventSource::Running { duration, since } => {
                let configured = match self.wallpaper_info.duration {
                    Some(d) => d,
                    None => {
                        return TimerFired::Drop;
                    },
                };
                // The timer went off before the duration expired: run it
                // again for the time left.
                match remaining_duration(duration, since, now) {
                    Some(left) => {
                        self.event_source = EventSource::Running { duration: left, since: now };
                        TimerFired::Reschedule { duration: left, next_image: false }
                    },
                    None => {
                        self.image_picker.next_image(&self.wallpaper_info.path, cache, groups);
                        self.event_source = EventSource::Running { duration: configured, since: now };
                        TimerFired::Reschedule { duration: configured, next_image: true }
                    },
                }
            },
            _ => TimerFired::Drop,
        }
    }

    /// Follow a change of the configured duration from `old_duration` to
    /// the one now configured, at `now`; `path_changed` tells whether the
    /// path changed and a new image was drawn already. Returns what to do
    /// with the timer, and whether a new wallpaper must be loaded.
    pub fn handle_new_duration(
        &mut self,
        old_duration: Option<u128>,
        path_changed: bool,
        now: u128,
        cache: &FilelistCache,
        groups: &mut WallpaperGroups,
    ) -> (r: (TimerCommand, bool))
        requires
            old(self).wf(),
            old(self).groups_ok(old(groups)),
            cache.wf(),
            cache.has_path(old(self)@.info.path),
            old(self)@.info.duration is Some && old_duration is Some && old(self)@.info.duration
                != old_duration ==> {
                &&& !(old(self)@.event_source is NotSet)
                &&& !path_changed ==> shown_time(
                    old(self)@.event_source,
                    old_duration.unwrap(),
                    now,
                ) <= MAX_DURATION
                &&& !path_changed && old(self)@.event_source is Paused ==> old(
                    self,
                )@.event_source->remaining <= old_duration.unwrap()
            },
        ensures
            final(self).wf(),
            final(self).groups_ok(final(groups)),
            duration_changed(
                old(self)@,
                old(groups)@,
                cache.files_of(old(self)@.info.path),
                old_duration,
                path_changed,
                now,
                final(self)@,
                final(groups)@,
                r.0,
                r.1,
            ),
    {
        let none = TimerCommand { remove: false, add: None };
        if self.wallpaper_info.duration == old_duration {
            return (none, false);
        }
        match (self.wallpaper_info.duration, old_duration) {
            (Some(new_duration), Some(old_full)) => {
                let mut load = false;
                let duration = if !path_changed {
                    // The image on screen stays: count the time it was shown
                    // with the timer running.
                    let time_passed: u128 = match self.event_source {
                        EventSource::Running { duration, since } => old_full.saturating_sub(duration)
                            + now.saturating_sub(since),
                        EventSource::Paused { remaining } => old_full - remaining,
                        EventSource::NotSet => 0,
                    };
                    let left = new_duration.saturating_sub(time_passed);
                    if left == 0 {
                        // Shown for the new duration already.
                        self.image_picker.next_image(&self.wallpaper_info.path, cache, groups);
                        load = true;
                        new_duration
                    } else {
                        left
                    }
                } else {
                    // A new image was drawn: the timer starts over.
                    new_duration
                };
                match self.event_source {
                    EventSource::Paused { .. } => {
                        self.event_source = EventSource::Paused { remaining: duration };
                        (none, load)
                    },
                    _ => {
                        // Replace the running timer.
                        self.event_source = EventSource::NotSet;
                        let added = self.add_timer(Some(duration), now);
                        (TimerCommand { remove: true, add: added }, load)
                    },
                }
            },
            (None, _) => {
                // The duration was removed.
                let remove = match self.event_source {
                    EventSource::Running { .. } => true,
                    _ => false,
                };
                self.event_source = EventSource::NotSet;
                (TimerCommand { remove, add: None }, false)
            },
            (Some(_), None) => {
                // A duration was added: the configured one is picked up.
                let added = self.add_timer(None, now);
                (TimerCommand { remove: false, add: added }, false)
            },
        }
    }
}


/// The next step of loading a wallpaper: nothing to load, or ask the image
/// loader for `path`, the image at `index`.
#[derive(Debug)]
pub enum LoadStep {
    Ready,
    Load { path: String, index: usize },
}

/// What the image loader answered.
#[derive(Debug, Copy, Clone, PartialEq, Eq, Structural)]
pub enum LoaderStatus {
    /// The image is loaded and was handed to the renderer.
    Loaded,
    /// The image is still being loaded.
    Waiting,
    /// The image could not be loaded.
    Error,
}

/// What follows an answer of the image loader.
#[derive(Debug, Copy, Clone, PartialEq, Eq, Structural)]
pub enum LoadOutcome {
    /// The image is in the renderer. When it became the image on screen,
    /// `transition_time` is the time, in milliseconds, of the transition to
    /// start; `None` after a reload, or without an event loop to time the
    /// transition.
    Shown { transition_time: Option<u32> },
    /// Wait for the loader.
    Waiting,
    /// The image failed: ask for the next step again.
    Retry,
    /// The image failed too many times in a row.
    GaveUp,
}

/// How many loads in a row may fail before giving up.
pub const MAX_LOAD_TRIES: u8 = 5;

/// The abstract value of a load step.
pub open spec fn step_view(s: LoadStep) -> Option<(Seq<char>, nat)> {
    match s {
        LoadStep::Ready => None,
        LoadStep::Load { path, index } => Some((path@, index as nat)),
    }
}

/// The next step of loading a wallpaper, when the renderer runs a
/// transition (`transition_running`) or not: when no image is being loaded,
/// the picker is asked for one, and an image that is already on screen is
/// not loaded again unless a reload is asked for; a running transition
/// makes the load wait.
pub open spec fn load_step(
    pre: SurfaceModel,
    g: Map<u8, GroupModel>,
    files: Seq<Seq<char>>,
    transition_running: bool,
    post: SurfaceModel,
    g2: Map<u8, GroupModel>,
    step: Option<(Seq<char>, nat)>,
) -> bool {
    match pre.loading_image {
        Some(item) => post == pre && g2 == g && step == if transition_running {
            None
        } else {
            Some(item)
        },
        None => exists|r: Option<(Seq<char>, nat)>|
            #[trigger] outcome_of_path(pre.picker, g, pre.info.path, files, post.picker, g2, r) && match r {
                None => post == (SurfaceModel { picker: post.picker, ..pre }) && step is None,
                Some(item) => if item.0 == post.picker.current_img && !post.picker.reload {
                    post == (SurfaceModel { picker: post.picker, ..pre }) && step is None
                } else {
                    post == (SurfaceModel { picker: post.picker, loading_image: Some(item), ..pre })
                        && step == if transition_running {
                        None
                    } else {
                        Some(item)
                    }
                },
            },
    }
}

impl Surface {
    /// The next step of loading a wallpaper; `transition_running` tells
    /// whether the renderer runs a transition.
    pub fn next_load(
        &mut self,
        transition_running: bool,
        cache: &FilelistCache,
        groups: &mut WallpaperGroups,
    ) -> (step: LoadStep)
        requires
            old(self).wf(),
            old(self).groups_ok(old(groups)),
            cache.wf(),
            cache.has_path(old(self)@.info.path),
        ensures
            final(self).wf(),
            final(self).groups_ok(final(groups)),
            load_step(
                old(self)@,
                old(groups)@,
                cache.files_of(old(self)@.info.path),
                transition_running,
                final(self)@,
                final(groups)@,
                step_view(step),
            ),
    {
        if self.loading_image.is_none() {
            let found = self.image_picker.get_image_from_path(&self.wallpaper_info.path, cache, groups);
            proof {
                assert(outcome_of_path(
                    old(self)@.picker,
                    old(groups)@,
                    old(self)@.info.path,
                    cache.files_of(old(self)@.info.path),
                    self@.picker,
                    groups@,
                    crate::image_picker::found_view(found),
                ));
            }
            match found {
                Some(item) => {
                    if self.image_picker.current_image() == item.0 && !self.image_picker.is_reloading() {
                        return LoadStep::Ready;
                    }
                    self.loading_image = Some(item);
                },
                None => {
                    // Nothing to load.
                    return LoadStep::Ready;
                },
            }
        }
        // Wait for the transition to end.
        if transition_running {
            return LoadStep::Ready;
        }
        match &self.loading_image {
            Some((path, index)) => LoadStep::Load { path: path.clone(), index: *index },
            None => LoadStep::Ready,
        }
    }

    /// Show `image_path`, the image at `index`, at `now`: the picker records
    /// it and a running timer counts from now. Returns the time of the
    /// transition to start: none for the first image when it is shown at
    /// once.
    pub fn setup_drawing_image(
        &mut self,
        image_path: String,
        index: usize,
        now: u128,
        groups: &mut WallpaperGroups,
    ) -> (transition_time: u32)
        requires
            old(self).wf(),
            old(self).groups_ok(old(groups)),
        ensures
            final(self).wf(),
            final(self).groups_ok(final(groups)),
            transition_time == if old(self)@.skip_next_transition {
                0
            } else {
                old(self)@.info.transition_time
            },
            (final(self)@.picker, final(groups)@) == after_update(
                old(self)@.picker,
                old(groups)@,
                image_path@,
                index as nat,
            ),
            final(self)@ == (SurfaceModel {
                picker: final(self)@.picker,
                skip_next_transition: false,
                event_source: match old(self)@.event_source {
                    EventSource::Running { duration, .. } => EventSource::Running { duration, since: now },
                    e => e,
                },
                ..old(self)@
            }),
    {
        let transition_time = if self.skip_next_transition {
            0
        } else {
            self.wallpaper_info.transition_time
        };
        self.skip_next_transition = false;
        self.image_picker.update_current_image(image_path, index, groups);
        // The image on screen changed now.
        if let EventSource::Running { duration, .. } = self.event_source {
            self.event_source = EventSource::Running { duration, since: now };
        }
        transition_time
    }

    /// Follow the answer `status` of the image loader for the image being
    /// loaded, at `now`; `has_handle` tells whether an event loop can time
    /// the transition.
    pub fn load_finished(
        &mut self,
        status: LoaderStatus,
        has_handle: bool,
        now: u128,
        groups: &mut WallpaperGroups,
    ) -> (r: LoadOutcome)
        requires
            old(self).wf(),
            old(self).groups_ok(old(groups)),
            old(self)@.loading_image is Some,
        ensures
            final(self).wf(),
            final(self).groups_ok(final(groups)),
            match status {
                LoaderStatus::Waiting => r == LoadOutcome::Waiting && final(self)@ == old(self)@
                    && final(groups)@ == old(groups)@,
                LoaderStatus::Error => {
                    let tries = old(self)@.loading_image_tries + 1;
                    let gave_up = tries >= MAX_LOAD_TRIES;
                    &&& final(self)@ == (SurfaceModel {
                        loading_image: None,
                        loading_image_tries: if gave_up {
                            0
                        } else {
                            tries as u8
                        },
                        ..old(self)@
                    })
                    &&& final(groups)@ == old(groups)@
                    &&& r == if gave_up {
                        LoadOutcome::GaveUp
                    } else {
                        LoadOutcome::Retry
                    }
                },
                LoaderStatus::Loaded => {
                    let (path, index) = old(self)@.loading_image.unwrap();
                    let done = SurfaceModel {
                        loading_image: None,
                        loading_image_tries: 0,
                        ..old(self)@
                    };
                    if old(self)@.picker.reload {
                        &&& final(self)@ == (SurfaceModel {
                            picker: PickerModel { reload: false, ..old(self)@.picker },
                            ..done
                        })
                        &&& final(groups)@ == old(groups)@
                        &&& r == (LoadOutcome::Shown { transition_time: None })
                    } else if has_handle {
                        let t = if old(self)@.skip_next_transition {
                            0
                        } else {
                            old(self)@.info.transition_time
                        };
                        &&& (final(self)@.picker, final(groups)@) == after_update(
                            old(self)@.picker,
                            old(groups)@,
                            path,
                            index,
                        )
                        &&& final(self)@ == (SurfaceModel {
                            picker: final(self)@.picker,
                            skip_next_transition: false,
                            event_source: match old(self)@.event_source {
                                EventSource::Running { duration, .. } => EventSource::Running {
                                    duration,
                                    since: now,
                                },
                                e => e,
                            },
                            ..done
                        })
                        &&& r == (LoadOutcome::Shown { transition_time: Some(t) })
                    } else {
                        &&& final(self)@ == done
                        &&& final(groups)@ == old(groups)@
                        &&& r == (LoadOutcome::Shown { transition_time: None })
                    }
                },
            },
    {
        match status {
            LoaderStatus::Loaded => {
                let mut shown: Option<u32> = None;
                if self.image_picker.is_reloading() {
                    self.image_picker.reloaded();
                } else if has_handle {
                    match &self.loading_image {
                        Some((path, index)) => {
                            let p = path.clone();
                            let i = *index;
                            shown = Some(self.setup_drawing_image(p, i, now, groups));
                        },
                        None => {},
                    }
                }
                // Restart the counter.
                self.loading_image_tries = 0;
                self.loading_image = None;
                LoadOutcome::Shown { transition_time: shown }
            },
            LoaderStatus::Waiting => LoadOutcome::Waiting,
            LoaderStatus::Error => {
                // Do not try too many times; once given up, the count
                // starts again for the next load.
                self.loading_image = None;
                if self.loading_image_tries + 1 < MAX_LOAD_TRIES {
                    self.loading_image_tries = self.loading_image_tries + 1;
                    LoadOutcome::Retry
                } else {
                    self.loading_image_tries = 0;
                    LoadOutcome::GaveUp
                }
            },
        }
    }
}


/// `p` is `dir` or lies inside it, comparing whole path components.
pub open spec fn path_within(p: Seq<char>, dir: Seq<char>) -> bool {
    ||| p == dir
    ||| (p.len() > dir.len() && p.take(dir.len() as int) == dir && ((dir.len() > 0 && dir.last()
        == '/') || p[dir.len() as int] == '/'))
}

/// The path of a display moved to a directory `new` (`new_is_dir`) that
/// does not hold the old path `old`.
pub open spec fn path_moved(old: Seq<char>, new: Seq<char>, new_is_dir: bool) -> bool {
    old != new && new_is_dir && !path_within(old, new)
}

/// Whether `p` is `dir` or lies inside it.
fn is_within(p: &String, dir: &String) -> (b: bool)
    ensures
        b == path_within(p@, dir@),
{
    if *p == *dir {
        return true;
    }
    let pl = p.as_str().unicode_len();
    let dl = dir.as_str().unicode_len();
    if pl <= dl {
        return false;
    }
    let mut i: usize = 0;
    while i < dl
        invariant
            i <= dl,
            dl == dir@.len(),
            pl == p@.len(),
            dl < pl,
            forall|j: int| 0 <= j < i ==> p@[j] == dir@[j],
        decreases dl - i,
    {
        if p.as_str().get_char(i) != dir.as_str().get_char(i) {
            return false;
        }
        i += 1;
    }
    proof {
        assert(p@.take(dl as int) =~= dir@);
    }
    (dl > 0 && dir.as_str().get_char(dl - 1) == '/') || p.as_str().get_char(dl) == '/'
}

/// What the event loop must do after the settings of a display changed.
#[derive(Debug, Copy, Clone, PartialEq, Eq, Structural)]
pub struct UpdateActions {
    /// The settings changed: the display must be drawn again, loading the
    /// next step of its wallpaper.
    pub changed: bool,
    pub timer: TimerCommand,
    /// A new wallpaper must be loaded now.
    pub load: bool,
    /// The renderer must apply the new mode and offset.
    pub set_mode: bool,
    /// The display must be drawn at once.
    pub draw_now: bool,
    /// The renderer must use the new transition.
    pub update_transition: bool,
    /// The renderer must use this new transition time.
    pub transition_time: Option<u32>,
}

/// The picker of display `name` follows the new settings `new_info`: it
/// takes the new sorting, and moves forward when the path moved (`pc`).
pub open spec fn picker_follows(
    pre: PickerModel,
    g: Map<u8, GroupModel>,
    new_info: WallpaperInfoModel,
    files: Seq<Seq<char>>,
    name: Seq<char>,
    pc: bool,
    post: PickerModel,
    g2: Map<u8, GroupModel>,
) -> bool {
    let (sorting, g1) = after_update_sorting(pre, g, new_info, files.len(), name, pc);
    let p1 = pre.with_sorting(sorting);
    if pc {
        advanced(p1, g1, new_info.path, files, post, g2)
    } else {
        post == p1 && g2 == g1
    }
}

/// The steps of a change of settings to `new_info`, with `pc` telling
/// whether the path moved: the picker follows the new sorting, moves
/// forward on a moved path, the timer follows the new duration, and the
/// history follows the new size.
pub open spec fn update_steps(
    pre: SurfaceModel,
    g: Map<u8, GroupModel>,
    new_info: WallpaperInfoModel,
    files: Seq<Seq<char>>,
    pc: bool,
    now: u128,
    p2: PickerModel,
    g2: Map<u8, GroupModel>,
    s3: SurfaceModel,
    g3: Map<u8, GroupModel>,
    post: SurfaceModel,
    g4: Map<u8, GroupModel>,
    a: UpdateActions,
) -> bool {
    &&& picker_follows(pre.picker, g, new_info, files, pre.name, pc, p2, g2)
    &&& duration_changed(
        SurfaceModel { picker: p2, info: new_info, ..pre },
        g2,
        files,
        pre.info.duration,
        pc,
        now,
        s3,
        g3,
        a.timer,
        a.load,
    )
    &&& if pre.info.drawn_images_queue_size != new_info.drawn_images_queue_size {
        (post.picker, g4) == after_queue_resize(s3.picker, g3, queue_size_of(new_info)) && post == (
        SurfaceModel { picker: post.picker, ..s3 })
    } else {
        post == s3 && g4 == g3
    }
    &&& a.changed
    &&& a.set_mode == (pre.info.mode != new_info.mode || pre.info.offset != new_info.offset)
    &&& a.draw_now == (a.set_mode && !pc)
    &&& a.update_transition == (pre.info.transition != new_info.transition)
    &&& a.transition_time == if pre.info.transition_time != new_info.transition_time {
        Some(new_info.transition_time)
    } else {
        None
    }
}

/// The state after the settings of a display changed to `new_info` at
/// `now`, when the new path is a directory (`is_dir`) or not.
pub open spec fn info_updated(
    pre: SurfaceModel,
    g: Map<u8, GroupModel>,
    new_info: WallpaperInfoModel,
    files: Seq<Seq<char>>,
    is_dir: bool,
    now: u128,
    post: SurfaceModel,
    g4: Map<u8, GroupModel>,
    a: UpdateActions,
) -> bool {
    if pre.info == new_info {
        post == pre && g4 == g && a == (UpdateActions {
            changed: false,
            timer: TimerCommand { remove: false, add: None },
            load: false,
            set_mode: false,
            draw_now: false,
            update_transition: false,
            transition_time: None,
        })
    } else {
        exists|p2: PickerModel, g2: Map<u8, GroupModel>, s3: SurfaceModel, g3: Map<u8, GroupModel>|
            #[trigger] update_steps(
                pre,
                g,
                new_info,
                files,
                path_moved(pre.info.path, new_info.path, is_dir),
                now,
                p2,
                g2,
                s3,
                g3,
                post,
                g4,
                a,
            )
    }
}

impl Surface {
    /// The state of display `name` with the settings `info`: its picker
    /// joins its group, if any; no timer, no pause, nothing drawn or being
    /// loaded; the first transition is skipped when the first wallpaper is
    /// to be shown at once.
    pub fn new(name: String, info: WallpaperInfo, cache: &FilelistCache, groups: &mut WallpaperGroups) -> (s:
        Surface)
        requires
            cache.wf(),
            cache.has_path(info@.path),
            old(groups).wf(),
            info@.sorting == Some(Sorting::Ascending) ==> cache.files_of(info@.path).len() > 0,
            info@.duration matches Some(d) ==> d <= MAX_DURATION,
        ensures
            s.wf(),
            s.groups_ok(final(groups)),
            s@ == (SurfaceModel {
                name: name@,
                picker: PickerModel {
                    current_img: Seq::empty(),
                    action: Some(ImagePickerAction::Next),
                    sorting: initial_sorting(info@, cache.files_of(info@.path).len(), name@),
                    reload: false,
                },
                event_source: EventSource::NotSet,
                info: info@,
                window_drawn: false,
                loading_image: None,
                loading_image_tries: 0,
                skip_next_transition: !info@.initial_transition,
                should_pause: false,
            }),
            final(groups)@ == initial_groups(old(groups)@, info@, name@),
    {
        let image_picker = ImagePicker::new(&info, &name, cache, groups);
        let skip_next_transition = !info.initial_transition;
        Surface {
            name,
            image_picker,
            event_source: EventSource::NotSet,
            wallpaper_info: info,
            window_drawn: false,
            loading_image: None,
            loading_image_tries: 0,
            skip_next_transition,
            should_pause: false,
        }
    }

    /// Whether the display has been drawn once.
    pub fn has_been_drawn(&self) -> (b: bool)
        ensures
            b == self@.window_drawn,
    {
        self.window_drawn
    }

    /// The display has been drawn.
    pub fn drawn(&mut self)
        ensures
            final(self)@ == (SurfaceModel { window_drawn: true, ..old(self)@ }),
            final(self).wf() == old(self).wf(),
    {
        self.window_drawn = true;
    }

    /// The picker follows the sorting of the settings held now, and moves
    /// forward when the path moved.
    fn follow_sorting(&mut self, path_changed: bool, cache: &FilelistCache, groups: &mut WallpaperGroups)
        requires
            old(self).wf(),
            old(self).groups_ok(old(groups)),
            cache.wf(),
            cache.has_path(old(self)@.info.path),
            old(self)@.info.sorting == Some(Sorting::Ascending) ==> cache.files_of(old(self)@.info.path).len() > 0,
        ensures
            final(self).wf(),
            final(self).groups_ok(final(groups)),
            final(self)@ == (SurfaceModel { picker: final(self)@.picker, ..old(self)@ }),
            picker_follows(
                old(self)@.picker,
                old(groups)@,
                old(self)@.info,
                cache.files_of(old(self)@.info.path),
                old(self)@.name,
                path_changed,
                final(self)@.picker,
                final(groups)@,
            ),
    {
        self.image_picker.update_sorting(&self.wallpaper_info, &self.name, path_changed, cache, groups);
        if path_changed {
            // Pick an image from the new path.
            self.image_picker.next_image(&self.wallpaper_info.path, cache, groups);
        }
    }

    /// Follow a change of the settings to `new_info` at `now`, when the new
    /// path is a directory (`is_dir`) or not.
    #[verifier::rlimit(40)]
    pub fn update_wallpaper_info_with(
        &mut self,
        new_info: WallpaperInfo,
        is_dir: bool,
        now: u128,
        cache: &FilelistCache,
        groups: &mut WallpaperGroups,
    ) -> (a: UpdateActions)
        requires
            old(self).wf(),
            old(self).groups_ok(old(groups)),
            cache.wf(),
            cache.has_path(new_info@.path),
            new_info@.sorting == Some(Sorting::Ascending) ==> cache.files_of(new_info@.path).len() > 0,
            new_info@.duration matches Some(d) ==> d <= MAX_DURATION,
            new_info@.duration is Some && old(self)@.info.duration is Some && new_info@.duration != old(
                self,
            )@.info.duration ==> {
                &&& !(old(self)@.event_source is NotSet)
                &&& shown_time(old(self)@.event_source, old(self)@.info.duration.unwrap(), now) <= MAX_DURATION
                &&& old(self)@.event_source is Paused ==> old(self)@.event_source->remaining <= old(
                    self,
                )@.info.duration.unwrap()
            },
        ensures
            final(self).wf(),
            final(self).groups_ok(final(groups)),
            info_updated(
                old(self)@,
                old(groups)@,
                new_info@,
                cache.files_of(new_info@.path),
                is_dir,
                now,
                final(self)@,
                final(groups)@,
                a,
            ),
    {
        if self.wallpaper_info.same_as(&new_info) {
            return UpdateActions {
                changed: false,
                timer: TimerCommand { remove: false, add: None },
                load: false,
                set_mode: false,
                draw_now: false,
                update_transition: false,
                transition_time: None,
            };
        }
        let ghost pre = self@;
        let ghost g = groups@;
        let ghost files = cache.files_of(new_info@.path);
        let mut old_info = new_info;
        std::mem::swap(&mut self.wallpaper_info, &mut old_info);
        assert(old_info@ == pre.info);
        assert(self@ == (SurfaceModel { info: new_info@, ..pre }));
        // The path moved to a directory that does not hold the old one.
        let path_changed = old_info.path != self.wallpaper_info.path && is_dir && !is_within(
            &old_info.path,
            &self.wallpaper_info.path,
        );
        assert(path_changed == path_moved(pre.info.path, new_info@.path, is_dir));
        self.follow_sorting(path_changed, cache, groups);
        let ghost p2 = self@.picker;
        let ghost g2 = groups@;
        let (timer, load) = self.handle_new_duration(old_info.duration, path_changed, now, cache, groups);
        let ghost s3 = self@;
        let ghost g3 = groups@;
        if old_info.drawn_images_queue_size != self.wallpaper_info.drawn_images_queue_size {
            self.image_picker.update_queue_size(&self.wallpaper_info, cache, groups);
        }
        let set_mode = old_info.mode != self.wallpaper_info.mode || old_info.offset
            != self.wallpaper_info.offset;
        let a = UpdateActions {
            changed: true,
            timer,
            load,
            set_mode,
            draw_now: set_mode && !path_changed,
            update_transition: !old_info.transition.same_as(&self.wallpaper_info.transition),
            transition_time: if old_info.transition_time != self.wallpaper_info.transition_time {
                Some(self.wallpaper_info.transition_time)
            } else {
                None
            },
        };
        proof {
            assert(update_steps(
                pre,
                g,
                new_info@,
                cache.files_of(new_info@.path),
                path_changed,
                now,
                p2,
                g2,
                s3,
                g3,
                self@,
                groups@,
                a,
            ));
        }
        a
    }

    /// Follow a change of the settings to `new_info` at `now`, asking the
    /// disk whether the new path is a directory.
    pub fn update_wallpaper_info(
        &mut self,
        new_info: WallpaperInfo,
        now: u128,
        cache: &FilelistCache,
        groups: &mut WallpaperGroups,
    ) -> (a: UpdateActions)
        requires
            old(self).wf(),
            old(self).groups_ok(old(groups)),
            cache.wf(),
            cache.has_path(new_info@.path),
            new_info@.sorting == Some(Sorting::Ascending) ==> cache.files_of(new_info@.path).len() > 0,
            new_info@.duration matches Some(d) ==> d <= MAX_DURATION,
            new_info@.duration is Some && old(self)@.info.duration is Some && new_info@.duration != old(
                self,
            )@.info.duration ==> {
                &&& !(old(self)@.event_source is NotSet)
                &&& shown_time(old(self)@.event_source, old(self)@.info.duration.unwrap(), now) <= MAX_DURATION
                &&& old(self)@.event_source is Paused ==> old(self)@.event_source->remaining <= old(
                    self,
                )@.info.duration.unwrap()
            },
        ensures
            final(self).wf(),
            final(self).groups_ok(final(groups)),
            info_updated(
                old(self)@,
                old(groups)@,
                new_info@,
                cache.files_of(new_info@.path),
                true,
                now,
                final(self)@,
                final(groups)@,
                a,
            ) || info_updated(
                old(self)@,
                old(groups)@,
                new_info@,
                cache.files_of(new_info@.path),
                false,
                now,
                final(self)@,
                final(groups)@,
                a,
            ),
    {
        let is_dir = path_is_dir(&new_info.path);
        self.update_wallpaper_info_with(new_info, is_dir, now, cache, groups)
    }
}


impl Surface {
    /// The groups stay fit for the display when they keep the same group
    /// numbers and stay well formed.
    pub proof fn lemma_groups_ok_transfer(&self, g1: &WallpaperGroups, g2: &WallpaperGroups)
        requires
            self.groups_ok(g1),
            g2.wf(),
            g2@.dom() == g1@.dom(),
        ensures
            self.groups_ok(g2),
    {
        if let SortingModel::GroupedRandom { group, .. } = self@.picker.sorting {
            assert(g1@.contains_key(group));
            assert(g1@.dom().contains(group));
        }
    }

    /// Groups that fit the display are well formed.
    pub proof fn lemma_groups_ok_wf(&self, g: &WallpaperGroups)
        requires
            self.groups_ok(g),
        ensures
            g.wf(),
    {
    }

    /// The image on screen.
    pub fn current_image(&self) -> (p: String)
        ensures
            p@ == self@.picker.current_img,
    {
        self.image_picker.current_image()
    }

    /// Go back to the previous image at the next pick.
    pub fn previous_image(&mut self)
        requires
            old(self).wf(),
        ensures
            final(self).wf(),
            final(self)@ == (SurfaceModel {
                picker: old(self)@.picker.with_action(Some(ImagePickerAction::Previous)),
                ..old(self)@
            }),
            forall|g: &WallpaperGroups| old(self).groups_ok(g) ==> final(self).groups_ok(g),
    {
        self.image_picker.previous_image();
    }

    /// Move forward to the next image of the display's path.
    pub fn next_image(&mut self, cache: &FilelistCache, groups: &mut WallpaperGroups)
        requires
            old(self).wf(),
            old(self).groups_ok(old(groups)),
            cache.wf(),
            cache.has_path(old(self)@.info.path),
        ensures
            final(self).wf(),
            final(self).groups_ok(final(groups)),
            final(self)@ == (SurfaceModel { picker: final(self)@.picker, ..old(self)@ }),
            advanced(
                old(self)@.picker,
                old(groups)@,
                old(self)@.info.path,
                cache.files_of(old(self)@.info.path),
                final(self)@.picker,
                final(groups)@,
            ),
            final(groups)@.dom() == old(groups)@.dom(),
    {
        self.image_picker.next_image(&self.wallpaper_info.path, cache, groups);
        proof {
            lemma_advanced_keeps_groups(
                old(self)@.picker,
                old(groups)@,
                old(self)@.info.path,
                cache.files_of(old(self)@.info.path),
                self@.picker,
                groups@,
            );
        }
    }

    /// Show the image on screen again, even when the pick does not change.
    pub fn reload(&mut self)
        requires
            old(self).wf(),
        ensures
            final(self).wf(),
            final(self)@ == (SurfaceModel {
                picker: PickerModel { reload: true, ..old(self)@.picker },
                ..old(self)@
            }),
            forall|g: &WallpaperGroups| old(self).groups_ok(g) ==> final(self).groups_ok(g),
    {
        self.image_picker.reload();
    }

    /// Load `path` next, as the image at index 0, in place of a pick.
    pub fn set_image(&mut self, path: String)
        ensures
            final(self)@ == (SurfaceModel { loading_image: Some((path@, 0nat)), ..old(self)@ }),
            final(self).wf() == old(self).wf(),
            forall|g: &WallpaperGroups| old(self).groups_ok(g) ==> final(self).groups_ok(g),
    {
        self.loading_image = Some((path, 0));
    }
}


/// What drawing a frame of a display does.
#[derive(Debug, Copy, Clone, PartialEq, Eq, Structural)]
pub struct DrawActions {
    /// Ask the compositor for another frame.
    pub request_frame: bool,
    /// The transition has had its time: end it.
    pub finish_transition: bool,
    /// Draw the wallpaper before committing; when false, only commit.
    pub draw: bool,
}

/// How a frame is drawn: while a transition runs (`transition_running`),
/// another frame is asked for as long as it still runs at this frame's time
/// (`still_running`), else it ends, and the frame is drawn; while an image
/// is being loaded (`loading`), another frame is asked for and the frame is
/// drawn only if nothing has been drawn yet (`window_drawn`); otherwise the
/// frame is drawn.
pub open spec fn draw_decision(
    transition_running: bool,
    still_running: bool,
    loading: bool,
    window_drawn: bool,
) -> DrawActions {
    if transition_running {
        DrawActions { request_frame: still_running, finish_transition: !still_running, draw: true }
    } else if loading {
        DrawActions { request_frame: true, finish_transition: false, draw: !window_drawn }
    } else {
        DrawActions { request_frame: false, finish_transition: false, draw: true }
    }
}

impl Surface {
    /// What drawing a frame does now: `transition_running` tells whether a
    /// transition was running, and `still_running` whether it still runs at
    /// this frame's time.
    pub fn draw_actions(&self, transition_running: bool, still_running: bool) -> (a: DrawActions)
        ensures
            a == draw_decision(
                transition_running,
                still_running,
                self@.loading_image is Some,
                self@.window_drawn,
            ),
    {
        if transition_running {
            DrawActions { request_frame: still_running, finish_transition: !still_running, draw: true }
        } else if self.loading_image.is_some() {
            DrawActions { request_frame: true, finish_transition: false, draw: !self.window_drawn }
        } else {
            DrawActions { request_frame: false, finish_transition: false, draw: true }
        }
    }
}

/// What the event loop does when the timer of a transition fires.
#[derive(Debug, Copy, Clone, PartialEq, Eq, Structural)]
pub enum TransitionTimer {
    /// The transition has had its time: end it and drop the timer.
    Finished,
    /// Fire again after this many nanoseconds.
    Reschedule(u128),
    /// No image is timed: drop the timer.
    Drop,
}

impl Surface {
    /// The timer of a transition of `transition_time` milliseconds fired at
    /// `now`: once the transition has had its time since the image changed,
    /// it ends; until then the timer fires again for the time left.
    pub fn transition_timer_fired(&self, transition_time: u32, now: u128) -> (r: TransitionTimer)
        ensures
            r == match self@.event_source {
                EventSource::Running { since, .. } => {
                    let full = transition_time * NANOS_PER_MILLI;
                    if full <= elapsed(since, now) {
                        TransitionTimer::Finished
                    } else {
                        TransitionTimer::Reschedule((full - elapsed(since, now)) as u128)
                    }
                },
                _ => TransitionTimer::Drop,
            },
    {
        match self.event_source {
            EventSource::Running { since, .. } => {
                let full = transition_time as u128 * NANOS_PER_MILLI;
                let left = full.saturating_sub(now.saturating_sub(since));
                if left == 0 {
                    TransitionTimer::Finished
                } else {
                    TransitionTimer::Reschedule(left)
                }
            },
            _ => TransitionTimer::Drop,
        }
    }
}

} // verus!
