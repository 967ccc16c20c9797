//! The messages between `wpaperctl` and the daemon, and how the daemon
//! answers them.

use vstd::prelude::*;

use crate::filelist_cache::FilelistCache;
use crate::surface::{status_text, Surface, SurfaceModel};
use crate::system::{path_exists, path_is_file};
use crate::wallpaper_groups::{GroupModel, WallpaperGroups};
use crate::image_picker::{advanced, ImagePickerAction, PickerModel};
use crate::{contains_str, views};

verus! {

/// A request of `wpaperctl`. An empty list of monitors means every display.
#[derive(Debug)]
pub enum IpcMessage {
    CurrentWallpaper { monitor: String },
    NextWallpaper { monitors: Vec<String> },
    PreviousWallpaper { monitors: Vec<String> },
    PauseWallpaper { monitors: Vec<String> },
    ResumeWallpaper { monitors: Vec<String> },
    TogglePauseWallpaper { monitors: Vec<String> },
    AllWallpapers,
    ReloadWallpaper { monitors: Vec<String> },
    GetStatus { monitors: Vec<String> },
    SetWallpaper { monitor: String, wallpaper: String },
}

/// The answer to a request that succeeded. Durations are in nanoseconds.
#[derive(Debug)]
#[allow(inconsistent_fields)]
pub enum IpcResponse {
    CurrentWallpaper { path: String },
    AllWallpapers { entries: Vec<(String, String)> },
    DisplaysStatus { entries: Vec<(String, String, Option<u128>)> },
    Success,
}

/// Why a request failed.
#[derive(Debug)]
pub enum IpcError {
    MonitorNotFound { monitor: String },
    /// For each display, what went wrong.
    DrawErrors(Vec<(String, String)>),
}

/// Abstract value of an [`IpcResponse`].
#[allow(inconsistent_fields)]
pub enum ResponseModel {
    CurrentWallpaper { path: Seq<char> },
    AllWallpapers { entries: Seq<(Seq<char>, Seq<char>)> },
    DisplaysStatus { entries: Seq<(Seq<char>, Seq<char>, Option<u128>)> },
    Success,
}

/// Abstract value of an [`IpcError`].
pub enum ErrorModel {
    MonitorNotFound { monitor: Seq<char> },
    DrawErrors(Seq<(Seq<char>, Seq<char>)>),
}

/// The texts of pairs of strings.
pub open spec fn pairs_view(v: Seq<(String, String)>) -> Seq<(Seq<char>, Seq<char>)> {
    v.map_values(|e: (String, String)| (e.0@, e.1@))
}

/// The values of status entries.
pub open spec fn status_view(v: Seq<(String, String, Option<u128>)>) -> Seq<(Seq<char>, Seq<char>, Option<u128>)> {
    v.map_values(|e: (String, String, Option<u128>)| (e.0@, e.1@, e.2))
}

/// The abstract value of an answer.
pub open spec fn answer_view(r: Result<IpcResponse, IpcError>) -> Result<ResponseModel, ErrorModel> {
    match r {
        Ok(IpcResponse::CurrentWallpaper { path }) => Ok(ResponseModel::CurrentWallpaper { path: path@ }),
        Ok(IpcResponse::AllWallpapers { entries }) => Ok(
            ResponseModel::AllWallpapers { entries: pairs_view(entries@) },
        ),
        Ok(IpcResponse::DisplaysStatus { entries }) => Ok(
            ResponseModel::DisplaysStatus { entries: status_view(entries@) },
        ),
        Ok(IpcResponse::Success) => Ok(ResponseModel::Success),
        Err(IpcError::MonitorNotFound { monitor }) => Err(ErrorModel::MonitorNotFound { monitor: monitor@ }),
        Err(IpcError::DrawErrors(v)) => Err(ErrorModel::DrawErrors(pairs_view(v@))),
    }
}

/// The first of `monitors` that is not the name of a display.
pub open spec fn first_missing(names: Seq<Seq<char>>, monitors: Seq<Seq<char>>) -> Option<Seq<char>>
    decreases monitors.len(),
{
    if monitors.len() == 0 {
        None
    } else if !names.contains(monitors[0]) {
        Some(monitors[0])
    } else {
        first_missing(names, monitors.drop_first())
    }
}

/// Every display is meant when no monitor is named.
pub open spec fn chosen(names: Seq<Seq<char>>, monitors: Seq<Seq<char>>, i: int) -> bool {
    monitors.len() == 0 || monitors.contains(names[i])
}

/// The names of the displays.
pub open spec fn surface_names(ss: Seq<SurfaceModel>) -> Seq<Seq<char>> {
    ss.map_values(|s: SurfaceModel| s.name)
}

/// The states of the displays.
pub open spec fn surfaces_view(v: Seq<Surface>) -> Seq<SurfaceModel> {
    v.map_values(|s: Surface| s@)
}

/// The names of the displays with their images on screen.
pub open spec fn shown_entries(ss: Seq<SurfaceModel>) -> Seq<(Seq<char>, Seq<char>)> {
    ss.map_values(|s: SurfaceModel| (s.name, s.picker.current_img))
}

/// The first display called `m`.
pub open spec fn first_named(names: Seq<Seq<char>>, m: Seq<char>) -> int {
    choose|i: int| 0 <= i < names.len() && names[i] == m && forall|j: int| 0 <= j < i ==> names[j] != m
}

/// Whether every monitor is the name of a display; the first that is not
/// is the error.
pub fn check_monitors(names: &Vec<String>, monitors: &Vec<String>) -> (r: Result<(), IpcError>)
    ensures
        match first_missing(views(names@), views(monitors@)) {
            None => r is Ok,
            Some(m) => r matches Err(IpcError::MonitorNotFound { monitor }) && monitor@ == m,
        },
{
    let ghost nv = views(names@);
    let ghost mv = views(monitors@);
    let mut i: usize = 0;
    assert(mv.skip(0) =~= mv);
    while i < monitors.len()
        invariant
            i <= monitors@.len(),
            nv == views(names@),
            mv == views(monitors@),
            first_missing(nv, mv) == first_missing(nv, mv.skip(i as int)),
        decreases monitors@.len() - i,
    {
        proof {
            assert(mv.skip(i as int).drop_first() =~= mv.skip(i + 1));
            assert(mv.skip(i as int)[0] == mv[i as int]);
        }
        if !contains_str(names, &monitors[i]) {
            return Err(IpcError::MonitorNotFound { monitor: monitors[i].clone() });
        }
        i += 1;
    }
    proof {
        assert(mv.skip(i as int).len() == 0);
    }
    Ok(())
}

/// An action a request asks of the displays it names.
#[derive(Debug)]
pub enum SurfaceOp {
    Previous,
    Next,
    Reload,
    Pause,
    Resume,
    TogglePause,
    /// Show this image, and pause.
    Show(String),
}

/// The state of a display after the action `op`, with the groups `g`
/// becoming `g2`.
pub open spec fn applied(
    op: SurfaceOp,
    pre: SurfaceModel,
    g: Map<u8, GroupModel>,
    cache: FilelistCache,
    post: SurfaceModel,
    g2: Map<u8, GroupModel>,
) -> bool {
    match op {
        SurfaceOp::Next => {
            &&& post == (SurfaceModel { picker: post.picker, ..pre })
            &&& advanced(
                pre.picker,
                g,
                pre.info.path,
                cache.files_of(pre.info.path),
                post.picker,
                g2,
            )
        },
        SurfaceOp::Previous => g2 == g && post == (SurfaceModel {
            picker: pre.picker.with_action(Some(ImagePickerAction::Previous)),
            ..pre
        }),
        SurfaceOp::Reload => g2 == g && post == (SurfaceModel {
            picker: PickerModel { reload: true, ..pre.picker },
            ..pre
        }),
        SurfaceOp::Pause => g2 == g && post == (SurfaceModel { should_pause: true, ..pre }),
        SurfaceOp::Resume => g2 == g && post == (SurfaceModel { should_pause: false, ..pre }),
        SurfaceOp::TogglePause => g2 == g && post == (SurfaceModel {
            should_pause: !pre.should_pause,
            ..pre
        }),
        SurfaceOp::Show(path) => g2 == g && post == (SurfaceModel {
            loading_image: Some((path@, 0nat)),
            should_pause: true,
            ..pre
        }),
    }
}

/// The displays after the action `op` on those that `monitors` names, in
/// order, the groups passing from one to the next.
pub open spec fn ops_applied(
    op: SurfaceOp,
    pre: Seq<SurfaceModel>,
    g: Map<u8, GroupModel>,
    cache: FilelistCache,
    monitors: Seq<Seq<char>>,
    post: Seq<SurfaceModel>,
    g2: Map<u8, GroupModel>,
) -> bool {
    &&& post.len() == pre.len()
    &&& exists|gs: Seq<Map<u8, GroupModel>>| #[trigger]
        ops_chain(op, pre, cache, monitors, post, gs) && gs[0] == g && gs[pre.len() as int] == g2
}

/// The groups `gs[i]` before each display `i` and `gs[i + 1]` after it.
pub open spec fn ops_chain(
    op: SurfaceOp,
    pre: Seq<SurfaceModel>,
    cache: FilelistCache,
    monitors: Seq<Seq<char>>,
    post: Seq<SurfaceModel>,
    gs: Seq<Map<u8, GroupModel>>,
) -> bool {
    &&& gs.len() == pre.len() + 1
    &&& post.len() == pre.len()
    &&& forall|i: int|
        0 <= i < pre.len() ==> if chosen(surface_names(pre), monitors, i) {
            applied(op, pre[i], gs[i], cache, #[trigger] post[i], gs[i + 1])
        } else {
            post[i] == pre[i] && gs[i + 1] == gs[i]
        }
}

/// The positions, in order, of the displays that `monitors` names.
pub open spec fn chosen_positions(names: Seq<Seq<char>>, monitors: Seq<Seq<char>>) -> Seq<usize>
    decreases names.len(),
{
    if names.len() == 0 {
        Seq::empty()
    } else {
        let rest = chosen_positions(names.drop_last(), monitors);
        if chosen(names, monitors, names.len() - 1) {
            rest.push((names.len() - 1) as usize)
        } else {
            rest
        }
    }
}

/// Every display is well formed, fits the groups and has its path cached.
pub open spec fn surfaces_ok(v: Seq<Surface>, groups: WallpaperGroups, cache: FilelistCache) -> bool {
    forall|i: int|
        0 <= i < v.len() ==> {
            &&& (#[trigger] v[i]).wf()
            &&& v[i].groups_ok(&groups)
            &&& cache.has_path(v[i]@.info.path)
        }
}

/// The names of the displays.
fn names_of(surfaces: &Vec<Surface>) -> (v: Vec<String>)
    ensures
        views(v@) == surface_names(surfaces_view(surfaces@)),
{
    let mut v: Vec<String> = Vec::new();
    let mut i: usize = 0;
    while i < surfaces.len()
        invariant
            i <= surfaces@.len(),
            views(v@) == surface_names(surfaces_view(surfaces@)).take(i as int),
        decreases surfaces@.len() - i,
    {
        let ghost before = v@;
        let n = surfaces[i].name();
        v.push(n);
        proof {
            crate::lemma_views_push(before, n);
            assert(surface_names(surfaces_view(surfaces@)).take(i + 1) =~= surface_names(
                surfaces_view(surfaces@),
            ).take(i as int).push(n@));
        }
        i += 1;
    }
    proof {
        assert(surface_names(surfaces_view(surfaces@)).take(surfaces@.len() as int) =~= surface_names(
            surfaces_view(surfaces@),
        ));
    }
    v
}

/// Apply `op` to the displays that `monitors` names, in order; their
/// positions are returned.
fn apply_op(
    surfaces: &mut Vec<Surface>,
    op: &SurfaceOp,
    monitors: &Vec<String>,
    cache: &FilelistCache,
    groups: &mut WallpaperGroups,
) -> (done: Vec<usize>)
    requires
        cache.wf(),
        surfaces_ok(old(surfaces)@, *old(groups), *cache),
    ensures
        surfaces_ok(final(surfaces)@, *final(groups), *cache),
        ops_applied(
            *op,
            surfaces_view(old(surfaces)@),
            old(groups)@,
            *cache,
            views(monitors@),
            surfaces_view(final(surfaces)@),
            final(groups)@,
        ),
        done@ == chosen_positions(surface_names(surfaces_view(old(surfaces)@)), views(monitors@)),
{
    let ghost pre = surfaces_view(surfaces@);
    let ghost names = surface_names(pre);
    let ghost mv = views(monitors@);
    let ghost mut gs: Seq<Map<u8, GroupModel>> = seq![groups@];
    let mut done: Vec<usize> = Vec::new();
    let mut i: usize = 0;
    while i < surfaces.len()
        invariant
            cache.wf(),
            i <= surfaces@.len(),
            surfaces@.len() == pre.len(),
            names == surface_names(pre),
            mv == views(monitors@),
            surfaces_ok(surfaces@, *groups, *cache),
            gs.len() == i + 1,
            gs[0] == old(groups)@,
            gs[i as int] == groups@,
            forall|j: int| i <= j < pre.len() ==> #[trigger] surfaces_view(surfaces@)[j] == pre[j],
            forall|j: int|
                0 <= j < i ==> if chosen(names, mv, j) {
                    applied(*op, pre[j], gs[j], *cache, #[trigger] surfaces_view(surfaces@)[j], gs[j + 1])
                } else {
                    surfaces_view(surfaces@)[j] == pre[j] && gs[j + 1] == gs[j]
                },
            done@ == chosen_positions(names.take(i as int), mv),
            forall|j: int| 0 <= j < pre.len() ==> names[j] == pre[j].name,
        decreases surfaces@.len() - i,
    {
        proof {
            assert(names.take(i + 1).drop_last() =~= names.take(i as int));
            assert(surfaces_view(surfaces@)[i as int] == pre[i as int]);
        }
        let ghost sv0 = surfaces_view(surfaces@);
        let ghost gs0 = gs;
        let name = surfaces[i].name();
        let pick = monitors.len() == 0 || contains_str(monitors, &name);
        assert(pick == chosen(names, mv, i as int));
        assert(chosen(names.take(i + 1), mv, i as int) == chosen(names, mv, i as int));
        if pick {
            let ghost before = surfaces@;
            let ghost g0 = *groups;
            let mut s = surfaces.remove(i);
            assert(s == before[i as int]);
            match op {
                SurfaceOp::Next => {
                    s.next_image(cache, groups);
                },
                SurfaceOp::Previous => {
                    s.previous_image();
                },
                SurfaceOp::Reload => {
                    s.reload();
                },
                SurfaceOp::Pause => {
                    s.pause();
                },
                SurfaceOp::Resume => {
                    s.resume();
                },
                SurfaceOp::TogglePause => {
                    s.toggle_pause();
                },
                SurfaceOp::Show(path) => {
                    s.set_image(path.clone());
                    s.pause();
                },
            }
            proof {
                s.lemma_groups_ok_wf(&*groups);
                assert(groups@.dom() =~= g0@.dom());
            }
            surfaces.insert(i, s);
            proof {
                assert(surfaces@ =~= before.update(i as int, s));
                assert(surfaces_view(surfaces@) =~= sv0.update(i as int, s@));
                assert forall|j: int| 0 <= j < surfaces@.len() implies {
                    &&& (#[trigger] surfaces@[j]).wf()
                    &&& surfaces@[j].groups_ok(&*groups)
                    &&& cache.has_path(surfaces@[j]@.info.path)
                } by {
                    if j != i {
                        assert(surfaces@[j] == before[j]);
                        before[j].lemma_groups_ok_transfer(&g0, &*groups);
                    }
                }
                gs = gs.push(groups@);
                assert(applied(*op, pre[i as int], gs[i as int], *cache, surfaces_view(surfaces@)[i as int], gs[i + 1]));
            }
            done.push(i);
        } else {
            proof {
                gs = gs.push(groups@);
            }
        }
        proof {
            assert forall|j: int| 0 <= j < i + 1 implies if chosen(names, mv, j) {
                applied(*op, pre[j], gs[j], *cache, #[trigger] surfaces_view(surfaces@)[j], gs[j + 1])
            } else {
                surfaces_view(surfaces@)[j] == pre[j] && gs[j + 1] == gs[j]
            } by {
                if j < i {
                    assert(surfaces_view(surfaces@)[j] == sv0[j]);
                    assert(gs[j] == gs0[j]);
                    assert(gs[j + 1] == gs0[j + 1]);
                }
            }
            assert forall|j: int| i + 1 <= j < pre.len() implies #[trigger] surfaces_view(surfaces@)[j] == pre[j] by {
                assert(surfaces_view(surfaces@)[j] == sv0[j]);
            }
        }
        i += 1;
    }
    proof {
        assert(names.take(pre.len() as int) =~= names);
        assert(ops_chain(*op, pre, *cache, mv, surfaces_view(surfaces@), gs));
    }
    done
}


/// The answer to a request that acts on the displays `monitors` names with
/// `op`: the first monitor that is not a display is an error and nothing
/// changes; otherwise every named display takes the action, and those
/// displays must load a new wallpaper when `load` holds.
pub open spec fn op_answer(
    op: SurfaceOp,
    pre: Seq<SurfaceModel>,
    g: Map<u8, GroupModel>,
    cache: FilelistCache,
    monitors: Seq<Seq<char>>,
    post: Seq<SurfaceModel>,
    g2: Map<u8, GroupModel>,
    r: Result<ResponseModel, ErrorModel>,
    redraw: Seq<usize>,
    load: bool,
) -> bool {
    match first_missing(surface_names(pre), monitors) {
        Some(m) => post == pre && g2 == g && redraw.len() == 0 && r == Err::<ResponseModel, ErrorModel>(
            ErrorModel::MonitorNotFound { monitor: m },
        ),
        None => {
            &&& ops_applied(op, pre, g, cache, monitors, post, g2)
            &&& r == Ok::<ResponseModel, ErrorModel>(ResponseModel::Success)
            &&& redraw == if load {
                chosen_positions(surface_names(pre), monitors)
            } else {
                Seq::<usize>::empty()
            }
        },
    }
}

/// The status entries of the displays `monitors` names, at `now`: name,
/// status as the disk answered whether the path is a directory, and time
/// left.
pub open spec fn status_entries(
    pre: Seq<SurfaceModel>,
    monitors: Seq<Seq<char>>,
    now: u128,
    entries: Seq<(Seq<char>, Seq<char>, Option<u128>)>,
) -> bool {
    let cp = chosen_positions(surface_names(pre), monitors);
    &&& entries.len() == cp.len()
    &&& forall|k: int|
        0 <= k < cp.len() ==> {
            let s = pre[cp[k] as int];
            &&& (#[trigger] entries[k]).0 == s.name
            &&& (entries[k].1 == status_text(true, s.should_pause) || entries[k].1 == status_text(
                false,
                s.should_pause,
            ))
            &&& entries[k].2 == s.remaining_at(now)
        }
}

/// The error for a wallpaper path that cannot be shown.
pub open spec fn draw_error(message: Seq<char>, path: Seq<char>) -> Result<ResponseModel, ErrorModel> {
    Err(ErrorModel::DrawErrors(seq![(Seq::<char>::empty(), message + path)]))
}

/// How the daemon answers `message` at `now`, with the displays `pre` and
/// the groups `g` becoming `post` and `g2`; `redraw` lists the displays that
/// must load a new wallpaper.
pub open spec fn answered(
    pre: Seq<SurfaceModel>,
    g: Map<u8, GroupModel>,
    cache: FilelistCache,
    message: IpcMessage,
    now: u128,
    post: Seq<SurfaceModel>,
    g2: Map<u8, GroupModel>,
    r: Result<ResponseModel, ErrorModel>,
    redraw: Seq<usize>,
) -> bool {
    let names = surface_names(pre);
    let unchanged = post == pre && g2 == g && redraw.len() == 0;
    match message {
        IpcMessage::CurrentWallpaper { monitor } => unchanged && r == if names.contains(monitor@) {
            Ok::<ResponseModel, ErrorModel>(
                ResponseModel::CurrentWallpaper {
                    path: pre[first_named(names, monitor@)].picker.current_img,
                },
            )
        } else {
            Err(ErrorModel::MonitorNotFound { monitor: monitor@ })
        },
        IpcMessage::AllWallpapers => unchanged && r == Ok::<ResponseModel, ErrorModel>(
            ResponseModel::AllWallpapers {
                entries: shown_entries(pre),
            },
        ),
        IpcMessage::NextWallpaper { monitors } => op_answer(
            SurfaceOp::Next,
            pre,
            g,
            cache,
            views(monitors@),
            post,
            g2,
            r,
            redraw,
            true,
        ),
        IpcMessage::PreviousWallpaper { monitors } => op_answer(
            SurfaceOp::Previous,
            pre,
            g,
            cache,
            views(monitors@),
            post,
            g2,
            r,
            redraw,
            true,
        ),
        IpcMessage::ReloadWallpaper { monitors } => op_answer(
            SurfaceOp::Reload,
            pre,
            g,
            cache,
            views(monitors@),
            post,
            g2,
            r,
            redraw,
            true,
        ),
        IpcMessage::PauseWallpaper { monitors } => op_answer(
            SurfaceOp::Pause,
            pre,
            g,
            cache,
            views(monitors@),
            post,
            g2,
            r,
            redraw,
            false,
        ),
        IpcMessage::ResumeWallpaper { monitors } => op_answer(
            SurfaceOp::Resume,
            pre,
            g,
            cache,
            views(monitors@),
            post,
            g2,
            r,
            redraw,
            false,
        ),
        IpcMessage::TogglePauseWallpaper { monitors } => op_answer(
            SurfaceOp::TogglePause,
            pre,
            g,
            cache,
            views(monitors@),
            post,
            g2,
            r,
            redraw,
            false,
        ),
        IpcMessage::GetStatus { monitors } => unchanged && match first_missing(names, views(monitors@)) {
            Some(m) => r == Err::<ResponseModel, ErrorModel>(ErrorModel::MonitorNotFound { monitor: m }),
            None => r matches Ok(ResponseModel::DisplaysStatus { entries }) && status_entries(
                pre,
                views(monitors@),
                now,
                entries,
            ),
        },
        IpcMessage::SetWallpaper { monitor, wallpaper } => exists|found: bool, file: bool|
            #![trigger set_wallpaper_refusal(wallpaper@, found, file)]
            match set_wallpaper_refusal(wallpaper@, found, file) {
                Some(m) => unchanged && r == Err::<ResponseModel, ErrorModel>(
                    ErrorModel::DrawErrors(seq![(Seq::<char>::empty(), m)]),
                ),
                None => op_answer(
                    SurfaceOp::Show(wallpaper),
                    pre,
                    g,
                    cache,
                    seq![monitor@],
                    post,
                    g2,
                    r,
                    redraw,
                    true,
                ),
            },
    }
}

/// Why a request to show `wallpaper` is refused before any display is
/// touched, given whether something is at that path (`found`) and whether it
/// is a regular file (`file`); `None` when the displays are asked.
pub open spec fn set_wallpaper_refusal(wallpaper: Seq<char>, found: bool, file: bool) -> Option<
    Seq<char>,
> {
    if !found {
        Some("File not found: "@ + wallpaper)
    } else if !file {
        Some("Path is not a file: "@ + wallpaper)
    } else {
        None
    }
}

/// Why a request to show `wallpaper` is refused, given whether something is
/// at that path (`found`) and whether it is a regular file (`file`).
pub fn set_wallpaper_check(wallpaper: &String, found: bool, file: bool) -> (r: Option<String>)
    ensures
        match r {
            Some(m) => set_wallpaper_refusal(wallpaper@, found, file) == Some(m@),
            None => set_wallpaper_refusal(wallpaper@, found, file) is None,
        },
{
    if !found {
        let mut m = String::from_str("File not found: ");
        m.append(wallpaper.as_str());
        Some(m)
    } else if !file {
        let mut m = String::from_str("Path is not a file: ");
        m.append(wallpaper.as_str());
        Some(m)
    } else {
        None
    }
}

/// The status entries of the displays `monitors` names, at `now`.
fn status_of(surfaces: &Vec<Surface>, monitors: &Vec<String>, now: u128) -> (entries: Vec<
    (String, String, Option<u128>),
>)
    ensures
        status_entries(surfaces_view(surfaces@), views(monitors@), now, status_view(entries@)),
{
    let ghost pre = surfaces_view(surfaces@);
    let ghost names = surface_names(pre);
    let ghost mv = views(monitors@);
    let mut entries: Vec<(String, String, Option<u128>)> = Vec::new();
    let mut i: usize = 0;
    while i < surfaces.len()
        invariant
            i <= surfaces@.len(),
            pre == surfaces_view(surfaces@),
            names == surface_names(pre),
            mv == views(monitors@),
            status_view(entries@).len() == chosen_positions(names.take(i as int), mv).len(),
            forall|k: int|
                0 <= k < chosen_positions(names.take(i as int), mv).len() ==> {
                    let s = pre[chosen_positions(names.take(i as int), mv)[k] as int];
                    &&& (#[trigger] status_view(entries@)[k]).0 == s.name
                    &&& (status_view(entries@)[k].1 == status_text(true, s.should_pause)
                        || status_view(entries@)[k].1 == status_text(false, s.should_pause))
                    &&& status_view(entries@)[k].2 == s.remaining_at(now)
                },
        decreases surfaces@.len() - i,
    {
        proof {
            assert(names.take(i + 1).drop_last() =~= names.take(i as int));
            assert(names[i as int] == pre[i as int].name);
        }
        let name = surfaces[i].name();
        let pick = monitors.len() == 0 || contains_str(monitors, &name);
        assert(chosen(names.take(i + 1), mv, i as int) == pick);
        if pick {
            let ghost before = entries@;
            let status = String::from_str(surfaces[i].status());
            let left = surfaces[i].get_remaining_duration(now);
            entries.push((name, status, left));
            proof {
                assert(status_view(entries@) =~= status_view(before).push((name@, status@, left)));
            }
        }
        i += 1;
    }
    proof {
        assert(names.take(pre.len() as int) =~= names);
    }
    entries
}

/// The image on screen of the first display called `monitor`.
fn current_wallpaper(surfaces: &Vec<Surface>, names: &Vec<String>, monitor: String) -> (r: Result<
    IpcResponse,
    IpcError,
>)
    requires
        views(names@) == surface_names(surfaces_view(surfaces@)),
    ensures
        answer_view(r) == if surface_names(surfaces_view(surfaces@)).contains(monitor@) {
            Ok::<ResponseModel, ErrorModel>(
                ResponseModel::CurrentWallpaper {
                    path: surfaces_view(surfaces@)[first_named(
                        surface_names(surfaces_view(surfaces@)),
                        monitor@,
                    )].picker.current_img,
                },
            )
        } else {
            Err(ErrorModel::MonitorNotFound { monitor: monitor@ })
        },
{
    let ghost nv = views(names@);
    let mut i: usize = 0;
    while i < surfaces.len()
        invariant
            i <= surfaces@.len(),
            nv == views(names@),
            nv == surface_names(surfaces_view(surfaces@)),
            names@.len() == surfaces@.len(),
            forall|j: int| 0 <= j < i ==> nv[j] != monitor@,
        decreases surfaces@.len() - i,
    {
        if names[i] == monitor {
            proof {
                assert(nv[i as int] == monitor@);
                let k = first_named(nv, monitor@);
                if k < i {
                    assert(nv[k] != monitor@);
                }
                if i < k {
                    assert(nv[i as int] != monitor@);
                }
            }
            let path = surfaces[i].current_image();
            return Ok(IpcResponse::CurrentWallpaper { path });
        }
        i += 1;
    }
    Err(IpcError::MonitorNotFound { monitor })
}

/// The names of the displays with their images on screen.
fn all_wallpapers(surfaces: &Vec<Surface>) -> (entries: Vec<(String, String)>)
    ensures
        pairs_view(entries@) == shown_entries(surfaces_view(surfaces@)),
{
    let mut entries: Vec<(String, String)> = Vec::new();
    let ghost pre = surfaces_view(surfaces@);
    let mut i: usize = 0;
    while i < surfaces.len()
        invariant
            i <= surfaces@.len(),
            pre == surfaces_view(surfaces@),
            pairs_view(entries@) == shown_entries(pre).take(i as int),
        decreases surfaces@.len() - i,
    {
        let ghost before = entries@;
        let entry = (surfaces[i].name(), surfaces[i].current_image());
        entries.push(entry);
        proof {
            assert(pre[i as int] == surfaces@[i as int]@);
            assert(pairs_view(entries@) =~= pairs_view(before).push((entry.0@, entry.1@)));
            assert(shown_entries(pre).take(i + 1) =~= shown_entries(pre).take(i as int).push(
                (pre[i as int].name, pre[i as int].picker.current_img),
            ));
        }
        i += 1;
    }
    proof {
        assert(shown_entries(pre).take(pre.len() as int) =~= shown_entries(pre));
    }
    entries
}

/// Answer `message` at `now`; the displays that must load a new wallpaper
/// are returned with the answer.
pub fn handle_message(
    surfaces: &mut Vec<Surface>,
    message: IpcMessage,
    now: u128,
    cache: &FilelistCache,
    groups: &mut WallpaperGroups,
) -> (r: (Result<IpcResponse, IpcError>, Vec<usize>))
    requires
        cache.wf(),
        surfaces_ok(old(surfaces)@, *old(groups), *cache),
    ensures
        surfaces_ok(final(surfaces)@, *final(groups), *cache),
        answered(
            surfaces_view(old(surfaces)@),
            old(groups)@,
            *cache,
            message,
            now,
            surfaces_view(final(surfaces)@),
            final(groups)@,
            answer_view(r.0),
            r.1@,
        ),
{
    let names = names_of(surfaces);
    let none: Vec<usize> = Vec::new();
    match message {
        IpcMessage::CurrentWallpaper { monitor } => (current_wallpaper(surfaces, &names, monitor), none),
        IpcMessage::AllWallpapers => (Ok(IpcResponse::AllWallpapers { entries: all_wallpapers(surfaces) }), none),
        IpcMessage::GetStatus { monitors } => {
            match check_monitors(&names, &monitors) {
                Err(e) => (Err(e), none),
                Ok(()) => {
                    let entries = status_of(surfaces, &monitors, now);
                    (Ok(IpcResponse::DisplaysStatus { entries }), none)
                },
            }
        },
        IpcMessage::SetWallpaper { monitor, wallpaper } => {
            // What is at the path decides whether any display is asked.
            let found = path_exists(&wallpaper);
            let file = found && path_is_file(&wallpaper);
            if let Some(m) = set_wallpaper_check(&wallpaper, found, file) {
                let errors = vec![(String::new(), m)];
                proof {
                    assert(pairs_view(errors@) =~= seq![(Seq::<char>::empty(), m@)]);
                }
                return (Err(IpcError::DrawErrors(errors)), none);
            }
            let monitors = vec![monitor];
            proof {
                assert(views(monitors@) =~= seq![monitor@]);
            }
            let op = SurfaceOp::Show(wallpaper);
            answer_op(surfaces, &names, &op, &monitors, true, cache, groups)
        },
        IpcMessage::NextWallpaper { monitors } => answer_op(
            surfaces,
            &names,
            &SurfaceOp::Next,
            &monitors,
            true,
            cache,
            groups,
        ),
        IpcMessage::PreviousWallpaper { monitors } => answer_op(
            surfaces,
            &names,
            &SurfaceOp::Previous,
            &monitors,
            true,
            cache,
            groups,
        ),
        IpcMessage::ReloadWallpaper { monitors } => answer_op(
            surfaces,
            &names,
            &SurfaceOp::Reload,
            &monitors,
            true,
            cache,
            groups,
        ),
        IpcMessage::PauseWallpaper { monitors } => answer_op(
            surfaces,
            &names,
            &SurfaceOp::Pause,
            &monitors,
            false,
            cache,
            groups,
        ),
        IpcMessage::ResumeWallpaper { monitors } => answer_op(
            surfaces,
            &names,
            &SurfaceOp::Resume,
            &monitors,
            false,
            cache,
            groups,
        ),
        IpcMessage::TogglePauseWallpaper { monitors } => answer_op(
            surfaces,
            &names,
            &SurfaceOp::TogglePause,
            &monitors,
            false,
            cache,
            groups,
        ),
    }
}

/// Check the monitors, then act on the displays they name with `op`.
fn answer_op(
    surfaces: &mut Vec<Surface>,
    names: &Vec<String>,
    op: &SurfaceOp,
    monitors: &Vec<String>,
    load: bool,
    cache: &FilelistCache,
    groups: &mut WallpaperGroups,
) -> (r: (Result<IpcResponse, IpcError>, Vec<usize>))
    requires
        cache.wf(),
        surfaces_ok(old(surfaces)@, *old(groups), *cache),
        views(names@) == surface_names(surfaces_view(old(surfaces)@)),
    ensures
        surfaces_ok(final(surfaces)@, *final(groups), *cache),
        op_answer(
            *op,
            surfaces_view(old(surfaces)@),
            old(groups)@,
            *cache,
            views(monitors@),
            surfaces_view(final(surfaces)@),
            final(groups)@,
            answer_view(r.0),
            r.1@,
            load,
        ),
{
    match check_monitors(names, monitors) {
        Err(e) => (Err(e), Vec::new()),
        Ok(()) => {
            let done = apply_op(surfaces, op, monitors, cache, groups);
            if load {
                (Ok(IpcResponse::Success), done)
            } else {
                (Ok(IpcResponse::Success), Vec::new())
            }
        },
    }
}


/// `s` without its leading double quotes.
pub open spec fn trim_start_quotes(s: Seq<char>) -> Seq<char>
    decreases s.len(),
{
    if s.len() > 0 && s[0] == '"' {
        trim_start_quotes(s.drop_first())
    } else {
        s
    }
}

/// `s` without its trailing double quotes.
pub open spec fn trim_end_quotes(s: Seq<char>) -> Seq<char>
    decreases s.len(),
{
    if s.len() > 0 && s.last() == '"' {
        trim_end_quotes(s.drop_last())
    } else {
        s
    }
}

/// A monitor name given in double quotes loses all its leading and
/// trailing quotes; any other name stays as it is.
pub open spec fn spec_unquote(s: Seq<char>) -> Seq<char> {
    if s.len() > 0 && s[0] == '"' && s.last() == '"' {
        trim_end_quotes(trim_start_quotes(s))
    } else {
        s
    }
}

/// Skipping `a` leading quotes, and no more, trims them.
proof fn lemma_trim_start(s: Seq<char>, a: int)
    requires
        0 <= a <= s.len(),
        forall|j: int| 0 <= j < a ==> s[j] == '"',
        a == s.len() || s[a] != '"',
    ensures
        trim_start_quotes(s) == s.skip(a),
    decreases a,
{
    if a == 0 {
        assert(s.skip(0) =~= s);
    } else {
        lemma_trim_start(s.drop_first(), a - 1);
        assert(s.drop_first().skip(a - 1) =~= s.skip(a));
    }
}

/// Keeping `b` leading characters, when all after them are quotes and the
/// last kept is not, trims the trailing quotes.
proof fn lemma_trim_end(s: Seq<char>, b: int)
    requires
        0 <= b <= s.len(),
        forall|j: int| b <= j < s.len() ==> s[j] == '"',
        b == 0 || s[b - 1] != '"',
    ensures
        trim_end_quotes(s) == s.take(b),
    decreases s.len() - b,
{
    if b == s.len() {
        assert(s.take(b) =~= s);
    } else {
        lemma_trim_end(s.drop_last(), b);
        assert(s.drop_last().take(b) =~= s.take(b));
    }
}

/// Take the double quotes off a monitor name given in them.
pub fn unquote(s: String) -> (r: String)
    ensures
        r@ == spec_unquote(s@),
{
    let len = s.as_str().unicode_len();
    if len == 0 || s.as_str().get_char(0) != '"' || s.as_str().get_char(len - 1) != '"' {
        return s;
    }
    let mut a: usize = 0;
    while a < len && s.as_str().get_char(a) == '"'
        invariant
            a <= len,
            len == s@.len(),
            forall|j: int| 0 <= j < a ==> s@[j] == '"',
        decreases len - a,
    {
        a += 1;
    }
    proof {
        lemma_trim_start(s@, a as int);
    }
    let ghost t = s@.skip(a as int);
    let mut b: usize = len;
    while b > a && s.as_str().get_char(b - 1) == '"'
        invariant
            a <= b <= len,
            len == s@.len(),
            forall|j: int| b <= j < len ==> s@[j] == '"',
        decreases b,
    {
        b -= 1;
    }
    proof {
        assert forall|j: int| b - a <= j < t.len() implies t[j] == '"' by {
            assert(t[j] == s@[j + a]);
        }
        if b > a {
            assert(t[b - a - 1] == s@[b - 1]);
        }
        lemma_trim_end(t, b - a);
        assert(t.take(b - a) =~= s@.subrange(a as int, b as int));
    }
    String::from_str(s.as_str().substring_char(a, b))
}

/// A duration of `secs` seconds made easier to read: whole seconds under a
/// minute, whole minutes under an hour, whole hours above.
pub open spec fn spec_clean_secs(secs: u128) -> u128 {
    if secs < 60 {
        secs
    } else if secs < 3600 {
        (secs - secs % 60) as u128
    } else {
        (secs - secs % 3600) as u128
    }
}

/// A duration in nanoseconds made easier to read: the fraction of a second
/// goes, then the seconds above a minute, then the minutes above an hour.
pub fn clean_duration(duration: u128) -> (r: u128)
    ensures
        r == spec_clean_secs(duration / 1_000_000_000) * 1_000_000_000,
{
    let secs = duration / 1_000_000_000;
    let cleaned = if secs < 60 {
        secs
    } else if secs < 60 * 60 {
        // Minutes: the seconds go.
        secs - secs % 60
    } else {
        // Hours: the minutes and seconds go.
        secs - secs % (60 * 60)
    };
    proof {
        assert(cleaned <= secs);
        assert(secs * 1_000_000_000 <= duration) by (nonlinear_arith)
            requires
                secs == duration / 1_000_000_000,
        ;
        assert(cleaned * 1_000_000_000 <= secs * 1_000_000_000) by (nonlinear_arith)
            requires
                cleaned <= secs,
        ;
    }
    cleaned * 1_000_000_000
}

} // verus!
