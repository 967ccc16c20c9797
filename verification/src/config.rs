//! The configuration file: each display section is merged with the `default`
//! section and validated into the settings of a display.

use vstd::prelude::*;

use crate::path_order::{
    components_view, insert_path, path_components, paths_sorted, same_path,
};
use crate::system::{path_exists, path_is_dir, path_is_file};
use crate::wallpaper_info::{
    spec_default_transition_time, BackgroundMode, Sorting, Transition, TransitionKind,
    TransitionModel, WallpaperInfo, WallpaperInfoModel, DEFAULT_DRAWN_IMAGES_QUEUE_SIZE,
};

verus! {

/// The sortings that can be written in a section; a grouped sorting is
/// written as `random` with a `group`.
#[derive(Debug, Copy, Clone, PartialEq, Eq, Structural)]
pub enum SerializedSorting {
    Random,
    Ascending,
    Descending,
}

impl SerializedSorting {
    /// The sorting written when none is: `random`.
    pub fn default_sorting() -> (s: SerializedSorting)
        ensures
            s == SerializedSorting::Random,
    {
        SerializedSorting::Random
    }

    /// How a sorting without a group is written.
    pub fn from_sorting(s: Sorting) -> (r: SerializedSorting)
        requires
            !(s is GroupedRandom),
        ensures
            r == match s {
                Sorting::Ascending => SerializedSorting::Ascending,
                Sorting::Descending => SerializedSorting::Descending,
                _ => SerializedSorting::Random,
            },
    {
        match s {
            Sorting::Ascending => SerializedSorting::Ascending,
            Sorting::Descending => SerializedSorting::Descending,
            _ => SerializedSorting::Random,
        }
    }
}

/// Abstract value of a [`SerializedWallpaperInfo`].
pub struct SectionModel {
    pub path: Option<Seq<char>>,
    pub duration: Option<u128>,
    pub apply_shadow: Option<bool>,
    pub sorting: Option<SerializedSorting>,
    pub mode: Option<BackgroundMode>,
    pub queue_size: Option<usize>,
    pub transition_time: Option<u32>,
    pub initial_transition: Option<bool>,
    pub transition: Option<TransitionModel>,
    pub offset: Option<u32>,
    pub group: Option<u8>,
}

/// A section of the configuration file, as written: every setting is
/// optional.
#[derive(Debug)]
pub struct SerializedWallpaperInfo {
    /// An image or a directory, with `~` already expanded.
    pub path: Option<String>,
    /// How long, in nanoseconds, an image stays on screen.
    pub duration: Option<u128>,
    pub apply_shadow: Option<bool>,
    pub sorting: Option<SerializedSorting>,
    pub mode: Option<BackgroundMode>,
    pub queue_size: Option<usize>,
    /// In milliseconds.
    pub transition_time: Option<u32>,
    /// Whether the first wallpaper fades in from black (`Some(true)`) or is
    /// shown at once (`Some(false)`).
    pub initial_transition: Option<bool>,
    pub transition: Option<Transition>,
    /// The offset of the image on the screen, from 0.0 to 1.0, as the bit
    /// pattern of the `f32` value.
    pub offset: Option<u32>,
    /// Assign the display to a group of displays that show the same
    /// wallpaper.
    pub group: Option<u8>,
}

/// The text of an optional string.
pub open spec fn opt_text(o: Option<String>) -> Option<Seq<char>> {
    match o {
        Some(s) => Some(s@),
        None => None,
    }
}

/// The value of an optional transition.
pub open spec fn opt_transition(o: Option<Transition>) -> Option<TransitionModel> {
    match o {
        Some(t) => Some(t@),
        None => None,
    }
}

impl View for SerializedWallpaperInfo {
    type V = SectionModel;

    open spec fn view(&self) -> SectionModel {
        SectionModel {
            path: opt_text(self.path),
            duration: self.duration,
            apply_shadow: self.apply_shadow,
            sorting: self.sorting,
            mode: self.mode,
            queue_size: self.queue_size,
            transition_time: self.transition_time,
            initial_transition: self.initial_transition,
            transition: opt_transition(self.transition),
            offset: self.offset,
            group: self.group,
        }
    }
}

/// A section that sets nothing.
pub open spec fn empty_section() -> SectionModel {
    SectionModel {
        path: None,
        duration: None,
        apply_shadow: None,
        sorting: None,
        mode: None,
        queue_size: None,
        transition_time: None,
        initial_transition: None,
        transition: None,
        offset: None,
        group: None,
    }
}

impl Default for SerializedWallpaperInfo {
    fn default() -> (s: SerializedWallpaperInfo)
        ensures
            s@ == empty_section(),
    {
        SerializedWallpaperInfo {
            path: None,
            duration: None,
            apply_shadow: None,
            sorting: None,
            mode: None,
            queue_size: None,
            transition_time: None,
            initial_transition: None,
            transition: None,
            offset: None,
            group: None,
        }
    }
}

/// What is on disk at a path.
#[derive(Debug, Copy, Clone, PartialEq, Eq, Structural)]
pub enum PathKind {
    Missing,
    File,
    Directory,
    /// Something that is neither a regular file nor a directory.
    Other,
}

/// Why a section cannot be used.
#[derive(Debug)]
pub enum ConfigError {
    /// Neither the section nor `default` sets `path`.
    PathNotSet,
    /// Nothing is at `path`; `inherited` tells whether the path comes from
    /// `default`.
    PathNotFound { path: String, inherited: bool },
    /// `duration` is set while `path` is not a directory.
    DurationWithoutDirectory,
    /// `sorting` (when `sorting` holds) or else `group` is set while `path`
    /// is not a directory.
    NotADirectory { sorting: bool },
    /// `offset` is not a number from 0.0 to 1.0; it holds the bit pattern
    /// of the `f32` value.
    OffsetOutOfRange { offset: u32 },
    /// The section asks for a group of displays shown in name order, on a
    /// directory: that is not implemented.
    GroupedOrderNotImplemented,
}

/// Abstract value of a [`ConfigError`].
pub enum ConfigErrorModel {
    PathNotSet,
    PathNotFound { path: Seq<char>, inherited: bool },
    DurationWithoutDirectory,
    NotADirectory { sorting: bool },
    OffsetOutOfRange { offset: u32 },
    GroupedOrderNotImplemented,
}

impl View for ConfigError {
    type V = ConfigErrorModel;

    open spec fn view(&self) -> ConfigErrorModel {
        match self {
            ConfigError::PathNotSet => ConfigErrorModel::PathNotSet,
            ConfigError::PathNotFound { path, inherited } => ConfigErrorModel::PathNotFound {
                path: path@,
                inherited: *inherited,
            },
            ConfigError::DurationWithoutDirectory => ConfigErrorModel::DurationWithoutDirectory,
            ConfigError::NotADirectory { sorting } => ConfigErrorModel::NotADirectory {
                sorting: *sorting,
            },
            ConfigError::OffsetOutOfRange { offset } => ConfigErrorModel::OffsetOutOfRange {
                offset: *offset,
            },
            ConfigError::GroupedOrderNotImplemented => ConfigErrorModel::GroupedOrderNotImplemented,
        }
    }
}

/// The abstract value of the result of a validation.
pub open spec fn validation_view(r: Result<WallpaperInfo, ConfigError>) -> Result<
    WallpaperInfoModel,
    ConfigErrorModel,
> {
    match r {
        Ok(w) => Ok(w@),
        Err(e) => Err(e@),
    }
}

/// Whether the `f32` value with the bit pattern `bits` is a number from 0.0
/// to 1.0: a zero of either sign, or a positive number no larger than 1.0
/// (the bit patterns of non-negative numbers grow with their values, and
/// 1.0 is `0x3f80_0000`; NaN is none of these).
pub open spec fn offset_in_range(bits: u32) -> bool {
    bits <= 0x3f80_0000 || bits == 0x8000_0000
}

/// The section's own setting, or else the one of `default`.
pub open spec fn merged<T>(own: Option<T>, default: Option<T>) -> Option<T> {
    match own {
        Some(v) => Some(v),
        None => default,
    }
}

/// A setting that only makes sense for a directory: one inherited from
/// `default` is dropped when the section points its own path to a file.
pub open spec fn merged_for_directory<T>(
    own: Option<T>,
    default: Option<T>,
    kind: PathKind,
    inherited: bool,
) -> Option<T> {
    if own is None && default is Some && kind == PathKind::File && !inherited {
        None
    } else {
        merged(own, default)
    }
}

/// A sorting as written, with the group of the display if it has one; a
/// group without a sorting is random.
pub open spec fn effective_sorting(sorting: Option<SerializedSorting>, group: Option<u8>) -> Option<
    Sorting,
> {
    let sorting = if group is Some && sorting is None {
        Some(SerializedSorting::Random)
    } else {
        sorting
    };
    match sorting {
        None => None,
        Some(s) => Some(
            match group {
                Some(g) => Sorting::GroupedRandom { group: g },
                None => match s {
                    SerializedSorting::Random => Sorting::Random,
                    SerializedSorting::Ascending => Sorting::Ascending,
                    SerializedSorting::Descending => Sorting::Descending,
                },
            },
        ),
    }
}

/// The section asks for a group of displays shown in name order, which is
/// not implemented for a directory.
pub open spec fn asks_grouped_order(s: SectionModel, d: SectionModel) -> bool {
    &&& merged(s.path, d.path) is Some
    &&& merged(s.group, d.group) is Some
    &&& merged(s.sorting, d.sorting) matches Some(sorting) && sorting != SerializedSorting::Random
}

/// The settings of a display from its section `s` and the `default` section
/// `d`, when what is on disk at the path is `kind`: a group of displays
/// shown in name order on a directory is not implemented; otherwise the
/// settings are those of [`validated_settings`].
pub open spec fn validated(s: SectionModel, d: SectionModel, kind: PathKind) -> Result<
    WallpaperInfoModel,
    ConfigErrorModel,
> {
    if kind == PathKind::Directory && asks_grouped_order(s, d) {
        Err(ConfigErrorModel::GroupedOrderNotImplemented)
    } else {
        validated_settings(s, d, kind)
    }
}

/// The settings of a display from its section `s` and the `default` section
/// `d`, when what is on disk at the path is `kind`: each setting is the
/// section's own or else `default`'s or else the built-in default, and the
/// settings must fit the path.
pub open spec fn validated_settings(s: SectionModel, d: SectionModel, kind: PathKind) -> Result<
    WallpaperInfoModel,
    ConfigErrorModel,
> {
    match merged(s.path, d.path) {
        None => Err(ConfigErrorModel::PathNotSet),
        Some(path) => {
            let inherited = s.path is None;
            let is_dir = kind == PathKind::Directory;
            let duration = merged_for_directory(s.duration, d.duration, kind, inherited);
            let sorting = merged_for_directory(s.sorting, d.sorting, kind, inherited);
            let group = merged_for_directory(s.group, d.group, kind, inherited);
            let transition = match merged(s.transition, d.transition) {
                Some(t) => t,
                None => TransitionModel { kind: TransitionKind::Fade, settings: Seq::empty() },
            };
            if kind == PathKind::Missing {
                Err(ConfigErrorModel::PathNotFound { path, inherited })
            } else if duration is Some && !is_dir {
                Err(ConfigErrorModel::DurationWithoutDirectory)
            } else if (sorting is Some || group is Some) && !is_dir {
                Err(ConfigErrorModel::NotADirectory { sorting: sorting is Some })
            } else if merged(s.offset, d.offset) is Some && !offset_in_range(
                merged(s.offset, d.offset).unwrap(),
            ) {
                Err(ConfigErrorModel::OffsetOutOfRange { offset: merged(s.offset, d.offset).unwrap() })
            } else {
                Ok(
                    WallpaperInfoModel {
                        path,
                        duration,
                        apply_shadow: false,
                        sorting: effective_sorting(sorting, group),
                        mode: match merged(s.mode, d.mode) {
                            Some(m) => m,
                            None => BackgroundMode::Center,
                        },
                        drawn_images_queue_size: match merged(s.queue_size, d.queue_size) {
                            Some(n) => n,
                            None => DEFAULT_DRAWN_IMAGES_QUEUE_SIZE,
                        },
                        transition_time: match merged(s.transition_time, d.transition_time) {
                            Some(t) => t,
                            None => spec_default_transition_time(transition.kind),
                        },
                        initial_transition: match merged(s.initial_transition, d.initial_transition) {
                            Some(b) => b,
                            None => true,
                        },
                        transition,
                        offset: merged(s.offset, d.offset),
                    },
                )
            }
        },
    }
}

/// The section's own setting, or else the one of `default`.
fn merge<T: Copy>(own: Option<T>, default: Option<T>) -> (r: Option<T>)
    ensures
        r == merged(own, default),
{
    match own {
        Some(v) => Some(v),
        None => default,
    }
}

/// A setting that only makes sense for a directory.
fn merge_for_directory<T: Copy>(own: Option<T>, default: Option<T>, kind: PathKind, inherited: bool) -> (r:
    Option<T>)
    ensures
        r == merged_for_directory(own, default, kind, inherited),
{
    if own.is_none() && default.is_some() && kind == PathKind::File && !inherited {
        None
    } else {
        merge(own, default)
    }
}

/// What is on disk at `path`, asked in the order the checks need it.
fn path_kind(path: &String) -> PathKind {
    if !path_exists(path) {
        PathKind::Missing
    } else if path_is_file(path) {
        PathKind::File
    } else if path_is_dir(path) {
        PathKind::Directory
    } else {
        PathKind::Other
    }
}

impl SerializedWallpaperInfo {
    /// Whether this section asks for a group of displays shown in name
    /// order, which is not implemented.
    pub fn asks_grouped_order(&self, default: &SerializedWallpaperInfo) -> (b: bool)
        ensures
            b == asks_grouped_order(self@, default@),
    {
        let has_path = self.path.is_some() || default.path.is_some();
        let has_group = self.group.is_some() || default.group.is_some();
        let ordered = match merge(self.sorting, default.sorting) {
            Some(SerializedSorting::Random) => false,
            Some(_) => true,
            None => false,
        };
        has_path && has_group && ordered
    }

    /// The settings of a display from this section and the `default`
    /// section, when what is on disk at the path is `kind`.
    pub fn apply_and_validate_with(&self, default: &SerializedWallpaperInfo, kind: PathKind) -> (r:
        Result<WallpaperInfo, ConfigError>)
        requires
            !(kind == PathKind::Directory && asks_grouped_order(self@, default@)),
        ensures
            validation_view(r) == validated(self@, default@, kind),
    {
        let inherited = self.path.is_none();
        let path = match (&self.path, &default.path) {
            (Some(p), _) => p.clone(),
            (None, Some(p)) => p.clone(),
            (None, None) => {
                return Err(ConfigError::PathNotSet);
            },
        };
        if kind == PathKind::Missing {
            return Err(ConfigError::PathNotFound { path, inherited });
        }
        let is_dir = kind == PathKind::Directory;
        let duration = merge_for_directory(self.duration, default.duration, kind, inherited);
        // A duration only makes sense for a directory.
        if duration.is_some() && !is_dir {
            return Err(ConfigError::DurationWithoutDirectory);
        }
        let sorting = merge_for_directory(self.sorting, default.sorting, kind, inherited);
        let group = merge_for_directory(self.group, default.group, kind, inherited);
        // So do a sorting and a group.
        if (sorting.is_some() || group.is_some()) && !is_dir {
            return Err(ConfigError::NotADirectory { sorting: sorting.is_some() });
        }
        // The offset must be a number from 0.0 to 1.0.
        let offset = merge(self.offset, default.offset);
        if let Some(o) = offset {
            if !(o <= 0x3f80_0000 || o == 0x8000_0000) {
                return Err(ConfigError::OffsetOutOfRange { offset: o });
            }
        }
        // A group without a sorting is random.
        let sorting = if group.is_some() && sorting.is_none() {
            Some(SerializedSorting::default_sorting())
        } else {
            sorting
        };
        let sorting = match sorting {
            None => None,
            Some(s) => Some(
                match group {
                    Some(g) => Sorting::GroupedRandom { group: g },
                    None => match s {
                        SerializedSorting::Random => Sorting::Random,
                        SerializedSorting::Ascending => Sorting::Ascending,
                        SerializedSorting::Descending => Sorting::Descending,
                    },
                },
            ),
        };
        let mode = match merge(self.mode, default.mode) {
            Some(m) => m,
            None => BackgroundMode::default_mode(),
        };
        let drawn_images_queue_size = match merge(self.queue_size, default.queue_size) {
            Some(n) => n,
            None => DEFAULT_DRAWN_IMAGES_QUEUE_SIZE,
        };
        let initial_transition = match merge(self.initial_transition, default.initial_transition) {
            Some(b) => b,
            None => true,
        };
        let transition = match (&self.transition, &default.transition) {
            (Some(t), _) => t.copy(),
            (None, Some(t)) => t.copy(),
            (None, None) => Transition::fade(),
        };
        let transition_time = match merge(self.transition_time, default.transition_time) {
            Some(t) => t,
            None => transition.kind.default_transition_time(),
        };
        Ok(
            WallpaperInfo {
                path,
                duration,
                apply_shadow: false,
                sorting,
                mode,
                drawn_images_queue_size,
                transition_time,
                initial_transition,
                transition,
                offset,
            },
        )
    }

    /// The settings of a display from this section and the `default`
    /// section, checked against what is on disk at the path.
    pub fn apply_and_validate(&self, default: &SerializedWallpaperInfo) -> (r: Result<
        WallpaperInfo,
        ConfigError,
    >)
        ensures
            exists|kind: PathKind| validation_view(r) == validated(self@, default@, kind),
    {
        // The disk is asked about the path the settings will use.
        let kind = match self.section_path(default) {
            Some(p) => path_kind(p),
            None => PathKind::Missing,
        };
        self.validate_on(default, kind)
    }

    /// The settings of a display from this section and the `default`
    /// section when what is on disk at the path is `kind`, refusing a group
    /// of displays shown in name order on a directory.
    fn validate_on(&self, default: &SerializedWallpaperInfo, kind: PathKind) -> (r: Result<
        WallpaperInfo,
        ConfigError,
    >)
        ensures
            validation_view(r) == validated(self@, default@, kind),
    {
        if kind == PathKind::Directory && self.asks_grouped_order(default) {
            Err(ConfigError::GroupedOrderNotImplemented)
        } else {
            self.apply_and_validate_with(default, kind)
        }
    }

    /// The path this section points to: its own, or else the one of
    /// `default`.
    pub fn section_path<'a>(&'a self, default: &'a SerializedWallpaperInfo) -> (p: Option<&'a String>)
        ensures
            match p {
                Some(s) => merged(self@.path, default@.path) == Some(s@),
                None => merged(self@.path, default@.path) is None,
            },
    {
        match &self.path {
            Some(p) => Some(p),
            None => match &default.path {
                Some(p) => Some(p),
                None => None,
            },
        }
    }
}


/// Whether two optional strings are the same.
fn same_text(a: &Option<String>, b: &Option<String>) -> (r: bool)
    ensures
        r == (opt_text(*a) == opt_text(*b)),
{
    match (a, b) {
        (Some(x), Some(y)) => *x == *y,
        (None, None) => true,
        _ => false,
    }
}

/// A copy of an optional string.
fn copy_text(a: &Option<String>) -> (r: Option<String>)
    ensures
        opt_text(r) == opt_text(*a),
{
    match a {
        Some(x) => Some(x.clone()),
        None => None,
    }
}

impl SerializedWallpaperInfo {
    /// Whether two sections set the same settings.
    pub fn same_as(&self, other: &SerializedWallpaperInfo) -> (b: bool)
        ensures
            b == (self@ == other@),
    {
        let same_transition = match (&self.transition, &other.transition) {
            (Some(a), Some(b)) => a.same_as(b),
            (None, None) => true,
            _ => false,
        };
        same_text(&self.path, &other.path) && self.duration == other.duration && self.apply_shadow
            == other.apply_shadow && self.sorting == other.sorting && self.mode == other.mode
            && self.queue_size == other.queue_size && self.transition_time == other.transition_time
            && self.initial_transition == other.initial_transition && same_transition
            && self.offset == other.offset && self.group == other.group
    }

    /// A copy of this section.
    pub fn copy(&self) -> (c: SerializedWallpaperInfo)
        ensures
            c@ == self@,
    {
        SerializedWallpaperInfo {
            path: copy_text(&self.path),
            duration: self.duration,
            apply_shadow: self.apply_shadow,
            sorting: self.sorting,
            mode: self.mode,
            queue_size: self.queue_size,
            transition_time: self.transition_time,
            initial_transition: self.initial_transition,
            transition: match &self.transition {
                Some(t) => Some(t.copy()),
                None => None,
            },
            offset: self.offset,
            group: self.group,
        }
    }
}

/// The abstract value of named sections.
pub open spec fn sections_view(data: Seq<(String, SerializedWallpaperInfo)>) -> Seq<(Seq<char>, SectionModel)> {
    data.map_values(|e: (String, SerializedWallpaperInfo)| (e.0@, e.1@))
}

/// The names of named sections.
pub open spec fn section_names(data: Seq<(Seq<char>, SectionModel)>) -> Seq<Seq<char>> {
    data.map_values(|e: (Seq<char>, SectionModel)| e.0)
}

/// The first section called `name`.
pub open spec fn named(data: Seq<(Seq<char>, SectionModel)>, name: Seq<char>) -> Option<SectionModel>
    decreases data.len(),
{
    if data.len() == 0 {
        None
    } else if data[0].0 == name {
        Some(data[0].1)
    } else {
        named(data.drop_first(), name)
    }
}

/// The first section called `name`, or else `fallback`.
pub open spec fn named_or(data: Seq<(Seq<char>, SectionModel)>, name: Seq<char>, fallback: SectionModel) -> SectionModel {
    match named(data, name) {
        Some(s) => s,
        None => fallback,
    }
}

/// The first section at `i` is called `name` when none before it is.
pub proof fn lemma_named_at(data: Seq<(Seq<char>, SectionModel)>, name: Seq<char>, i: int)
    requires
        0 <= i < data.len(),
        data[i].0 == name,
        forall|j: int| 0 <= j < i ==> data[j].0 != name,
    ensures
        named(data, name) == Some(data[i].1),
    decreases i,
{
    if i > 0 {
        lemma_named_at(data.drop_first(), name, i - 1);
    }
}

/// No section is called `name`.
pub proof fn lemma_named_none(data: Seq<(Seq<char>, SectionModel)>, name: Seq<char>)
    requires
        forall|j: int| 0 <= j < data.len() ==> data[j].0 != name,
    ensures
        named(data, name) is None,
    decreases data.len(),
{
    if data.len() > 0 {
        lemma_named_none(data.drop_first(), name);
    }
}

/// A section found by name is one of the sections.
pub proof fn lemma_named_in(data: Seq<(Seq<char>, SectionModel)>, name: Seq<char>)
    ensures
        named(data, name) matches Some(s) ==> exists|j: int| 0 <= j < data.len() && data[j].1 == s,
    decreases data.len(),
{
    if data.len() > 0 && data[0].0 != name {
        lemma_named_in(data.drop_first(), name);
        if named(data, name) is Some {
            let j = choose|j: int|
                0 <= j < data.drop_first().len() && data.drop_first()[j].1 == named(data, name).unwrap();
            assert(data[j + 1].1 == named(data, name).unwrap());
        }
    }
}

/// A display section is kept when it is the `default` section, or when it
/// validates for what is on disk at its path.
pub open spec fn keeps(s: SectionModel, d: SectionModel, kind: PathKind) -> bool {
    s == d || validated(s, d, kind) is Ok
}

/// The sections kept, in order, when what is on disk at their paths is
/// `kinds`.
pub open spec fn kept_sections(
    data: Seq<(Seq<char>, SectionModel)>,
    d: SectionModel,
    kinds: Seq<PathKind>,
) -> Seq<(Seq<char>, SectionModel)>
    decreases data.len(),
{
    if data.len() == 0 {
        Seq::empty()
    } else {
        let rest = kept_sections(data.drop_last(), d, kinds.drop_last());
        if keeps(data.last().1, d, kinds[data.len() - 1]) {
            rest.push(data.last())
        } else {
            rest
        }
    }
}

/// The sections dropped, in order, with why, when what is on disk at their
/// paths is `kinds`.
pub open spec fn dropped_sections(
    data: Seq<(Seq<char>, SectionModel)>,
    d: SectionModel,
    kinds: Seq<PathKind>,
) -> Seq<(Seq<char>, ConfigErrorModel)>
    decreases data.len(),
{
    if data.len() == 0 {
        Seq::empty()
    } else {
        let rest = dropped_sections(data.drop_last(), d, kinds.drop_last());
        match validated(data.last().1, d, kinds[data.len() - 1]) {
            Err(e) => if data.last().1 == d {
                rest
            } else {
                rest.push((data.last().0, e))
            },
            Ok(_) => rest,
        }
    }
}

/// The abstract errors of dropped sections.
pub open spec fn dropped_view(v: Seq<(String, ConfigError)>) -> Seq<(Seq<char>, ConfigErrorModel)> {
    v.map_values(|e: (String, ConfigError)| (e.0@, e.1@))
}

/// Abstract value of a [`Config`].
pub struct ConfigModel {
    pub data: Seq<(Seq<char>, SectionModel)>,
    pub default: SectionModel,
    pub any: SectionModel,
    pub path: Seq<char>,
}

/// The configuration: the display sections that can be used, by name, with
/// the `default` and `any` sections.
#[derive(Debug)]
pub struct Config {
    data: Vec<(String, SerializedWallpaperInfo)>,
    default: SerializedWallpaperInfo,
    any: SerializedWallpaperInfo,
    /// The configuration file.
    pub path: String,
}

impl View for Config {
    type V = ConfigModel;

    closed spec fn view(&self) -> ConfigModel {
        ConfigModel {
            data: sections_view(self.data@),
            default: self.default@,
            any: self.any@,
            path: self.path@,
        }
    }
}

/// The first section called `name`, copied, or else a section that sets
/// nothing.
fn find_section(data: &Vec<(String, SerializedWallpaperInfo)>, name: &String) -> (s:
    SerializedWallpaperInfo)
    ensures
        s@ == named_or(sections_view(data@), name@, empty_section()),
{
    let ghost dv = sections_view(data@);
    let mut i: usize = 0;
    while i < data.len()
        invariant
            i <= data@.len(),
            dv == sections_view(data@),
            forall|j: int| 0 <= j < i ==> dv[j].0 != name@,
        decreases data@.len() - i,
    {
        if data[i].0 == *name {
            proof {
                lemma_named_at(dv, name@, i as int);
            }
            return data[i].1.copy();
        }
        i += 1;
    }
    proof {
        lemma_named_none(dv, name@);
    }
    SerializedWallpaperInfo::default()
}

impl Config {
    /// The names are those of distinct sections.
    pub closed spec fn wf(&self) -> bool {
        section_names(sections_view(self.data@)).no_duplicates()
    }

    /// The configuration from the sections of the file at `path`, when what
    /// is on disk at the path of each section is given by `kinds`: `default`
    /// and `any` are the sections with those names, or sections that set
    /// nothing; a section is kept when it is the `default` section or when it
    /// validates, and is otherwise returned with why it cannot be used.
    pub fn from_sections_with(
        data: Vec<(String, SerializedWallpaperInfo)>,
        path: String,
        kinds: &Vec<PathKind>,
    ) -> (r: (Config, Vec<(String, ConfigError)>))
        requires
            kinds@.len() == data@.len(),
            section_names(sections_view(data@)).no_duplicates(),
        ensures
            r.0.wf(),
            r.0@.default == named_or(sections_view(data@), "default"@, empty_section()),
            r.0@.any == named_or(sections_view(data@), "any"@, empty_section()),
            r.0@.path == path@,
            r.0@.data == kept_sections(sections_view(data@), r.0@.default, kinds@),
            dropped_view(r.1@) == dropped_sections(sections_view(data@), r.0@.default, kinds@),
    {
        let default = find_section(&data, &String::from_str("default"));
        let any = find_section(&data, &String::from_str("any"));
        let ghost dv = sections_view(data@);
        let ghost kv = kinds@;
        let mut data = data;
        let mut kept: Vec<(String, SerializedWallpaperInfo)> = Vec::new();
        let mut dropped: Vec<(String, ConfigError)> = Vec::new();
        let mut i: usize = 0;
        proof {
            assert(dv.take(0) =~= Seq::<(Seq<char>, SectionModel)>::empty());
            assert(kv.take(0) =~= Seq::<PathKind>::empty());
            assert(sections_view(kept@) =~= Seq::<(Seq<char>, SectionModel)>::empty());
            assert(dropped_view(dropped@) =~= Seq::<(Seq<char>, ConfigErrorModel)>::empty());
            assert(dv.skip(0) =~= dv);
        }
        while data.len() > 0
            invariant
                i + data@.len() == dv.len(),
                kv.len() == dv.len(),
                dv.len() == kinds.len(),
                kinds@ == kv,
                section_names(dv).no_duplicates(),
                sections_view(data@) == dv.skip(i as int),
                sections_view(kept@) == kept_sections(dv.take(i as int), default@, kv.take(i as int)),
                dropped_view(dropped@) == dropped_sections(dv.take(i as int), default@, kv.take(i as int)),
                forall|k: int|
                    0 <= k < kept@.len() ==> exists|j: int|
                        0 <= j < i && #[trigger] sections_view(kept@)[k] == dv[j],
                section_names(sections_view(kept@)).no_duplicates(),
            decreases data@.len(),
        {
            let ghost before_kept = kept@;
            let ghost before_dropped = dropped@;
            let ghost before_data = data@;
            let (name, info) = data.remove(0);
            proof {
                assert(dv.skip(i as int)[0] == dv[i as int]);
                assert(sections_view(before_data)[0] == dv[i as int]);
                assert forall|k: int| 0 <= k < data@.len() implies #[trigger] sections_view(data@)[k]
                    == dv.skip(i + 1)[k] by {
                    assert(data@[k] == before_data[k + 1]);
                    assert(sections_view(before_data)[k + 1] == dv.skip(i as int)[k + 1]);
                }
                assert(sections_view(data@) =~= dv.skip(i + 1));
                assert(dv.take(i + 1).drop_last() =~= dv.take(i as int));
                assert(kv.take(i + 1).drop_last() =~= kv.take(i as int));
                assert(dv.take(i + 1).last() == dv[i as int]);
            }
            let kind = kinds[i];
            let keep = if info.same_as(&default) {
                true
            } else {
                match info.validate_on(&default, kind) {
                    Ok(_) => true,
                    Err(e) => {
                        dropped.push((name.clone(), e));
                        proof {
                            assert(dropped_view(dropped@) =~= dropped_view(before_dropped).push(
                                (name@, e@),
                            ));
                        }
                        false
                    },
                }
            };
            if keep {
                kept.push((name, info));
                proof {
                    assert(sections_view(kept@) =~= sections_view(before_kept).push(dv[i as int]));
                    assert forall|k: int| 0 <= k < kept@.len() implies exists|j: int|
                        0 <= j < i + 1 && #[trigger] sections_view(kept@)[k] == dv[j] by {
                        if k < before_kept.len() {
                            assert(sections_view(kept@)[k] == sections_view(before_kept)[k]);
                        } else {
                            assert(sections_view(kept@)[k] == dv[i as int]);
                        }
                    }
                    let kn = section_names(sections_view(kept@));
                    let bn = section_names(sections_view(before_kept));
                    let dn = section_names(dv);
                    assert forall|a: int, b: int|
                        0 <= a < kn.len() && 0 <= b < kn.len() && a != b implies kn[a] != kn[b] by {
                        if a < bn.len() && b < bn.len() {
                            assert(kn[a] == bn[a]);
                            assert(kn[b] == bn[b]);
                        } else {
                            let (o, n) = if a < bn.len() { (a, b) } else { (b, a) };
                            assert(n == bn.len());
                            assert(kn[n] == dn[i as int]);
                            assert(sections_view(before_kept)[o] == sections_view(kept@)[o]);
                            let j = choose|j: int| 0 <= j < i && #[trigger] sections_view(before_kept)[o] == dv[j];
                            assert(kn[o] == dn[j]);
                        }
                    }
                }
            }
            i += 1;
        }
        proof {
            assert(dv.take(dv.len() as int) =~= dv);
            assert(kv.take(kv.len() as int) =~= kv);
        }
        (Config { data: kept, default, any, path }, dropped)
    }
}


/// The distinct paths of the sections, in the order they first appear.
pub open spec fn section_paths(data: Seq<(Seq<char>, SectionModel)>) -> Seq<Seq<char>>
    decreases data.len(),
{
    if data.len() == 0 {
        Seq::empty()
    } else {
        let rest = section_paths(data.drop_last());
        match data.last().1.path {
            Some(p) => if rest.contains(p) {
                rest
            } else {
                rest.push(p)
            },
            None => rest,
        }
    }
}

/// The paths that the first sections of `data` hold are those of one
/// section fewer and the path of the last one.
proof fn lemma_section_paths_step(data: Seq<(Seq<char>, SectionModel)>, i: int, p: Seq<char>)
    requires
        0 <= i < data.len(),
    ensures
        section_paths(data.take(i + 1)).contains(p) <==> (section_paths(data.take(i)).contains(p)
            || data[i].1.path == Some(p)),
{
    let rest = section_paths(data.take(i));
    assert(data.take(i + 1).drop_last() =~= data.take(i));
    assert(data.take(i + 1).last() == data[i]);
    if let Some(x) = data[i].1.path {
        if !rest.contains(x) {
            if rest.push(x).contains(p) {
                let j = choose|j: int| 0 <= j < rest.push(x).len() && rest.push(x)[j] == p;
                if j < rest.len() {
                    assert(rest[j] == p);
                }
            }
            if rest.contains(p) {
                let j = choose|j: int| 0 <= j < rest.len() && rest[j] == p;
                assert(rest.push(x)[j] == p);
            }
            if x == p {
                assert(rest.push(x)[rest.len() as int] == p);
            }
        }
    }
}

/// The sections by name.
pub open spec fn section_map(data: Seq<(Seq<char>, SectionModel)>) -> Map<Seq<char>, SectionModel> {
    Map::new(|k: Seq<char>| named(data, k) is Some, |k: Seq<char>| named(data, k).unwrap())
}

/// The description of an output without what follows its last ` (`: some
/// compositors add the port and its type there.
pub open spec fn cleaned_description(d: Seq<char>) -> Seq<char> {
    if exists|i: int| #[trigger] paren_at(d, i) {
        d.take(choose|i: int| paren_at(d, i) && forall|j: int| i < j ==> !#[trigger] paren_at(d, j))
    } else {
        d
    }
}

/// `d` holds ` (` at position `i`.
pub open spec fn paren_at(d: Seq<char>, i: int) -> bool {
    0 <= i && i + 1 < d.len() && d[i] == ' ' && d[i + 1] == '('
}

/// The section for an output: the one named after its cleaned description,
/// else the one named after the output, else `any`.
pub open spec fn section_for_output(c: ConfigModel, name: Seq<char>, description: Seq<char>) -> SectionModel {
    match named(c.data, cleaned_description(description)) {
        Some(s) => s,
        None => named_or(c.data, name, c.any),
    }
}

/// The position of the last ` (` in `d`.
fn last_paren(d: &str) -> (r: Option<usize>)
    ensures
        match r {
            Some(i) => paren_at(d@, i as int) && forall|j: int| i < j ==> !#[trigger] paren_at(d@, j),
            None => forall|i: int| !#[trigger] paren_at(d@, i),
        },
{
    let len = d.unicode_len();
    let mut k: usize = len;
    // Look at each position from the end.
    while k >= 2
        invariant
            k <= len,
            len == d@.len(),
            forall|j: int| k - 1 <= j ==> !#[trigger] paren_at(d@, j),
        decreases k,
    {
        if d.get_char(k - 2) == ' ' && d.get_char(k - 1) == '(' {
            return Some(k - 2);
        }
        k -= 1;
    }
    None
}

impl Config {
    /// The configuration from the sections of the file at `path`, checked
    /// against what is on disk: `default` and `any` are the sections with
    /// those names, or sections that set nothing; a section is kept when it
    /// is the `default` section or when it validates, and is otherwise
    /// returned with why it cannot be used.
    pub fn from_sections(data: Vec<(String, SerializedWallpaperInfo)>, path: String) -> (r: (
        Config,
        Vec<(String, ConfigError)>,
    ))
        requires
            section_names(sections_view(data@)).no_duplicates(),
        ensures
            r.0.wf(),
            r.0@.default == named_or(sections_view(data@), "default"@, empty_section()),
            r.0@.any == named_or(sections_view(data@), "any"@, empty_section()),
            r.0@.path == path@,
            exists|kinds: Seq<PathKind>|
                kinds.len() == data@.len() && r.0@.data == kept_sections(
                    sections_view(data@),
                    r.0@.default,
                    kinds,
                ) && dropped_view(r.1@) == dropped_sections(sections_view(data@), r.0@.default, kinds),
    {
        let default = find_section(&data, &String::from_str("default"));
        let mut kinds: Vec<PathKind> = Vec::new();
        let mut i: usize = 0;
        while i < data.len()
            invariant
                i <= data@.len(),
                kinds@.len() == i,
            decreases data@.len() - i,
        {
            let kind = match (&data[i].1.path, &default.path) {
                (Some(p), _) => path_kind(p),
                (None, Some(p)) => path_kind(p),
                (None, None) => PathKind::Missing,
            };
            kinds.push(kind);
            i += 1;
        }
        Config::from_sections_with(data, path, &kinds)
    }

    /// The `default` section.
    pub fn default_section(&self) -> (s: &SerializedWallpaperInfo)
        ensures
            s@ == self@.default,
    {
        &self.default
    }

    /// The section for an output called `name` with the description
    /// `description`: the one named after the description without what
    /// follows its last ` (`, else the one named after the output, else
    /// `any`.
    pub fn section_for_output(&self, name: &str, description: &str) -> (s: SerializedWallpaperInfo)
        ensures
            s@ == section_for_output(self@, name@, description@),
    {
        let cleaned = match last_paren(description) {
            Some(i) => String::from_str(description.substring_char(0, i)),
            None => String::from_str(description),
        };
        proof {
            assert(cleaned@ == cleaned_description(description@));
        }
        let by_description = position_of_section(&self.data, &cleaned);
        match by_description {
            Some(k) => self.data[k].1.copy(),
            None => {
                let by_name = position_of_section(&self.data, &String::from_str(name));
                match by_name {
                    Some(k) => self.data[k].1.copy(),
                    None => self.any.copy(),
                }
            },
        }
    }

    /// The settings of the output called `name` with the description
    /// `description`: its section merged with `default` and validated
    /// against what is on disk.
    pub fn get_info_for_output(&self, name: &str, description: &str) -> (r: Result<
        WallpaperInfo,
        ConfigError,
    >)
        ensures
            exists|kind: PathKind|
                validation_view(r) == validated(
                    section_for_output(self@, name@, description@),
                    self@.default,
                    kind,
                ),
    {
        let section = self.section_for_output(name, description);
        section.apply_and_validate(&self.default)
    }

    /// The paths of the sections, sorted as paths are, each path once: two
    /// texts with the same components (such as `a` and `a/`, or `a/./b` and
    /// `a/b`) count as one path, kept as the first section writes it.
    pub fn paths(&self) -> (v: Vec<String>)
        ensures
            paths_sorted(crate::views(v@)),
            forall|i: int| 0 <= i < v@.len() ==> section_paths(self@.data).contains(#[trigger] v@[i]@),
            forall|p: Seq<char>| #[trigger]
                section_paths(self@.data).contains(p) ==> exists|i: int|
                    0 <= i < v@.len() && same_path(#[trigger] v@[i]@, p),
    {
        let ghost d = sections_view(self.data@);
        let mut v: Vec<String> = Vec::new();
        let mut keys: Vec<Vec<(u8, String)>> = Vec::new();
        let mut i: usize = 0;
        while i < self.data.len()
            invariant
                i <= self.data@.len(),
                d == sections_view(self.data@),
                paths_sorted(crate::views(v@)),
                keys@.len() == v@.len(),
                forall|j: int| 0 <= j < v@.len() ==> components_view(#[trigger] keys@[j]@) == path_components(v@[j]@),
                forall|j: int| 0 <= j < v@.len() ==> section_paths(d.take(i as int)).contains(#[trigger] v@[j]@),
                forall|p: Seq<char>| #[trigger]
                    section_paths(d.take(i as int)).contains(p) ==> exists|j: int|
                        0 <= j < v@.len() && same_path(#[trigger] v@[j]@, p),
            decreases self.data@.len() - i,
        {
            let ghost before = v@;
            if let Some(p) = &self.data[i].1.path {
                insert_path(&mut v, &mut keys, p);
            }
            proof {
                assert forall|j: int| 0 <= j < v@.len() implies section_paths(d.take(i + 1)).contains(
                    #[trigger] v@[j]@,
                ) by {
                    let q = v@[j]@;
                    assert(crate::views(v@)[j] == q);
                    assert(crate::views(v@).contains(q));
                    lemma_section_paths_step(d, i as int, q);
                    if crate::views(before).contains(q) {
                        let m = choose|m: int| 0 <= m < crate::views(before).len() && crate::views(before)[m] == q;
                        assert(before[m]@ == q);
                        assert(section_paths(d.take(i as int)).contains(before[m]@));
                    } else {
                        assert(self.data@[i as int].1.path is Some);
                        assert(d[i as int].1.path == Some(q));
                    }
                }
                assert forall|p: Seq<char>| #[trigger]
                    section_paths(d.take(i + 1)).contains(p) implies exists|j: int|
                        0 <= j < v@.len() && same_path(#[trigger] v@[j]@, p) by {
                    lemma_section_paths_step(d, i as int, p);
                    if section_paths(d.take(i as int)).contains(p) {
                        let m = choose|m: int| 0 <= m < before.len() && same_path(#[trigger] before[m]@, p);
                        assert(crate::views(before)[m] == before[m]@);
                        assert(crate::views(before).contains(before[m]@));
                        assert(crate::views(v@).contains(before[m]@));
                        let n = choose|n: int| 0 <= n < crate::views(v@).len() && crate::views(v@)[n] == before[m]@;
                        assert(same_path(v@[n]@, p));
                    }
                }
            }
            i += 1;
        }
        proof {
            assert(d.take(d.len() as int) =~= d);
        }
        v
    }
}

/// The position of the first section called `name`.
fn position_of_section(data: &Vec<(String, SerializedWallpaperInfo)>, name: &String) -> (r: Option<usize>)
    ensures
        match r {
            Some(k) => k < data@.len() && named(sections_view(data@), name@) == Some(data@[k as int].1@),
            None => named(sections_view(data@), name@) is None,
        },
{
    let ghost dv = sections_view(data@);
    let mut i: usize = 0;
    while i < data.len()
        invariant
            i <= data@.len(),
            dv == sections_view(data@),
            forall|j: int| 0 <= j < i ==> dv[j].0 != name@,
        decreases data@.len() - i,
    {
        if data[i].0 == *name {
            proof {
                lemma_named_at(dv, name@, i as int);
            }
            return Some(i);
        }
        i += 1;
    }
    proof {
        lemma_named_none(dv, name@);
    }
    None
}


/// Every section of `a` is in `b` under the same name with the same settings.
fn sections_within(a: &Vec<(String, SerializedWallpaperInfo)>, b: &Vec<(String, SerializedWallpaperInfo)>) -> (r:
    bool)
    requires
        section_names(sections_view(a@)).no_duplicates(),
    ensures
        r == forall|k: Seq<char>| #[trigger]
            section_map(sections_view(a@)).contains_key(k) ==> section_map(
                sections_view(b@),
            ).contains_key(k) && section_map(sections_view(b@))[k] == section_map(
                sections_view(a@),
            )[k],
{
    let ghost av = sections_view(a@);
    let ghost bv = sections_view(b@);
    let mut i: usize = 0;
    while i < a.len()
        invariant
            i <= a@.len(),
            av == sections_view(a@),
            bv == sections_view(b@),
            section_names(av).no_duplicates(),
            forall|j: int|
                0 <= j < i ==> #[trigger] named(bv, av[j].0) == Some(av[j].1),
        decreases a@.len() - i,
    {
        let found = position_of_section(b, &a[i].0);
        let same = match found {
            Some(k) => b[k].1.same_as(&a[i].1),
            None => false,
        };
        if !same {
            proof {
                let k = av[i as int].0;
                lemma_named_first(av, i as int);
                assert(section_map(av).contains_key(k));
            }
            return false;
        }
        i += 1;
    }
    proof {
        assert forall|k: Seq<char>| #[trigger] section_map(av).contains_key(k) implies section_map(
            bv,
        ).contains_key(k) && section_map(bv)[k] == section_map(av)[k] by {
            lemma_named_in_at(av, k);
            let j = choose|j: int| 0 <= j < av.len() && av[j].0 == k && named(av, k) == Some(av[j].1);
            assert(named(bv, av[j].0) == Some(av[j].1));
        }
    }
    true
}

/// With distinct names, the section at `i` is the one found by its name.
pub proof fn lemma_named_first(data: Seq<(Seq<char>, SectionModel)>, i: int)
    requires
        section_names(data).no_duplicates(),
        0 <= i < data.len(),
    ensures
        named(data, data[i].0) == Some(data[i].1),
{
    assert forall|j: int| 0 <= j < i implies data[j].0 != data[i].0 by {
        assert(section_names(data)[j] == data[j].0);
        assert(section_names(data)[i] == data[i].0);
    }
    lemma_named_at(data, data[i].0, i);
}

/// A section found by name is at a position with that name.
pub proof fn lemma_named_in_at(data: Seq<(Seq<char>, SectionModel)>, name: Seq<char>)
    ensures
        named(data, name) is Some ==> exists|j: int|
            0 <= j < data.len() && data[j].0 == name && named(data, name) == Some(data[j].1),
    decreases data.len(),
{
    if data.len() > 0 && data[0].0 != name {
        lemma_named_in_at(data.drop_first(), name);
        if named(data, name) is Some {
            let j = choose|j: int|
                0 <= j < data.drop_first().len() && data.drop_first()[j].0 == name && named(
                    data.drop_first(),
                    name,
                ) == Some(data.drop_first()[j].1);
            assert(data[j + 1].0 == name);
        }
    }
}

impl Config {
    /// Replace this configuration with `new_config` when their sections
    /// differ, as a map from names to settings; tell whether they did.
    pub fn update(&mut self, new_config: Config) -> (changed: bool)
        requires
            old(self).wf(),
            new_config.wf(),
        ensures
            changed == (section_map(old(self)@.data) != section_map(new_config@.data)),
            final(self)@ == if changed {
                new_config@
            } else {
                old(self)@
            },
            final(self).wf(),
    {
        let same = sections_within(&self.data, &new_config.data) && sections_within(
            &new_config.data,
            &self.data,
        );
        proof {
            let a = section_map(sections_view(self.data@));
            let b = section_map(sections_view(new_config.data@));
            if same {
                assert(a =~= b);
            }
        }
        if same {
            false
        } else {
            *self = new_config;
            true
        }
    }
}


/// A duration, a sorting or a group only make sense for a directory: a
/// section that validates with one of them points to a directory.
pub proof fn lemma_directory_settings(s: SectionModel, d: SectionModel, kind: PathKind)
    requires
        validated(s, d, kind) matches Ok(w) && (w.duration is Some || w.sorting is Some),
    ensures
        kind == PathKind::Directory,
{
}

/// On a directory, a display without a group keeps the sorting it was
/// given: the validated settings are sorted at random, in ascending or in
/// descending name order exactly when the section (or else `default`) asks
/// for that sorting, and have no sorting when none is asked for.
pub proof fn lemma_sorting_kept_without_group(s: SectionModel, d: SectionModel)
    requires
        merged(s.group, d.group) is None,
        validated(s, d, PathKind::Directory) is Ok,
    ensures
        ({
            let w = validated(s, d, PathKind::Directory)->Ok_0;
            &&& (w.sorting == Some(Sorting::Random)) == (merged(s.sorting, d.sorting) == Some(SerializedSorting::Random))
            &&& (w.sorting == Some(Sorting::Ascending)) == (merged(s.sorting, d.sorting) == Some(SerializedSorting::Ascending))
            &&& (w.sorting == Some(Sorting::Descending)) == (merged(s.sorting, d.sorting) == Some(SerializedSorting::Descending))
            &&& (w.sorting is None) == (merged(s.sorting, d.sorting) is None)
        }),
{
}

/// The `default` section is always kept, whatever is on disk.
pub proof fn lemma_default_kept(data: Seq<(Seq<char>, SectionModel)>, d: SectionModel, kinds: Seq<PathKind>, i: int)
    requires
        0 <= i < data.len(),
        kinds.len() == data.len(),
        data[i].1 == d,
    ensures
        kept_sections(data, d, kinds).contains(data[i]),
    decreases data.len(),
{
    let rest = kept_sections(data.drop_last(), d, kinds.drop_last());
    if i == data.len() - 1 {
        assert(kept_sections(data, d, kinds) == rest.push(data.last()));
        assert(kept_sections(data, d, kinds)[rest.len() as int] == data[i]);
    } else {
        lemma_default_kept(data.drop_last(), d, kinds.drop_last(), i);
        let k = choose|k: int| 0 <= k < rest.len() && rest[k] == data[i];
        if keeps(data.last().1, d, kinds[data.len() - 1]) {
            assert(kept_sections(data, d, kinds)[k] == data[i]);
        } else {
            assert(kept_sections(data, d, kinds)[k] == data[i]);
        }
    }
}

/// An output takes the section named after its description, which takes
/// priority over the one named after the output; an output named by
/// neither takes the `any` section.
pub proof fn lemma_output_section(c: ConfigModel, name: Seq<char>, description: Seq<char>)
    ensures
        named(c.data, cleaned_description(description)) matches Some(s) ==> section_for_output(
            c,
            name,
            description,
        ) == s,
        named(c.data, cleaned_description(description)) is None ==> (named(c.data, name) matches Some(s)
            ==> section_for_output(c, name, description) == s),
        named(c.data, cleaned_description(description)) is None && named(c.data, name) is None
            ==> section_for_output(c, name, description) == c.any,
{
}


/// The abstract value of validated displays.
pub open spec fn displays_view(v: Seq<(String, WallpaperInfo)>) -> Seq<(Seq<char>, WallpaperInfoModel)> {
    v.map_values(|e: (String, WallpaperInfo)| (e.0@, e.1@))
}

/// Displays `i` and `j` are in the same group but have different paths.
pub open spec fn in_conflict(d: Seq<(Seq<char>, WallpaperInfoModel)>, i: int, j: int) -> bool {
    &&& d[i].1.sorting matches Some(Sorting::GroupedRandom { .. })
    &&& d[i].1.sorting == d[j].1.sorting
    &&& d[i].1.path != d[j].1.path
}

/// The conflict of display `j` with display `i` is reported: `j` is not
/// the first display, and no display before `i` conflicts with `j`, which
/// is reported once.
pub open spec fn reported(d: Seq<(Seq<char>, WallpaperInfoModel)>, i: int, j: int) -> bool {
    &&& 1 <= j < d.len()
    &&& in_conflict(d, i, j)
    &&& forall|k: int| 0 <= k < i ==> !#[trigger] in_conflict(d, k, j)
}

/// The conflicts reported for display `i` with the displays before `j`.
pub open spec fn conflict_cells(d: Seq<(Seq<char>, WallpaperInfoModel)>, i: int, j: int) -> Seq<(int, int)>
    decreases j,
{
    if j <= 1 {
        Seq::empty()
    } else {
        conflict_cells(d, i, j - 1) + if reported(d, i, j - 1) {
            seq![(i, j - 1)]
        } else {
            Seq::empty()
        }
    }
}

/// The conflicts reported for the displays before `i`, in order.
pub open spec fn conflict_rows(d: Seq<(Seq<char>, WallpaperInfoModel)>, i: int) -> Seq<(int, int)>
    decreases i,
{
    if i <= 0 {
        Seq::empty()
    } else {
        conflict_rows(d, i - 1) + conflict_cells(d, i - 1, d.len() as int)
    }
}

/// A reported conflict: the names of the two displays and their group.
pub open spec fn conflict_entry(d: Seq<(Seq<char>, WallpaperInfoModel)>, c: (int, int)) -> (Seq<char>, Seq<char>, u8) {
    (d[c.0].0, d[c.1].0, d[c.0].1.sorting.unwrap()->group)
}

/// The conflicts reported: for each display in order, the later-checked
/// displays of its group with another path, each display reported once.
pub open spec fn group_conflicts_of(d: Seq<(Seq<char>, WallpaperInfoModel)>) -> Seq<(Seq<char>, Seq<char>, u8)> {
    if d.len() > 1 {
        conflict_rows(d, d.len() as int).map_values(|c: (int, int)| conflict_entry(d, c))
    } else {
        Seq::empty()
    }
}

/// The texts of conflict entries.
pub open spec fn conflicts_view(v: Seq<(String, String, u8)>) -> Seq<(Seq<char>, Seq<char>, u8)> {
    v.map_values(|e: (String, String, u8)| (e.0@, e.1@, e.2))
}

/// Whether `j` is listed.
fn listed(v: &Vec<usize>, j: usize) -> (b: bool)
    ensures
        b == v@.contains(j),
{
    let mut k: usize = 0;
    while k < v.len()
        invariant
            k <= v@.len(),
            forall|m: int| 0 <= m < k ==> v@[m] != j,
        decreases v@.len() - k,
    {
        if v[k] == j {
            return true;
        }
        k += 1;
    }
    false
}

/// The displays of a group that have different paths, as pairs of names
/// with the group: the configuration is wrong, and the caller warns about
/// each pair. Each display is reported once.
pub fn group_conflicts(displays: &Vec<(String, WallpaperInfo)>) -> (r: Vec<(String, String, u8)>)
    ensures
        conflicts_view(r@) == group_conflicts_of(displays_view(displays@)),
{
    let ghost d = displays_view(displays@);
    let n = displays.len();
    let mut out: Vec<(String, String, u8)> = Vec::new();
    if n <= 1 {
        proof {
            assert(conflicts_view(out@) =~= Seq::<(Seq<char>, Seq<char>, u8)>::empty());
        }
        return out;
    }
    let ghost f = |c: (int, int)| conflict_entry(d, c);
    // The displays already reported.
    let mut errored: Vec<usize> = Vec::new();
    let mut i: usize = 0;
    proof {
        assert(conflicts_view(out@) =~= conflict_rows(d, 0).map_values(f));
    }
    while i < n
        invariant
            n == displays@.len(),
            d == displays_view(displays@),
            n > 1,
            i <= n,
            f == (|c: (int, int)| conflict_entry(d, c)),
            conflicts_view(out@) == conflict_rows(d, i as int).map_values(f),
            forall|j: usize| #[trigger] errored@.contains(j) <==> (1 <= j < n && exists|k: int| 0 <= k < i && in_conflict(d, k, j as int)),
        decreases n - i,
    {
        let mut j: usize = 1;
        let ghost base = conflict_rows(d, i as int);
        proof {
            assert(conflict_cells(d, i as int, 1) =~= Seq::<(int, int)>::empty());
            assert(base + conflict_cells(d, i as int, 1) =~= base);
        }
        while j < n
            invariant
                n == displays@.len(),
                d == displays_view(displays@),
                n > 1,
                i < n,
                1 <= j <= n,
                f == (|c: (int, int)| conflict_entry(d, c)),
                base == conflict_rows(d, i as int),
                conflicts_view(out@) == (base + conflict_cells(d, i as int, j as int)).map_values(f),
                forall|m: usize| #[trigger] errored@.contains(m) <==> (1 <= m < n && ((exists|k: int| 0 <= k < i && in_conflict(d, k, m as int)) || (m < j && in_conflict(d, i as int, m as int)))),
            decreases n - j,
        {
            let skip = listed(&errored, j);
            let x = &displays[i];
            let y = &displays[j];
            let grouped = match x.1.sorting {
                Some(Sorting::GroupedRandom { .. }) => true,
                _ => false,
            };
            let conflict = grouped && x.1.sorting == y.1.sorting && x.1.path != y.1.path;
            proof {
                assert(d[i as int] == (x.0@, x.1@));
                assert(d[j as int] == (y.0@, y.1@));
                assert(conflict == in_conflict(d, i as int, j as int));
                assert(skip == exists|k: int| 0 <= k < i && in_conflict(d, k, j as int));
                assert(!skip && conflict <==> reported(d, i as int, j as int));
            }
            let ghost before = out@;
            let ghost before_errored = errored@;
            if !skip && conflict {
                let group = match x.1.sorting {
                    Some(Sorting::GroupedRandom { group }) => group,
                    _ => 0,
                };
                out.push((x.0.clone(), y.0.clone(), group));
                errored.push(j);
                proof {
                    assert(conflicts_view(out@) =~= conflicts_view(before).push(conflict_entry(d, (i as int, j as int))));
                    assert(conflict_cells(d, i as int, j + 1) == conflict_cells(d, i as int, j as int) + seq![(i as int, j as int)]);
                    assert((base + conflict_cells(d, i as int, j + 1)) =~= (base + conflict_cells(d, i as int, j as int)).push((i as int, j as int)));
                    assert(conflicts_view(out@) =~= (base + conflict_cells(d, i as int, j + 1)).map_values(f));
                    assert(errored@ == before_errored.push(j));
                    assert forall|m: usize| #[trigger] errored@.contains(m) <==> (1 <= m < n && ((exists|k: int| 0 <= k < i && in_conflict(d, k, m as int)) || (m < j + 1 && in_conflict(d, i as int, m as int)))) by {
                        if m == j {
                            assert(errored@[before_errored.len() as int] == j);
                        } else {
                            if errored@.contains(m) {
                                let q = choose|q: int| 0 <= q < errored@.len() && errored@[q] == m;
                                assert(q < before_errored.len());
                                assert(before_errored[q] == m);
                            }
                            if before_errored.contains(m) {
                                let q = choose|q: int| 0 <= q < before_errored.len() && before_errored[q] == m;
                                assert(errored@[q] == m);
                            }
                        }
                    }
                }
            } else {
                proof {
                    assert(conflict_cells(d, i as int, j + 1) =~= conflict_cells(d, i as int, j as int));
                    assert forall|m: usize| #[trigger] errored@.contains(m) <==> (1 <= m < n && ((exists|k: int| 0 <= k < i && in_conflict(d, k, m as int)) || (m < j + 1 && in_conflict(d, i as int, m as int)))) by {
                        if m == j {
                            assert(errored@.contains(j) == skip);
                        }
                    }
                }
            }
            j += 1;
        }
        proof {
            assert(conflict_rows(d, i + 1) == base + conflict_cells(d, i as int, n as int));
            assert forall|m: usize| #[trigger] errored@.contains(m) <==> (1 <= m < n && exists|k: int| 0 <= k < i + 1 && in_conflict(d, k, m as int)) by {
                if 1 <= m < n && (exists|k: int| 0 <= k < i + 1 && in_conflict(d, k, m as int)) {
                    let k = choose|k: int| 0 <= k < i + 1 && in_conflict(d, k, m as int);
                    if k < i {
                        assert(exists|k: int| 0 <= k < i && in_conflict(d, k, m as int));
                    }
                }
            }
        }
        i += 1;
    }
    out
}

/// The displays whose sections validate, in order, with their settings,
/// when what is on disk at their paths is `kinds`.
pub open spec fn validated_list(
    data: Seq<(Seq<char>, SectionModel)>,
    d: SectionModel,
    kinds: Seq<PathKind>,
) -> Seq<(Seq<char>, WallpaperInfoModel)>
    decreases data.len(),
{
    if data.len() == 0 {
        Seq::empty()
    } else {
        let rest = validated_list(data.drop_last(), d, kinds.drop_last());
        match validated(data.last().1, d, kinds[data.len() - 1]) {
            Ok(w) => rest.push((data.last().0, w)),
            Err(_) => rest,
        }
    }
}

impl Config {
    /// The displays whose sections validate against what is on disk, in
    /// order, with their settings.
    pub fn validated_displays(&self) -> (v: Vec<(String, WallpaperInfo)>)
        ensures
            exists|kinds: Seq<PathKind>|
                kinds.len() == self@.data.len() && displays_view(v@) == validated_list(
                    self@.data,
                    self@.default,
                    kinds,
                ),
    {
        let ghost dv = sections_view(self.data@);
        let ghost mut kinds: Seq<PathKind> = Seq::empty();
        let mut v: Vec<(String, WallpaperInfo)> = Vec::new();
        let mut i: usize = 0;
        proof {
            assert(dv.take(0) =~= Seq::<(Seq<char>, SectionModel)>::empty());
        }
        while i < self.data.len()
            invariant
                i <= self.data@.len(),
                dv == sections_view(self.data@),
                kinds.len() == i,
                displays_view(v@) == validated_list(dv.take(i as int), self.default@, kinds),
            decreases self.data@.len() - i,
        {
            let r = self.data[i].1.apply_and_validate(&self.default);
            let ghost k = choose|k: PathKind| validation_view(r) == validated(dv[i as int].1, self.default@, k);
            let ghost before = v@;
            proof {
                assert(dv.take(i + 1).drop_last() =~= dv.take(i as int));
                assert(kinds.push(k).drop_last() =~= kinds);
                assert(dv.take(i + 1).last() == dv[i as int]);
            }
            if let Ok(info) = r {
                v.push((self.data[i].0.clone(), info));
                proof {
                    assert(displays_view(v@) =~= displays_view(before).push((dv[i as int].0, info@)));
                }
            }
            proof {
                kinds = kinds.push(k);
            }
            i += 1;
        }
        proof {
            assert(dv.take(dv.len() as int) =~= dv);
            assert(self@.data == dv);
            assert(kinds.len() == self@.data.len() && displays_view(v@) == validated_list(
                self@.data,
                self@.default,
                kinds,
            ));
        }
        v
    }
}

} // verus!
