//! The settings that decide how a display shows its wallpaper.

use vstd::prelude::*;

use crate::views;

verus! {

/// How the next wallpaper of a directory is chosen.
#[derive(Debug, Copy, Clone, PartialEq, Eq, Structural)]
pub enum Sorting {
    Random,
    /// Random, sharing the wallpaper with the other displays of the group.
    GroupedRandom { group: u8 },
    Ascending,
    Descending,
}

impl Sorting {
    /// The sorting used when none is configured.
    pub fn default_sorting() -> (s: Sorting)
        ensures
            s == Sorting::Random,
    {
        Sorting::Random
    }
}

/// How an image is fitted to a display whose size differs from its own.
#[derive(Debug, Copy, Clone, PartialEq, Eq, Structural)]
pub enum BackgroundMode {
    Stretch,
    Center,
    Fit,
    Tile,
    FitBorderColor,
}

impl BackgroundMode {
    /// The mode used when none is configured.
    pub fn default_mode() -> (m: BackgroundMode)
        ensures
            m == BackgroundMode::Center,
    {
        BackgroundMode::Center
    }

    /// How the texture of an image is continued past its edges in this
    /// mode: repeated for a tile, its border pixels stretched for a fit that
    /// takes the border color, and a border elsewhere.
    pub fn texture_wrap(self) -> (w: TextureWrap)
        ensures
            w == match self {
                BackgroundMode::Tile => TextureWrap::Repeat,
                BackgroundMode::FitBorderColor => TextureWrap::ClampToEdge,
                _ => TextureWrap::ClampToBorder,
            },
    {
        match self {
            BackgroundMode::Stretch | BackgroundMode::Center | BackgroundMode::Fit => TextureWrap::ClampToBorder,
            BackgroundMode::Tile => TextureWrap::Repeat,
            BackgroundMode::FitBorderColor => TextureWrap::ClampToEdge,
        }
    }
}

/// How a texture continues past its edges.
#[derive(Debug, Copy, Clone, PartialEq, Eq, Structural)]
pub enum TextureWrap {
    /// A border color surrounds the image.
    ClampToBorder,
    /// The image repeats.
    Repeat,
    /// The pixels at the edge continue.
    ClampToEdge,
}

/// The transitions shown when the wallpaper changes.
#[derive(Debug, Copy, Clone, PartialEq, Eq, Structural)]
pub enum TransitionKind {
    BookFlip,
    Bounce,
    BowTieHorizontal,
    BowTieVertical,
    ButterflyWaveScrawler,
    Circle,
    CircleCrop,
    CircleOpen,
    ColourDistance,
    CrossWarp,
    CrossZoom,
    Directional,
    DirectionalScaled,
    DirectionalWipe,
    Dissolve,
    Doom,
    Dreamy,
    DreamyZoom,
    Edge,
    Fade,
    FilmBurn,
    GlitchDisplace,
    GlitchMemories,
    GridFlip,
    Hexagonalize,
    HorizontalClose,
    HorizontalOpen,
    InvertedPageCurl,
    LeftRight,
    LinearBlur,
    Mosaic,
    Overexposure,
    Pixelize,
    PolkaDotsCurtain,
    Radial,
    Rectangle,
    Ripple,
    Rolls,
    RotateScaleFade,
}

/// How many milliseconds a transition runs when `transition-time` is not
/// configured.
pub open spec fn spec_default_transition_time(kind: TransitionKind) -> u32 {
    match kind {
            TransitionKind::BookFlip => 2000,
            TransitionKind::Bounce => 4000,
            TransitionKind::BowTieHorizontal => 1500,
            TransitionKind::BowTieVertical => 1500,
            TransitionKind::ButterflyWaveScrawler => 2000,
            TransitionKind::Circle => 3000,
            TransitionKind::CircleCrop => 3000,
            TransitionKind::CircleOpen => 1500,
            TransitionKind::ColourDistance => 2000,
            TransitionKind::CrossWarp => 1000,
            TransitionKind::CrossZoom => 2000,
            TransitionKind::Directional => 1000,
            TransitionKind::DirectionalScaled => 1000,
            TransitionKind::DirectionalWipe => 1000,
            TransitionKind::Dissolve => 1000,
            TransitionKind::Doom => 2000,
            TransitionKind::Dreamy => 1500,
            TransitionKind::DreamyZoom => 1500,
            TransitionKind::Edge => 1500,
            TransitionKind::Fade => 300,
            TransitionKind::FilmBurn => 2000,
            TransitionKind::GlitchDisplace => 1500,
            TransitionKind::GlitchMemories => 1500,
            TransitionKind::GridFlip => 1500,
            TransitionKind::Hexagonalize => 2000,
            TransitionKind::HorizontalClose => 2000,
            TransitionKind::HorizontalOpen => 2000,
            TransitionKind::InvertedPageCurl => 2000,
            TransitionKind::LeftRight => 2000,
            TransitionKind::LinearBlur => 800,
            TransitionKind::Mosaic => 2000,
            TransitionKind::Overexposure => 2000,
            TransitionKind::Pixelize => 1500,
            TransitionKind::PolkaDotsCurtain => 2000,
            TransitionKind::Radial => 1500,
            TransitionKind::Rectangle => 2000,
            TransitionKind::Ripple => 1500,
            TransitionKind::Rolls => 2000,
            TransitionKind::RotateScaleFade => 1500,
    }
}

impl TransitionKind {
    /// How many milliseconds this transition runs when `transition-time` is
    /// not configured.
    pub fn default_transition_time(&self) -> (t: u32)
        ensures
            t == spec_default_transition_time(*self),
    {
        match self {
            TransitionKind::BookFlip => 2000,
            TransitionKind::Bounce => 4000,
            TransitionKind::BowTieHorizontal => 1500,
            TransitionKind::BowTieVertical => 1500,
            TransitionKind::ButterflyWaveScrawler => 2000,
            TransitionKind::Circle => 3000,
            TransitionKind::CircleCrop => 3000,
            TransitionKind::CircleOpen => 1500,
            TransitionKind::ColourDistance => 2000,
            TransitionKind::CrossWarp => 1000,
            TransitionKind::CrossZoom => 2000,
            TransitionKind::Directional => 1000,
            TransitionKind::DirectionalScaled => 1000,
            TransitionKind::DirectionalWipe => 1000,
            TransitionKind::Dissolve => 1000,
            TransitionKind::Doom => 2000,
            TransitionKind::Dreamy => 1500,
            TransitionKind::DreamyZoom => 1500,
            TransitionKind::Edge => 1500,
            TransitionKind::Fade => 300,
            TransitionKind::FilmBurn => 2000,
            TransitionKind::GlitchDisplace => 1500,
            TransitionKind::GlitchMemories => 1500,
            TransitionKind::GridFlip => 1500,
            TransitionKind::Hexagonalize => 2000,
            TransitionKind::HorizontalClose => 2000,
            TransitionKind::HorizontalOpen => 2000,
            TransitionKind::InvertedPageCurl => 2000,
            TransitionKind::LeftRight => 2000,
            TransitionKind::LinearBlur => 800,
            TransitionKind::Mosaic => 2000,
            TransitionKind::Overexposure => 2000,
            TransitionKind::Pixelize => 1500,
            TransitionKind::PolkaDotsCurtain => 2000,
            TransitionKind::Radial => 1500,
            TransitionKind::Rectangle => 2000,
            TransitionKind::Ripple => 1500,
            TransitionKind::Rolls => 2000,
            TransitionKind::RotateScaleFade => 1500,
        }
    }
}

/// Abstract value of a [`Transition`].
pub struct TransitionModel {
    pub kind: TransitionKind,
    pub settings: Seq<Option<Seq<u32>>>,
}

/// A transition with its settings: for each setting of the kind, in the
/// order the kind declares them, the configured value as 32-bit words (the
/// bit patterns of its numbers), or `None` to use the default.
#[derive(Debug)]
pub struct Transition {
    pub kind: TransitionKind,
    pub settings: Vec<Option<Vec<u32>>>,
}

/// The values of a sequence of optional words.
pub open spec fn settings_view(s: Seq<Option<Vec<u32>>>) -> Seq<Option<Seq<u32>>> {
    s.map_values(|o: Option<Vec<u32>>| match o {
        Some(v) => Some(v@),
        None => None,
    })
}

impl View for Transition {
    type V = TransitionModel;

    open spec fn view(&self) -> TransitionModel {
        TransitionModel { kind: self.kind, settings: settings_view(self.settings@) }
    }
}

/// A copy of a sequence of words.
pub fn copy_words(v: &Vec<u32>) -> (r: Vec<u32>)
    ensures
        r@ == v@,
{
    let mut r: Vec<u32> = Vec::new();
    let mut i: usize = 0;
    while i < v.len()
        invariant
            i <= v@.len(),
            r@ == v@.take(i as int),
        decreases v@.len() - i,
    {
        r.push(v[i]);
        i += 1;
        assert(r@ =~= v@.take(i as int));
    }
    assert(v@.take(v@.len() as int) =~= v@);
    r
}

impl Transition {
    /// The `fade` transition with its default settings.
    pub fn fade() -> (t: Transition)
        ensures
            t@.kind == TransitionKind::Fade,
            t@.settings == Seq::<Option<Seq<u32>>>::empty(),
    {
        let t = Transition { kind: TransitionKind::Fade, settings: Vec::new() };
        assert(t@.settings =~= Seq::<Option<Seq<u32>>>::empty());
        t
    }

    /// A copy of this transition.
    pub fn copy(&self) -> (t: Transition)
        ensures
            t@ == self@,
    {
        let mut settings: Vec<Option<Vec<u32>>> = Vec::new();
        let mut i: usize = 0;
        while i < self.settings.len()
            invariant
                i <= self.settings@.len(),
                settings_view(settings@) == settings_view(self.settings@).take(i as int),
            decreases self.settings@.len() - i,
        {
            let ghost before = settings@;
            let s = match &self.settings[i] {
                Some(v) => Some(copy_words(v)),
                None => None,
            };
            settings.push(s);
            proof {
                assert(settings@ == before.push(s));
                let sv = settings_view(self.settings@);
                assert(settings_view(before).len() == before.len());
                assert(before.len() == i);
                assert(settings@.len() == i + 1);
                assert(settings_view(settings@)[i as int] == (match s {
                    Some(v) => Some(v@),
                    None => None,
                }));
                assert(sv[i as int] == (match self.settings@[i as int] {
                    Some(v) => Some(v@),
                    None => None,
                }));
                assert forall|j: int| 0 <= j < i + 1 implies #[trigger] settings_view(settings@)[j]
                    == sv.take(i + 1)[j] by {
                    if j < i {
                        assert(settings@[j] == before[j]);
                        assert(settings_view(before)[j] == sv[j]);
                    }
                }
                assert(settings_view(settings@) =~= sv.take(i + 1));
            }
            i += 1;
        }
        assert(settings_view(self.settings@).take(self.settings@.len() as int) =~= settings_view(
            self.settings@,
        ));
        Transition { kind: self.kind, settings }
    }

    /// Whether two transitions are the same kind with the same settings.
    pub fn same_as(&self, other: &Transition) -> (b: bool)
        ensures
            b == (self@ == other@),
    {
        if self.kind != other.kind || self.settings.len() != other.settings.len() {
            proof {
                if self.settings.len() != other.settings.len() {
                    assert(self@.settings.len() != other@.settings.len());
                }
            }
            return false;
        }
        let mut i: usize = 0;
        while i < self.settings.len()
            invariant
                i <= self.settings@.len(),
                self.settings@.len() == other.settings@.len(),
                forall|j: int| 0 <= j < i ==> self@.settings[j] == other@.settings[j],
            decreases self.settings@.len() - i,
        {
            let same = match (&self.settings[i], &other.settings[i]) {
                (Some(a), Some(b)) => crate::same_words(a, b),
                (None, None) => true,
                _ => false,
            };
            if !same {
                assert(self@.settings[i as int] != other@.settings[i as int]);
                return false;
            }
            i += 1;
        }
        assert(self@.settings =~= other@.settings);
        true
    }
}

/// Abstract value of a [`WallpaperInfo`].
pub struct WallpaperInfoModel {
    pub path: Seq<char>,
    pub duration: Option<u128>,
    pub apply_shadow: bool,
    pub sorting: Option<Sorting>,
    pub mode: BackgroundMode,
    pub drawn_images_queue_size: usize,
    pub transition_time: u32,
    pub initial_transition: bool,
    pub transition: TransitionModel,
    pub offset: Option<u32>,
}

/// The settings of one display, after merging its section with the
/// `default` section and validating them.
#[derive(Debug)]
pub struct WallpaperInfo {
    /// An image, or a directory to pick the images from.
    pub path: String,
    /// How long, in nanoseconds, an image stays on screen.
    pub duration: Option<u128>,
    pub apply_shadow: bool,
    pub sorting: Option<Sorting>,
    pub mode: BackgroundMode,
    pub drawn_images_queue_size: usize,
    /// How long, in milliseconds, the transition runs.
    pub transition_time: u32,
    /// Whether the first wallpaper fades in from black (`true`) or is shown
    /// at once (`false`).
    pub initial_transition: bool,
    pub transition: Transition,
    /// The offset of the image on the screen, from 0.0 to 1.0, as the bit
    /// pattern of the `f32` value.
    pub offset: Option<u32>,
}

impl View for WallpaperInfo {
    type V = WallpaperInfoModel;

    open spec fn view(&self) -> WallpaperInfoModel {
        WallpaperInfoModel {
            path: self.path@,
            duration: self.duration,
            apply_shadow: self.apply_shadow,
            sorting: self.sorting,
            mode: self.mode,
            drawn_images_queue_size: self.drawn_images_queue_size,
            transition_time: self.transition_time,
            initial_transition: self.initial_transition,
            transition: self.transition@,
            offset: self.offset,
        }
    }
}

/// How many images the history of a display holds when `queue-size` is not
/// configured.
pub const DEFAULT_DRAWN_IMAGES_QUEUE_SIZE: usize = 10;

impl WallpaperInfo {
    /// The settings used for a display whose configuration is missing or
    /// invalid: no path, no duration, no shadow, no sorting, centered, the
    /// default history size, the `fade` transition with its default time,
    /// shown from black, no offset.
    pub open spec fn default_info_model() -> WallpaperInfoModel {
        WallpaperInfoModel {
            path: Seq::empty(),
            duration: None,
            apply_shadow: false,
            sorting: None,
            mode: BackgroundMode::Center,
            drawn_images_queue_size: DEFAULT_DRAWN_IMAGES_QUEUE_SIZE,
            transition_time: spec_default_transition_time(TransitionKind::Fade),
            initial_transition: true,
            transition: TransitionModel { kind: TransitionKind::Fade, settings: Seq::empty() },
            offset: None,
        }
    }

    /// The settings used for a display whose configuration is missing or
    /// invalid.
    pub fn default_info() -> (w: WallpaperInfo)
        ensures
            w@ == Self::default_info_model(),
    {
        let transition = Transition::fade();
        WallpaperInfo {
            path: String::new(),
            duration: None,
            apply_shadow: false,
            sorting: None,
            mode: BackgroundMode::default_mode(),
            drawn_images_queue_size: DEFAULT_DRAWN_IMAGES_QUEUE_SIZE,
            transition_time: TransitionKind::Fade.default_transition_time(),
            initial_transition: true,
            transition,
            offset: None,
        }
    }

    /// Whether two settings are the same.
    pub fn same_as(&self, other: &WallpaperInfo) -> (b: bool)
        ensures
            b == (self@ == other@),
    {
        self.path == other.path && self.duration == other.duration && self.apply_shadow
            == other.apply_shadow && self.sorting == other.sorting && self.mode == other.mode
            && self.drawn_images_queue_size == other.drawn_images_queue_size && self.transition_time
            == other.transition_time && self.initial_transition == other.initial_transition
            && self.transition.same_as(&other.transition) && self.offset == other.offset
    }
}

} // verus!
