//! What the daemon decides when an output appears: its name, its
//! description and its settings; and how a display is found by name.

use vstd::prelude::*;

use crate::config::{section_for_output, validated, validation_view, Config, PathKind};
use crate::ipc::{first_named, surface_names, surfaces_view};
use crate::surface::Surface;
use crate::wallpaper_info::{WallpaperInfo, WallpaperInfoModel};

verus! {

/// The name and the description of an output, when the compositor gives
/// them: `unnamed` and `no-description` otherwise.
pub fn output_identity(name: Option<String>, description: Option<String>) -> (r: (String, String))
    ensures
        r.0@ == match name {
            Some(n) => n@,
            None => "unnamed"@,
        },
        r.1@ == match description {
            Some(d) => d@,
            None => "no-description"@,
        },
{
    let n = match name {
        Some(n) => n,
        None => String::from_str("unnamed"),
    };
    let d = match description {
        Some(d) => d,
        None => String::from_str("no-description"),
    };
    (n, d)
}

/// The settings of a new output: those of its section, or the built-in
/// defaults when its section cannot be used.
pub open spec fn new_output_settings(c: Config, name: Seq<char>, description: Seq<char>, kind: PathKind, default_info: WallpaperInfoModel) -> WallpaperInfoModel {
    match validated(section_for_output(c@, name, description), c@.default, kind) {
        Ok(w) => w,
        Err(_) => default_info,
    }
}

/// The settings of the new output called `name` with the description
/// `description`: its section merged with `default` and validated against
/// what is on disk, or the built-in defaults when that fails.
pub fn info_for_new_output(config: &Config, name: &str, description: &str) -> (w: WallpaperInfo)
    ensures
        exists|kind: PathKind|
            w@ == new_output_settings(*config, name@, description@, kind, WallpaperInfo::default_info_model()),
{
    let r = config.get_info_for_output(name, description);
    let ghost kind = choose|kind: PathKind|
        validation_view(r) == validated(section_for_output(config@, name@, description@), config@.default, kind);
    match r {
        Ok(w) => {
            assert(w@ == new_output_settings(*config, name@, description@, kind, WallpaperInfo::default_info_model()));
            w
        },
        Err(_) => {
            let w = WallpaperInfo::default_info();
            assert(w@ == new_output_settings(*config, name@, description@, kind, WallpaperInfo::default_info_model()));
            w
        },
    }
}

/// The position of the first display called `name`.
pub fn surface_from_name(surfaces: &Vec<Surface>, name: &String) -> (r: Option<usize>)
    ensures
        match r {
            Some(i) => surface_names(surfaces_view(surfaces@)).contains(name@) && i == first_named(
                surface_names(surfaces_view(surfaces@)),
                name@,
            ),
            None => !surface_names(surfaces_view(surfaces@)).contains(name@),
        },
{
    let ghost nv = surface_names(surfaces_view(surfaces@));
    let mut i: usize = 0;
    while i < surfaces.len()
        invariant
            i <= surfaces@.len(),
            nv == surface_names(surfaces_view(surfaces@)),
            forall|j: int| 0 <= j < i ==> nv[j] != name@,
        decreases surfaces@.len() - i,
    {
        if surfaces[i].name() == *name {
            proof {
                assert(nv[i as int] == name@);
                let k = first_named(nv, name@);
                if k < i {
                    assert(nv[k] != name@);
                }
                if i < k {
                    assert(nv[i as int] != name@);
                }
            }
            return Some(i);
        }
        i += 1;
    }
    None
}

} // verus!
