# wpaperd

The decision logic of a wallpaper daemon for Wayland compositors, verified
with Verus, and `wpaperctl`, the command line client that talks to the
daemon.

## Layout

- `src/` — the verified library (crate `wpaperd`):
  - `queue.rs`: the history of the wallpapers shown on a display, walked
    with `next`/`previous`, with the random cycle that avoids repeats;
  - `image_picker.rs`: choosing the next wallpaper, in random order with the
    history, shared by a group of displays, or in name order;
  - `wallpaper_groups.rs`: the groups of displays sharing a wallpaper;
  - `filelist_cache.rs`: the lists of image files under the configured
    paths;
  - `config.rs`: merging each display section of the configuration with
    the `default` section, validating it, and choosing the section of an
    output;
  - `surface.rs`: the per-display state machine of the automatic change
    timer, its pause state and the loading of images;
  - `image_loader.rs`: which displays wait for each image being decoded;
  - `ipc.rs`: the messages of `wpaperctl` and how they are answered;
  - `daemon.rs`: the name, description and settings of a new output, and
    finding a display by name;
  - `wallpaper_info.rs`, `wallpaper.rs`, `output_timer.rs`: the settings of
    a display, the size of a loaded texture, and the timer of an output;
  - `path_order.rs`: paths split into components and compared and ordered
    by them, as the configured paths and the cache keys are;
  - `system.rs`: the calls to the disk, the random number generator and the
    media type guesser, with their contracts.
- `tests/` — the tests of the library.
- `app/` — `wpaperctl`: argument parsing, the socket, JSON and printing.

Times are nanoseconds on a monotonic clock handed in by the caller, and
paths are strings.
