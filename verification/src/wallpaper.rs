//! An image loaded into a texture of the renderer, with its size.

use vstd::prelude::*;

verus! {

/// An image loaded into texture `texture` of the renderer.
#[derive(Debug)]
pub struct Wallpaper {
    texture: u32,
    image_width: u32,
    image_height: u32,
}

impl Wallpaper {
    /// The texture holding the image.
    pub closed spec fn texture_id(&self) -> u32 {
        self.texture
    }

    /// The size of the image held.
    pub closed spec fn size(&self) -> (u32, u32) {
        (self.image_width, self.image_height)
    }

    /// An image of `image_width` by `image_height` pixels loaded into
    /// texture `texture`.
    pub fn new(texture: u32, image_width: u32, image_height: u32) -> (w: Wallpaper)
        ensures
            w.texture_id() == texture,
            w.size() == (image_width, image_height),
    {
        Wallpaper { texture, image_width, image_height }
    }

    /// The height of the image, in pixels.
    pub fn get_image_height(&self) -> (h: u32)
        ensures
            h == self.size().1,
    {
        self.image_height
    }

    /// The width of the image, in pixels.
    pub fn get_image_width(&self) -> (w: u32)
        ensures
            w == self.size().0,
    {
        self.image_width
    }

    /// Another image, of `image_width` by `image_height` pixels, is loaded
    /// into the same texture.
    pub fn load_image(&mut self, image_width: u32, image_height: u32)
        ensures
            final(self).texture_id() == old(self).texture_id(),
            final(self).size() == (image_width, image_height),
    {
        self.image_width = image_width;
        self.image_height = image_height;
    }
}

} // verus!
