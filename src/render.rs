//! The traits a rendering backend implements.
use vstd::prelude::*;

verus! {

/// A rendering backend.
pub trait Renderer: Sized {
    type Error;
    type Image: Image<Self>;
}

/// An image of the renderer `R`.
pub trait Image<R> {
    fn width(&self) -> u32;

    fn height(&self) -> u32;
}

/// The errors of the OpenGL backend.
#[derive(Clone, Copy, PartialEq, Eq, Structural, Debug)]
pub enum Error {
    /// An image was asked of an external texture, and the context lacks the
    /// `GL_OES_EGL_image_external` extension that sampling one needs.
    ExternalImageUnsupported,
}

} // verus!
