//! Finding the icon of a running process: the decisions and file formats
//! behind the lookup, verified with Verus.
//!
//! - [`desktop`]: desktop entries, which tell the icon of a Linux
//!   application from the command it runs;
//! - [`lookup`]: what an icon name stands for on Linux;
//! - [`unix_path`]: Unix paths, and the application bundle that holds a
//!   macOS executable;
//! - [`manifest`] and [`xml`]: the package manifest of a packaged Windows
//!   application, and the logo variant closest to the wanted size;
//! - [`bitmap`]: the buffers exchanged with the Windows icon API.
use vstd::prelude::*;

pub mod bitmap;
pub mod desktop;
pub mod lookup;
pub mod manifest;
pub mod text;
pub mod unix_path;
pub mod xml;

verus! {

/// Where the pixels of an icon come from.
pub enum IconSource {
    /// A raster image file (PNG), by its path.
    ImagePath(String),
    /// A vector image file (SVG), by its path.
    SvgPath(String),
    /// Encoded image data (TIFF on macOS).
    ImageBytes(Vec<u8>),
    /// Raw pixels, four bytes each in the order red, green, blue, alpha,
    /// row by row.
    Rgba { width: u32, height: u32, pixels: Vec<u8> },
}

/// The answer on systems where icons cannot be looked up yet.
pub open spec fn unsupported_os_message() -> Seq<char> {
    "This OS isn't supported yet"@
}

/// Looks up icons on a system that has no support yet (the BSDs): always
/// fails, with the message that this OS isn't supported yet.
pub fn get_icon_by_path() -> (r: Result<IconSource, String>)
    ensures
        r matches Err(message) && message@ == unsupported_os_message(),
{
    Err(String::from_str("This OS isn't supported yet"))
}

} // verus!
