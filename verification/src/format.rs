//! Small value types attached to formatted text: colors, font identities,
//! and inline images.

use vstd::prelude::*;

verus! {

/// Identity of one concrete font face (one selectable font resource).
#[derive(Clone, Copy, Debug, PartialEq, Eq, Structural, PartialOrd, Ord, Hash)]
pub struct FontFaceId(pub usize);

/// Identity of one font instance (a face at a particular configuration).
#[derive(Clone, Copy, Debug, PartialEq, Eq, Structural, PartialOrd, Ord, Hash)]
pub struct FontId(pub usize);

/// An RGBA color with 8-bit channels.
#[derive(Clone, Copy, Debug, PartialEq, Eq, Structural)]
pub struct Color {
    pub r: u8,
    pub g: u8,
    pub b: u8,
    pub a: u8,
}

impl Color {
    #[inline]
    pub fn new(r: u8, g: u8, b: u8, a: u8) -> (c: Color)
        ensures
            c.r == r,
            c.g == g,
            c.b == b,
            c.a == a,
    {
        Color { r, g, b, a }
    }
}

/// An inline image attachment: an identifier plus its alternative text.
#[derive(Clone, Debug, PartialEq)]
pub struct Image {
    pub id: u32,
    pub alt_text: String,
}

/// One formatting attribute of a span of rich text: the font it is set
/// in, its color, a link it belongs to, or an inline image it stands
/// for.
#[derive(Clone, Debug, PartialEq)]
pub enum Format {
    Font(FontId),
    Color(Color),
    Link(u32, String),
    Image(u32),
}

impl Format {
    #[inline]
    pub fn from_font(font: FontId) -> (r: Format)
        ensures
            r == Format::Font(font),
    {
        Format::Font(font)
    }

    #[inline]
    pub fn from_color(color: Color) -> (r: Format)
        ensures
            r == Format::Color(color),
    {
        Format::Color(color)
    }

    #[inline]
    pub fn from_link(link_id: u32, url: String) -> (r: Format)
        ensures
            r == Format::Link(link_id, url),
    {
        Format::Link(link_id, url)
    }

    #[inline]
    pub fn from_image(image_id: u32) -> (r: Format)
        ensures
            r == Format::Image(image_id),
    {
        Format::Image(image_id)
    }

    /// The font attribute's payload, if this is one.
    pub fn font(&self) -> (r: Option<FontId>)
        ensures
            r == (match self {
                Format::Font(font) => Some(*font),
                _ => None::<FontId>,
            }),
    {
        if let Format::Font(font) = self {
            Some(*font)
        } else {
            None
        }
    }

    /// The color attribute's payload, if this is one.
    pub fn color(&self) -> (r: Option<Color>)
        ensures
            r == (match self {
                Format::Color(color) => Some(*color),
                _ => None::<Color>,
            }),
    {
        if let Format::Color(color) = self {
            Some(*color)
        } else {
            None
        }
    }

    /// The link attribute's payload, if this is one.
    pub fn link(&self) -> (r: Option<(u32, &String)>)
        ensures
            r == (match self {
                Format::Link(link_id, url) => Some((*link_id, url)),
                _ => None::<(u32, &String)>,
            }),
    {
        if let Format::Link(link_id, url) = self {
            Some((*link_id, url))
        } else {
            None
        }
    }

    /// The image attribute's payload, if this is one.
    pub fn image(&self) -> (r: Option<u32>)
        ensures
            r == (match self {
                Format::Image(image_id) => Some(*image_id),
                _ => None::<u32>,
            }),
    {
        if let Format::Image(image_id) = self {
            Some(*image_id)
        } else {
            None
        }
    }
}

} // verus!
