//! Recognising image files by their leading bytes.
//!
//! Image data is identified by its magic bytes rather than by file name, so
//! a file renamed with the wrong extension is still decoded correctly. The
//! detection below reads the first twelve bytes; loading and converting the
//! recognised image happen outside the library.

use vstd::prelude::*;
use vstd::slice::slice_index_get;

verus! {

/// The image file formats that can be recognised from a header.
#[derive(Debug, Clone, Copy, PartialEq, Eq, Structural)]
pub enum ImageKind {
    Png,
    Jpeg,
    Gif,
    WebP,
    Bmp,
    Tiff,
    Ico,
    Qoi,
}

/// What `detect_format` answers for a twelve-byte header: the first format
/// whose magic bytes match, tried in a fixed order.
pub open spec fn spec_detect(h: Seq<u8>) -> Option<ImageKind> {
    if h[0] == 0x89 && h[1] == 0x50 && h[2] == 0x4e && h[3] == 0x47 && h[4] == 0x0d && h[5]
        == 0x0a && h[6] == 0x1a && h[7] == 0x0a {
        Some(ImageKind::Png)
    } else if h[0] == 0xff && h[1] == 0xd8 && h[2] == 0xff {
        Some(ImageKind::Jpeg)
    } else if h[0] == 0x47 && h[1] == 0x49 && h[2] == 0x46 && h[3] == 0x38 && (h[4] == 0x37 || h[4]
        == 0x39) && h[5] == 0x61 {
        Some(ImageKind::Gif)
    } else if h[0] == 0x52 && h[1] == 0x49 && h[2] == 0x46 && h[3] == 0x46 && h[8] == 0x57 && h[9]
        == 0x45 && h[10] == 0x42 && h[11] == 0x50 {
        Some(ImageKind::WebP)
    } else if h[0] == 0x42 && h[1] == 0x4d {
        Some(ImageKind::Bmp)
    } else if (h[0] == 0x49 && h[1] == 0x49 && h[2] == 0x2a && h[3] == 0x00) || (h[0] == 0x4d && h[1]
        == 0x4d && h[2] == 0x00 && h[3] == 0x2a) {
        Some(ImageKind::Tiff)
    } else if h[0] == 0x00 && h[1] == 0x00 && h[2] == 0x01 && h[3] == 0x00 {
        Some(ImageKind::Ico)
    } else if h[0] == 0x71 && h[1] == 0x6f && h[2] == 0x69 && h[3] == 0x66 {
        Some(ImageKind::Qoi)
    } else {
        None
    }
}

/// Recognises the image format of a file from its first twelve bytes, by
/// the magic numbers of the supported formats. `None` when no format
/// matches.
pub fn detect_format(header: &[u8]) -> (r: Option<ImageKind>)
    requires
        header@.len() >= 12,
    ensures
        r == spec_detect(header@),
{
    let b0 = *slice_index_get(header, 0);
    let b1 = *slice_index_get(header, 1);
    let b2 = *slice_index_get(header, 2);
    let b3 = *slice_index_get(header, 3);
    let b4 = *slice_index_get(header, 4);
    let b5 = *slice_index_get(header, 5);
    let b6 = *slice_index_get(header, 6);
    let b7 = *slice_index_get(header, 7);
    let b8 = *slice_index_get(header, 8);
    let b9 = *slice_index_get(header, 9);
    let b10 = *slice_index_get(header, 10);
    let b11 = *slice_index_get(header, 11);
    if b0 == 0x89 && b1 == 0x50 && b2 == 0x4e && b3 == 0x47 && b4 == 0x0d && b5 == 0x0a && b6
        == 0x1a && b7 == 0x0a {
        Some(ImageKind::Png)
    } else if b0 == 0xff && b1 == 0xd8 && b2 == 0xff {
        Some(ImageKind::Jpeg)
    } else if b0 == 0x47 && b1 == 0x49 && b2 == 0x46 && b3 == 0x38 && (b4 == 0x37 || b4 == 0x39)
        && b5 == 0x61 {
        Some(ImageKind::Gif)
    } else if b0 == 0x52 && b1 == 0x49 && b2 == 0x46 && b3 == 0x46 && b8 == 0x57 && b9 == 0x45
        && b10 == 0x42 && b11 == 0x50 {
        Some(ImageKind::WebP)
    } else if b0 == 0x42 && b1 == 0x4d {
        Some(ImageKind::Bmp)
    } else if (b0 == 0x49 && b1 == 0x49 && b2 == 0x2a && b3 == 0x00) || (b0 == 0x4d && b1 == 0x4d
        && b2 == 0x00 && b3 == 0x2a) {
        Some(ImageKind::Tiff)
    } else if b0 == 0x00 && b1 == 0x00 && b2 == 0x01 && b3 == 0x00 {
        Some(ImageKind::Ico)
    } else if b0 == 0x71 && b1 == 0x6f && b2 == 0x69 && b3 == 0x66 {
        Some(ImageKind::Qoi)
    } else {
        None
    }
}

} // verus!
