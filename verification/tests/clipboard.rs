use rust_tools::clipboard::binary_content::{
    bytes_of_clipboard_text, clipboard_text_of_bytes, ClipboardError,
};
use rust_tools::clipboard::image_content::{detect_format, ImageKind};

#[test]
fn test_clipboard_text_is_base64() {
    let text = clipboard_text_of_bytes(&b"hi".to_vec());
    assert_eq!(text, "aGk=");
    let text2 = clipboard_text_of_bytes(&b"hello world~".to_vec());
    assert_eq!(text2, "aGVsbG8gd29ybGR+");
}

#[test]
fn test_clipboard_round_trip() {
    let data: Vec<u8> = vec![0, 1, 2, 250, 251, 252, 253, 254, 255];
    let text = clipboard_text_of_bytes(&data);
    let back = bytes_of_clipboard_text(&text).unwrap();
    assert_eq!(back, data);
}

#[test]
fn test_clipboard_text_errors() {
    assert_eq!(bytes_of_clipboard_text(""), Err(ClipboardError::Empty));
    assert_eq!(bytes_of_clipboard_text("!!!"), Err(ClipboardError::BadEncoding));
}

#[test]
fn test_detect_format_magic_bytes() {
    let png = [0x89u8, 0x50, 0x4e, 0x47, 0x0d, 0x0a, 0x1a, 0x0a, 0, 0, 0, 0];
    assert_eq!(detect_format(&png), Some(ImageKind::Png));
    let jpeg = [0xffu8, 0xd8, 0xff, 0xe0, 0, 0, 0, 0, 0, 0, 0, 0];
    assert_eq!(detect_format(&jpeg), Some(ImageKind::Jpeg));
    let gif = [0x47u8, 0x49, 0x46, 0x38, 0x39, 0x61, 0, 0, 0, 0, 0, 0];
    assert_eq!(detect_format(&gif), Some(ImageKind::Gif));
    let webp = [0x52u8, 0x49, 0x46, 0x46, 1, 2, 3, 4, 0x57, 0x45, 0x42, 0x50];
    assert_eq!(detect_format(&webp), Some(ImageKind::WebP));
    let bmp = [0x42u8, 0x4d, 0, 0, 0, 0, 0, 0, 0, 0, 0, 0];
    assert_eq!(detect_format(&bmp), Some(ImageKind::Bmp));
    let tiff_le = [0x49u8, 0x49, 0x2a, 0x00, 0, 0, 0, 0, 0, 0, 0, 0];
    assert_eq!(detect_format(&tiff_le), Some(ImageKind::Tiff));
    let tiff_be = [0x4du8, 0x4d, 0x00, 0x2a, 0, 0, 0, 0, 0, 0, 0, 0];
    assert_eq!(detect_format(&tiff_be), Some(ImageKind::Tiff));
    let ico = [0x00u8, 0x00, 0x01, 0x00, 0, 0, 0, 0, 0, 0, 0, 0];
    assert_eq!(detect_format(&ico), Some(ImageKind::Ico));
    let qoi = [0x71u8, 0x6f, 0x69, 0x66, 0, 0, 0, 0, 0, 0, 0, 0];
    assert_eq!(detect_format(&qoi), Some(ImageKind::Qoi));
    let junk = [9u8, 9, 9, 9, 9, 9, 9, 9, 9, 9, 9, 9];
    assert_eq!(detect_format(&junk), None);
}
