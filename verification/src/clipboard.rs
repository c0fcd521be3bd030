pub mod binary_content;
pub mod image_content;
