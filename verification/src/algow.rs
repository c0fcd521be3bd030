pub mod slice;
