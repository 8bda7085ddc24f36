pub mod epub;
pub mod epub_blocks;
