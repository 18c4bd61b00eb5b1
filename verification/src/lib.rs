//! Duplicate-file detection core: an incremental, cache-aware index that
//! decides whether each newly observed file repeats earlier content while
//! computing as few digests as possible, the digest arithmetic over file
//! bytes, and the relative-path resolver used for symlink targets.

pub mod digest;
pub mod index;
pub mod relpath;
