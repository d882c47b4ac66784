//! Reconstruction and merging of file-carving reports.
//!
//! A recovered file is described by a sorted, gap-free cover of its logical
//! bytes by disk byte-runs (`file_description`). Positioned readers translate
//! logical offsets into disk reads, and the sequential readers in `reader`
//! and `reader_at` extract file contents from a disk image source.
//! `segment_tree` is an interval container over half-open disk segments with
//! strict non-intersection invariants, and `segment_array_tree` multiplexes
//! whole descriptions through it, detecting conflicts and replacing shorter
//! variants with longer compatible extensions.

pub mod byte_runs;
pub mod file_description;
pub mod reader;
pub mod reader_at;
pub mod segment_array_tree;
pub mod segment_tree;

pub use crate::byte_runs::{ByteRunsRef, ByteRunsRefError, ByteRunsRefPos};
pub use crate::file_description::{ByteRun, DescRead, FileDescription, FileDescriptionError, FileDescriptionPos, SeekError};
pub use crate::reader::{ByteRunsReader, ReadAt, SliceSource};
pub use crate::reader_at::ByteRunsReaderAt;
pub use crate::segment_array_tree::{AddStatus, FileDescriptionTree, FileDescriptionTreeError, SegmentArray, SegmentArrayTree, SegmentArrayTreeError, TaggedSegment, TaggedSegmentArray};
pub use crate::segment_tree::{Entry, OccupiedEntry, Segment, SegmentTree, SegmentTreeError, VacantEntry};
