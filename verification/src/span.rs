//! Source locations.
use vstd::prelude::*;

verus! {

/// Identifies one file of a [`crate::source_map::SourceMap`].
#[derive(Clone, Copy, Debug, PartialEq, Eq, Hash, Structural)]
pub struct FileId(pub u32);

/// A half-open byte range `start..end` of one file.
#[derive(Clone, Copy, Debug, PartialEq, Eq, Structural)]
pub struct Span {
    pub file: FileId,
    pub start: u32,
    pub end: u32,
}

/// The file id that no source map hands out; used by [`Span::dummy`].
pub open spec fn dummy_file() -> FileId {
    FileId(u32::MAX)
}

impl Span {
    pub fn new(file: FileId, start: u32, end: u32) -> (s: Self)
        ensures
            s == (Span { file, start, end }),
    {
        Self { file, start, end }
    }

    /// A placeholder span for definitions that have no source text.
    pub fn dummy() -> (s: Self)
        ensures
            s == (Span { file: dummy_file(), start: 0, end: 0 }),
    {
        Self { file: FileId(u32::MAX), start: 0, end: 0 }
    }

    pub fn len(&self) -> (n: u32)
        requires
            self.start <= self.end,
        ensures
            n == self.end - self.start,
    {
        self.end - self.start
    }

    pub fn is_empty(&self) -> (b: bool)
        ensures
            b == (self.start == self.end),
    {
        self.start == self.end
    }

    /// The smallest span of the same file that covers both spans.
    pub fn merge(self, other: Span) -> (s: Span)
        requires
            self.file == other.file,
        ensures
            s.file == self.file,
            s.start == if self.start <= other.start { self.start } else { other.start },
            s.end == if self.end >= other.end { self.end } else { other.end },
    {
        let start = if self.start <= other.start { self.start } else { other.start };
        let end = if self.end >= other.end { self.end } else { other.end };
        Span { file: self.file, start, end }
    }
}

} // verus!
