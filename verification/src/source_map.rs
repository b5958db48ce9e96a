//! The files of a compilation and the mapping from byte offsets to lines and columns.
use vstd::prelude::*;
use vstd::utf8::encode_utf8;
use crate::span::FileId;

verus! {

/// The start offsets of the lines of the first `n` bytes of `b`: offset 0, and one past
/// every `'\n'` byte.
pub open spec fn line_starts_upto(b: Seq<u8>, n: nat) -> Seq<u32>
    decreases n,
{
    if n == 0 {
        seq![0u32]
    } else {
        let prev = line_starts_upto(b, (n - 1) as nat);
        if b[n - 1] == 10u8 {
            prev.push(n as u32)
        } else {
            prev
        }
    }
}

/// The start offsets of every line of the text whose UTF-8 bytes are `b`.
pub open spec fn line_starts_of(b: Seq<u8>) -> Seq<u32> {
    line_starts_upto(b, b.len())
}

/// The line (0-based) that holds byte `offset`, given the line starts: the last line that
/// starts at or before the offset.
pub open spec fn is_line_of(starts: Seq<u32>, offset: u32, line: int) -> bool {
    &&& 0 <= line < starts.len()
    &&& starts[line] <= offset
    &&& (line + 1 == starts.len() || offset < starts[line + 1])
}

pub struct SourceFile {
    name: String,
    source: String,
    line_starts: Vec<u32>,
}

impl SourceFile {
    pub closed spec fn wf(&self) -> bool {
        &&& encode_utf8(self.source@).len() < u32::MAX
        &&& self.line_starts@ == line_starts_of(encode_utf8(self.source@))
    }

    fn new(name: String, source: String) -> (f: Self)
        requires
            encode_utf8(source@).len() < u32::MAX,
        ensures
            f.wf(),
            f.name@ == name@,
            f.source@ == source@,
    {
        let bytes = source.as_str().as_bytes();
        let mut line_starts: Vec<u32> = Vec::new();
        line_starts.push(0);
        let mut i: usize = 0;
        while i < bytes.len()
            invariant
                bytes@ == encode_utf8(source@),
                bytes@.len() < u32::MAX,
                0 <= i <= bytes@.len(),
                line_starts@ == line_starts_upto(bytes@, i as nat),
            decreases bytes@.len() - i,
        {
            if bytes[i] == 10u8 {
                line_starts.push((i + 1) as u32);
            }
            i = i + 1;
        }
        SourceFile { name, source, line_starts }
    }
}

/// Every file of a compilation, indexed by [`FileId`].
pub struct SourceMap {
    files: Vec<SourceFile>,
}

impl View for SourceMap {
    /// The name and text of each file.
    type V = Seq<(Seq<char>, Seq<char>)>;

    closed spec fn view(&self) -> Seq<(Seq<char>, Seq<char>)> {
        Seq::new(self.files@.len(), |i: int| (self.files@[i].name@, self.files@[i].source@))
    }
}

impl SourceMap {
    #[verifier::type_invariant]
    closed spec fn inv(self) -> bool {
        &&& self.files@.len() <= u32::MAX
        &&& forall|i: int| 0 <= i < self.files@.len() ==> (#[trigger] self.files@[i]).wf()
    }

    /// Whether `id` names a file of this map.
    pub open spec fn has_file(&self, id: FileId) -> bool {
        (id.0 as int) < self@.len()
    }

    pub fn new() -> (m: Self)
        ensures
            m@ == Seq::<(Seq<char>, Seq<char>)>::empty(),
    {
        let m = SourceMap { files: Vec::new() };
        assert(m@ =~= Seq::<(Seq<char>, Seq<char>)>::empty());
        m
    }

    /// Adds a file and returns its id: the number of files added before it.
    pub fn add_file(&mut self, name: String, source: String) -> (id: FileId)
        requires
            old(self)@.len() < u32::MAX,
            encode_utf8(source@).len() < u32::MAX,
        ensures
            id.0 == old(self)@.len(),
            final(self)@ == old(self)@.push((name@, source@)),
    {
        proof {
            use_type_invariant(&*self);
        }
        let id = FileId(self.files.len() as u32);
        let f = SourceFile::new(name, source);
        let ghost before = self@;
        let mut files: Vec<SourceFile> = Vec::new();
        std::mem::swap(&mut files, &mut self.files);
        files.push(f);
        self.files = files;
        assert(self@ =~= before.push((f.name@, f.source@)));
        id
    }

    pub fn file_name(&self, id: FileId) -> (s: &str)
        requires
            self.has_file(id),
        ensures
            s@ == self@[id.0 as int].0,
    {
        self.files[id.0 as usize].name.as_str()
    }

    pub fn file_source(&self, id: FileId) -> (s: &str)
        requires
            self.has_file(id),
        ensures
            s@ == self@[id.0 as int].1,
    {
        self.files[id.0 as usize].source.as_str()
    }

    pub fn line_starts(&self, id: FileId) -> (r: &[u32])
        requires
            self.has_file(id),
        ensures
            r@ == line_starts_of(encode_utf8(self@[id.0 as int].1)),
    {
        proof {
            use_type_invariant(self);
        }
        self.files[id.0 as usize].line_starts.as_slice()
    }

    /// Returns (line, column), both 0-indexed: the line that holds `offset` and the
    /// distance in bytes from that line's start.
    pub fn line_col(&self, id: FileId, offset: u32) -> (r: (usize, usize))
        requires
            self.has_file(id),
        ensures
            is_line_of(line_starts_of(encode_utf8(self@[id.0 as int].1)), offset, r.0 as int),
            r.1 == offset - line_starts_of(encode_utf8(self@[id.0 as int].1))[r.0 as int],
    {
        proof {
            use_type_invariant(self);
        }
        let starts = &self.files[id.0 as usize].line_starts;
        proof {
            lemma_line_starts_head(encode_utf8(self@[id.0 as int].1), encode_utf8(self@[id.0 as int].1).len());
        }
        let mut line: usize = 0;
        while line < starts.len() - 1 && starts[line + 1] <= offset
            invariant
                0 <= line < starts@.len(),
                starts@[line as int] <= offset,
            decreases starts@.len() - line,
        {
            line = line + 1;
        }
        (line, (offset - starts[line]) as usize)
    }

    pub fn file_count(&self) -> (n: usize)
        ensures
            n == self@.len(),
    {
        self.files.len()
    }
}

/// The line starts always begin with offset 0.
pub proof fn lemma_line_starts_head(b: Seq<u8>, n: nat)
    ensures
        line_starts_upto(b, n).len() >= 1,
        line_starts_upto(b, n)[0] == 0,
    decreases n,
{
    if n > 0 {
        lemma_line_starts_head(b, (n - 1) as nat);
    }
}

impl Default for SourceMap {
    fn default() -> (m: Self)
        ensures
            m@ == Seq::<(Seq<char>, Seq<char>)>::empty(),
    {
        Self::new()
    }
}

} // verus!
