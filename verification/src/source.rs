//! A source text, and the lines it is made of.

use vstd::prelude::*;
use vstd::utf8::encode_utf8;

verus! {

/// A source text with the byte offsets at which its lines start.
pub struct Source {
    pub content: String,
    pub line_starts: Vec<usize>,
    pub file_name: String,
}

/// The byte that ends a line.
pub const NEWLINE: u8 = 10;

/// The offsets at which lines start within the first `count` bytes: offset
/// 0, and every offset just behind a newline, in ascending order.
pub open spec fn line_starts_of(bytes: Seq<u8>, count: nat) -> Seq<usize>
    decreases count,
{
    if count == 0 {
        seq![0usize]
    } else if bytes[count - 1] == NEWLINE {
        line_starts_of(bytes, (count - 1) as nat).push(count as usize)
    } else {
        line_starts_of(bytes, (count - 1) as nat)
    }
}

/// Whether `starts` begins with 0 and ascends strictly.
pub open spec fn ascends_from_zero(starts: Seq<usize>) -> bool {
    &&& starts.len() > 0
    &&& starts[0] == 0
    &&& forall|i: int, j: int| 0 <= i < j < starts.len() ==> starts[i] < starts[j]
}

/// The index of the line that holds `position`: that of the last among the
/// first `count` line starts that is not beyond it.
pub open spec fn line_index(starts: Seq<usize>, position: usize, count: nat) -> int
    decreases count,
{
    if count <= 1 {
        0
    } else if starts[count - 1] <= position {
        count - 1
    } else {
        line_index(starts, position, (count - 1) as nat)
    }
}

/// The line starts of a text begin with 0, ascend strictly, do not go
/// beyond the bytes looked at, and are just the offsets behind a newline.
pub proof fn lemma_line_starts(bytes: Seq<u8>, count: nat)
    requires
        count <= bytes.len(),
        count <= usize::MAX,
    ensures
        ascends_from_zero(line_starts_of(bytes, count)),
        forall|i: int|
            0 <= i < line_starts_of(bytes, count).len() ==> #[trigger] line_starts_of(
                bytes,
                count,
            )[i] <= count,
        forall|i: int|
            0 < i < line_starts_of(bytes, count).len() ==> bytes[#[trigger] line_starts_of(
                bytes,
                count,
            )[i] - 1] == NEWLINE,
        forall|p: int|
            0 < p <= count && #[trigger] bytes[p - 1] == NEWLINE ==> line_starts_of(
                bytes,
                count,
            ).contains(p as usize),
    decreases count,
{
    if count > 0 {
        lemma_line_starts(bytes, (count - 1) as nat);
        let before = line_starts_of(bytes, (count - 1) as nat);
        let all = line_starts_of(bytes, count);
        assert forall|p: int| 0 < p <= count && #[trigger] bytes[p - 1] == NEWLINE implies all.contains(
            p as usize,
        ) by {
            if p == count {
                assert(all[all.len() - 1] == count as usize);
            } else {
                let i = choose|i: int| 0 <= i < before.len() && before[i] == p as usize;
                assert(all[i] == p as usize);
            }
        }
    }
}

/// In an ascending sequence of line starts, the line that holds a position
/// is the one that starts at or before it and whose successor, if it has
/// one, starts behind it.
pub proof fn lemma_line_index(starts: Seq<usize>, position: usize, count: nat, line: int)
    requires
        ascends_from_zero(starts),
        0 <= line < count <= starts.len(),
        starts[line] <= position,
        line + 1 < count ==> position < starts[line + 1],
    ensures
        line_index(starts, position, count) == line,
    decreases count,
{
    if count > 1 && line < count - 1 {
        lemma_line_index(starts, position, (count - 1) as nat, line);
    }
}

impl Source {
    /// The bytes of the text.
    pub open spec fn bytes(&self) -> Seq<u8> {
        encode_utf8(self.content@)
    }

    /// The line starts are those of the text, whose length is one that a
    /// machine word holds.
    pub open spec fn wf(&self) -> bool {
        &&& self.bytes().len() <= usize::MAX
        &&& self.line_starts@ == line_starts_of(self.bytes(), self.bytes().len())
    }

    /// The source of a text, with the starts of its lines worked out.
    pub fn new(content: String, file_name: String) -> (source: Self)
        ensures
            source.content == content,
            source.file_name == file_name,
            source.wf(),
    {
        let mut line_starts: Vec<usize> = Vec::new();
        line_starts.push(0);
        let bytes = content.as_str().as_bytes();
        let mut i: usize = 0;
        while i < bytes.len()
            invariant
                i <= bytes@.len(),
                line_starts@ == line_starts_of(bytes@, i as nat),
            decreases bytes@.len() - i,
        {
            if bytes[i] == NEWLINE {
                line_starts.push(i + 1);
            }
            i += 1;
        }
        Source { content, line_starts, file_name }
    }

    /// The line and the column of a byte offset, both counted from 1. The
    /// column counts bytes.
    pub fn get_line_col(&self, position: usize) -> (place: (usize, usize))
        requires
            self.wf(),
            position - self.line_starts@[line_index(
                self.line_starts@,
                position,
                self.line_starts@.len(),
            )] < usize::MAX,
        ensures
            place.0 == line_index(self.line_starts@, position, self.line_starts@.len()) + 1,
            place.1 == position - self.line_starts@[place.0 - 1] + 1,
    {
        proof {
            lemma_line_starts(self.bytes(), self.bytes().len());
        }
        let mut line: usize = 0;
        let mut beyond: usize = self.line_starts.len();
        while beyond - line > 1
            invariant
                ascends_from_zero(self.line_starts@),
                line < beyond <= self.line_starts@.len(),
                self.line_starts@[line as int] <= position,
                beyond < self.line_starts@.len() ==> position < self.line_starts@[beyond as int],
            decreases beyond - line,
        {
            let middle = line + (beyond - line) / 2;
            if self.line_starts[middle] <= position {
                line = middle;
            } else {
                beyond = middle;
            }
        }
        proof {
            lemma_line_index(
                self.line_starts@,
                position,
                self.line_starts@.len(),
                line as int,
            );
        }
        let col = position - self.line_starts[line];
        (line + 1, col + 1)
    }
}

} // verus!
