use vstd::prelude::*;

verus! {

/// A byte offset into the source text.
#[derive(Copy, Clone, Debug, PartialEq, Eq)]
pub struct BytePos(pub u32);

/// The number of bytes of the UTF-8 encoding of `c`.
pub open spec fn utf8_len(c: char) -> nat {
    if (c as u32) < 0x80 {
        1
    } else if (c as u32) < 0x800 {
        2
    } else if (c as u32) < 0x10000 {
        3
    } else {
        4
    }
}

/// The number of bytes of the UTF-8 encoding of `s`.
pub open spec fn utf8_total(s: Seq<char>) -> nat
    decreases s.len(),
{
    if s.len() == 0 {
        0
    } else {
        utf8_total(s.drop_last()) + utf8_len(s.last())
    }
}

/// The UTF-8 length of the prefix grows with the prefix.
pub proof fn lemma_utf8_total_prefix(s: Seq<char>, i: int, j: int)
    requires
        0 <= i <= j <= s.len(),
    ensures
        utf8_total(s.subrange(0, i)) <= utf8_total(s.subrange(0, j)),
        i < j ==> utf8_total(s.subrange(0, i)) < utf8_total(s.subrange(0, j)),
    decreases j - i,
{
    if i < j {
        lemma_utf8_total_prefix(s, i, j - 1);
        assert(s.subrange(0, j).drop_last() =~= s.subrange(0, j - 1));
    }
}

/// `char::len_utf8`, computed from the code point.
pub fn char_utf8_len(c: char) -> (res: u32)
    ensures
        res == utf8_len(c),
{
    let v = c as u32;
    if v < 0x80 {
        1
    } else if v < 0x800 {
        2
    } else if v < 0x10000 {
        3
    } else {
        4
    }
}

impl BytePos {
    /// The position just past `c`, when `c` starts at `self`.
    pub fn shift(self, ch: char) -> (res: BytePos)
        requires
            self.0 + utf8_len(ch) <= u32::MAX,
        ensures
            res.0 == self.0 + utf8_len(ch),
    {
        BytePos(self.0 + char_utf8_len(ch))
    }
}

/// A range of bytes of the source text.
#[derive(Copy, Clone, Debug, PartialEq, Eq)]
pub struct Span {
    pub start: BytePos,
    pub end: BytePos,
}

impl Span {
    /// The smallest span that covers both spans.
    pub fn union_span(a: Span, b: Span) -> (res: Span)
        ensures
            res.start.0 == if a.start.0 <= b.start.0 { a.start.0 } else { b.start.0 },
            res.end.0 == if a.end.0 >= b.end.0 { a.end.0 } else { b.end.0 },
            res == span_union(a, b),
    {
        let start = if a.start.0 <= b.start.0 { a.start } else { b.start };
        let end = if a.end.0 >= b.end.0 { a.end } else { b.end };
        Span { start, end }
    }

    /// The smallest span that covers the spans of both values.
    pub fn union<A, B>(a: &WithSpan<A>, b: &WithSpan<B>) -> (res: Span)
        ensures
            res.start.0 == if a.span.start.0 <= b.span.start.0 { a.span.start.0 } else { b.span.start.0 },
            res.end.0 == if a.span.end.0 >= b.span.end.0 { a.span.end.0 } else { b.span.end.0 },
    {
        Span::union_span(a.span, b.span)
    }
}

/// A value together with the part of the source it was read from.
#[derive(Clone, Debug, PartialEq)]
pub struct WithSpan<T> {
    pub span: Span,
    pub value: T,
}

impl<T> WithSpan<T> {
    pub fn new(value: T, span: Span) -> (res: WithSpan<T>)
        ensures
            res.value == value,
            res.span == span,
    {
        WithSpan { span, value }
    }

    /// A value that stands for no text of the source.
    pub fn empty(value: T) -> (res: WithSpan<T>)
        ensures
            res.value == value,
            res.span.start.0 == 0,
            res.span.end.0 == 0,
    {
        WithSpan { span: Span { start: BytePos(0), end: BytePos(0) }, value }
    }

    /// A value with the span `start..end`, which is taken as given.
    pub fn new_unchecked(value: T, start: u32, end: u32) -> (res: WithSpan<T>)
        ensures
            res.value == value,
            res.span.start.0 == start,
            res.span.end.0 == end,
    {
        WithSpan { span: Span { start: BytePos(start), end: BytePos(end) }, value }
    }

    /// The value, with the same span.
    pub fn as_ref(&self) -> (res: WithSpan<&T>)
        ensures
            *res.value == self.value,
            res.span == self.span,
    {
        WithSpan { span: self.span, value: &self.value }
    }
}

/// An error found in the source, with where it was found.
#[derive(Clone, Debug, PartialEq)]
pub struct Diagnostic {
    pub span: Span,
    pub message: String,
}

/// The byte offsets at which the lines of a text start, to turn a byte
/// offset into a line number.
pub struct LineOffsets {
    offsets: Vec<u32>,
    len: u32,
}

/// The byte offsets just past each `'\n'` of `s`, after the initial 0.
pub open spec fn line_starts(s: Seq<char>) -> Seq<u32>
    decreases s.len(),
{
    if s.len() == 0 {
        seq![0u32]
    } else if s.last() == '\n' {
        line_starts(s.drop_last()).push(utf8_total(s) as u32)
    } else {
        line_starts(s.drop_last())
    }
}

proof fn lemma_line_starts_sorted(s: Seq<char>)
    requires
        utf8_total(s) <= u32::MAX,
    ensures
        line_starts(s).len() >= 1,
        line_starts(s)[0] == 0,
        forall|i: int, j: int| 0 <= i < j < line_starts(s).len() ==> line_starts(s)[i] < line_starts(s)[j],
        forall|i: int| 0 <= i < line_starts(s).len() ==> line_starts(s)[i] <= utf8_total(s),
    decreases s.len(),
{
    if s.len() > 0 {
        let p = s.drop_last();
        assert(utf8_total(p) <= utf8_total(s));
        lemma_line_starts_sorted(p);
    }
}

impl LineOffsets {
    pub closed spec fn spec_offsets(&self) -> Seq<u32> {
        self.offsets@
    }

    pub closed spec fn spec_len(&self) -> u32 {
        self.len
    }

    pub closed spec fn wf(&self) -> bool {
        &&& self.offsets@.len() >= 1
        &&& self.offsets@[0] == 0
        &&& forall|i: int, j: int| 0 <= i < j < self.offsets@.len() ==> self.offsets@[i] < self.offsets@[j]
        &&& forall|i: int| 0 <= i < self.offsets@.len() ==> self.offsets@[i] <= self.len
    }

    /// The line starts of `data`.
    pub fn new(data: &str) -> (res: LineOffsets)
        requires
            utf8_total(data@) <= u32::MAX,
        ensures
            res.wf(),
            res.spec_offsets() == line_starts(data@),
            res.spec_len() == utf8_total(data@),
    {
        let chars = crate::text::chars_of(data);
        let mut offsets: Vec<u32> = Vec::new();
        offsets.push(0);
        let mut pos: u32 = 0;
        let mut i: usize = 0;
        assert(chars@.subrange(0, 0) =~= Seq::<char>::empty());
        while i < chars.len()
            invariant
                chars@ == data@,
                i <= chars@.len(),
                utf8_total(data@) <= u32::MAX,
                pos == utf8_total(chars@.subrange(0, i as int)),
                offsets@ == line_starts(chars@.subrange(0, i as int)),
            decreases chars.len() - i,
        {
            let c = chars[i];
            proof {
                lemma_utf8_total_prefix(chars@, i + 1, chars@.len() as int);
                assert(chars@.subrange(0, i + 1).drop_last() =~= chars@.subrange(0, i as int));
                assert(chars@.subrange(0, chars@.len() as int) =~= chars@);
            }
            pos = pos + char_utf8_len(c);
            if c == '\n' {
                offsets.push(pos);
            }
            i = i + 1;
        }
        assert(chars@.subrange(0, chars@.len() as int) =~= chars@);
        proof {
            lemma_line_starts_sorted(data@);
        }
        LineOffsets { offsets, len: pos }
    }

    /// The 1-based number of the line that holds byte `offset`.
    pub fn line(&self, offset: BytePos) -> (res: usize)
        requires
            self.wf(),
        ensures
            1 <= res <= self.spec_offsets().len(),
            self.spec_offsets()[res - 1] <= offset.0,
            res < self.spec_offsets().len() ==> offset.0 < self.spec_offsets()[res as int],
    {
        let mut lo: usize = 0;
        let mut hi: usize = self.offsets.len();
        while lo + 1 < hi
            invariant
                self.wf(),
                0 <= lo < hi <= self.offsets@.len(),
                self.offsets@[lo as int] <= offset.0,
                hi < self.offsets@.len() ==> offset.0 < self.offsets@[hi as int],
            decreases hi - lo,
        {
            let mid = lo + (hi - lo) / 2;
            if self.offsets[mid] <= offset.0 {
                lo = mid;
            } else {
                hi = mid;
            }
        }
        lo + 1
    }
}

/// The span from the earlier start of `a` and `b` to the later end.
pub open spec fn span_union(a: Span, b: Span) -> Span {
    Span {
        start: BytePos(if a.start.0 <= b.start.0 { a.start.0 } else { b.start.0 }),
        end: BytePos(if a.end.0 >= b.end.0 { a.end.0 } else { b.end.0 }),
    }
}

} // verus!
