//! Packet lines, their sideband encoding, and a peekable reader of packet lines
//! that stops at chosen terminator lines.
use vstd::prelude::*;
use crate::checksum::bytes_equal;

verus! {

/// One packet line.
#[derive(Debug, Clone)]
pub enum PacketLine {
    /// A line with a payload.
    Data(Vec<u8>),
    /// `0000`
    Flush,
    /// `0001`
    Delimiter,
    /// `0002`
    ResponseEnd,
}

/// A packet line as a mathematical value.
pub enum LineView {
    Data(Seq<u8>),
    Flush,
    Delimiter,
    ResponseEnd,
}

impl View for PacketLine {
    type V = LineView;

    open spec fn view(&self) -> LineView {
        match self {
            PacketLine::Data(d) => LineView::Data(d@),
            PacketLine::Flush => LineView::Flush,
            PacketLine::Delimiter => LineView::Delimiter,
            PacketLine::ResponseEnd => LineView::ResponseEnd,
        }
    }
}

impl PacketLine {
    /// The payload of a data line.
    pub fn as_slice(&self) -> (r: Option<&[u8]>)
        ensures
            match self@ {
                LineView::Data(d) => r matches Some(s) && s@ == d,
                _ => r is None,
            },
    {
        match self {
            PacketLine::Data(d) => Some(d.as_slice()),
            _ => None,
        }
    }

    /// Whether two lines are the same.
    pub fn same_as(&self, other: &PacketLine) -> (r: bool)
        ensures
            r == (self@ == other@),
    {
        match (self, other) {
            (PacketLine::Data(a), PacketLine::Data(b)) => bytes_equal(a.as_slice(), b.as_slice()),
            (PacketLine::Flush, PacketLine::Flush) => true,
            (PacketLine::Delimiter, PacketLine::Delimiter) => true,
            (PacketLine::ResponseEnd, PacketLine::ResponseEnd) => true,
            _ => false,
        }
    }

    /// A copy of this line.
    pub fn duplicate(&self) -> (r: PacketLine)
        ensures
            r@ == self@,
    {
        match self {
            PacketLine::Data(d) => PacketLine::Data(vstd::slice::slice_to_vec(d.as_slice())),
            PacketLine::Flush => PacketLine::Flush,
            PacketLine::Delimiter => PacketLine::Delimiter,
            PacketLine::ResponseEnd => PacketLine::ResponseEnd,
        }
    }
}

/// The band that a sideband line belongs to, with its payload.
#[derive(Debug, PartialEq, Eq)]
pub enum Band<'a> {
    /// Band 1: data.
    Data(&'a [u8]),
    /// Band 2: progress text.
    Progress(&'a [u8]),
    /// Band 3: error text.
    Error(&'a [u8]),
}

/// Failure to read the band of a line.
#[derive(Debug, PartialEq, Eq, Clone, Copy)]
pub enum BandError {
    /// The line carries no payload.
    NonDataLine,
    /// The payload is empty, so carries no band byte.
    MissingBand,
    /// The band byte is not 1, 2 or 3.
    InvalidSideBand(u8),
}

/// A band as a mathematical value: its number and its payload.
pub open spec fn band_of(d: Seq<u8>) -> Result<(u8, Seq<u8>), BandError> {
    if d.len() == 0 {
        Err(BandError::MissingBand)
    } else if d[0] == 1 || d[0] == 2 || d[0] == 3 {
        Ok((d[0], d.subrange(1, d.len() as int)))
    } else {
        Err(BandError::InvalidSideBand(d[0]))
    }
}

/// The band of a line, as a mathematical value.
pub open spec fn line_band(l: LineView) -> Result<(u8, Seq<u8>), BandError> {
    match l {
        LineView::Data(d) => band_of(d),
        _ => Err(BandError::NonDataLine),
    }
}

/// Reads the band of a data line's payload `d`.
pub fn decode_band(d: &[u8]) -> (r: Result<Band<'_>, BandError>)
    ensures
        match band_of(d@) {
            Ok((1, p)) => r matches Ok(Band::Data(s)) && s@ == p,
            Ok((2, p)) => r matches Ok(Band::Progress(s)) && s@ == p,
            Ok((_, p)) => r matches Ok(Band::Error(s)) && s@ == p,
            Err(e) => r == Err::<Band<'_>, BandError>(e),
        },
{
    if d.len() == 0 {
        return Err(BandError::MissingBand);
    }
    let rest = vstd::slice::slice_subrange(d, 1, d.len());
    match d[0] {
        1 => Ok(Band::Data(rest)),
        2 => Ok(Band::Progress(rest)),
        3 => Ok(Band::Error(rest)),
        b => Err(BandError::InvalidSideBand(b)),
    }
}

/// Progress text without its trailing line feed.
pub open spec fn text_of(d: Seq<u8>) -> Seq<u8> {
    if d.len() > 0 && d[d.len() - 1] == 10 {
        d.subrange(0, d.len() - 1)
    } else {
        d
    }
}

/// Strips one trailing line feed from progress text.
pub fn text(d: &[u8]) -> (r: &[u8])
    ensures
        r@ == text_of(d@),
{
    if d.len() > 0 && d[d.len() - 1] == 10 {
        vstd::slice::slice_subrange(d, 0, d.len() - 1)
    } else {
        d
    }
}

/// Failure to decode a packet line from the wire.
#[derive(Debug, PartialEq, Eq, Clone, Copy)]
pub enum DecodeError {
    /// The length header is not four hexadecimal digits.
    HexDecode,
    /// The length header gives 3, less than the header itself.
    InvalidLineLength,
    /// The length header gives 4: a data line without data.
    DataIsEmpty,
    /// The length header gives more than the longest line allowed.
    DataLengthLimitExceeded(u16),
    /// The input ends within a line.
    UnexpectedEof,
}

/// Whether `l` is one of `delimiters`.
pub open spec fn is_delimiter(delimiters: Seq<LineView>, l: LineView) -> bool {
    exists|i: int| 0 <= i < delimiters.len() && delimiters[i] == l
}

/// A reader of packet lines that stops at the first of its delimiter lines and
/// keeps the payload of the last data line it read.
pub struct StreamingPeekableIter {
    lines: Vec<Result<PacketLine, DecodeError>>,
    next: usize,
    delimiters: Vec<PacketLine>,
    is_done: bool,
    stopped_at: Option<PacketLine>,
    buf: Vec<u8>,
}

/// The lines of `lines` as mathematical values.
pub open spec fn lines_view(lines: Seq<Result<PacketLine, DecodeError>>) -> Seq<Result<LineView, DecodeError>> {
    lines.map_values(|r: Result<PacketLine, DecodeError>| match r {
        Ok(l) => Ok(l@),
        Err(e) => Err(e),
    })
}

impl StreamingPeekableIter {
    pub closed spec fn lines(&self) -> Seq<Result<LineView, DecodeError>> {
        lines_view(self.lines@)
    }

    pub closed spec fn next_pos(&self) -> int {
        self.next as int
    }

    pub closed spec fn delimiters(&self) -> Seq<LineView> {
        self.delimiters@.map_values(|l: PacketLine| l@)
    }

    pub closed spec fn done(&self) -> bool {
        self.is_done
    }

    pub closed spec fn stopped(&self) -> Option<LineView> {
        match self.stopped_at {
            Some(l) => Some(l@),
            None => None,
        }
    }

    /// The payload of the last data line read.
    pub closed spec fn buffer(&self) -> Seq<u8> {
        self.buf@
    }

    pub closed spec fn wf(&self) -> bool {
        self.next <= self.lines@.len()
    }

    /// A well-formed reader is at most past its last line.
    pub proof fn lemma_next_in_range(&self)
        requires
            self.wf(),
        ensures
            0 <= self.next_pos() <= self.lines().len(),
    {
    }

    /// A reader over `lines` that stops at a flush line.
    pub fn new(lines: Vec<Result<PacketLine, DecodeError>>) -> (r: StreamingPeekableIter)
        ensures
            r.wf(),
            r.lines() == lines_view(lines@),
            r.next_pos() == 0,
            r.delimiters() == seq![LineView::Flush],
            !r.done(),
            r.stopped() is None,
            r.buffer() == Seq::<u8>::empty(),
    {
        let r = StreamingPeekableIter {
            lines,
            next: 0,
            delimiters: vec![PacketLine::Flush],
            is_done: false,
            stopped_at: None,
            buf: Vec::new(),
        };
        assert(r.delimiters() =~= seq![LineView::Flush]);
        r
    }

    /// A reader over the packet lines encoded in `bytes` that stops at a flush line.
    pub fn from_wire(bytes: &[u8]) -> (r: StreamingPeekableIter)
        ensures
            r.wf(),
            r.lines() == wire_lines(bytes@),
            r.next_pos() == 0,
            r.delimiters() == seq![LineView::Flush],
            !r.done(),
            r.stopped() is None,
            r.buffer() == Seq::<u8>::empty(),
    {
        StreamingPeekableIter::new(decode_lines(bytes))
    }

    /// The delimiter line at which reading stopped, if it did.
    pub fn stopped_at(&self) -> (r: Option<PacketLine>)
        ensures
            match self.stopped() {
                Some(l) => r matches Some(x) && x@ == l,
                None => r is None,
            },
    {
        match &self.stopped_at {
            Some(l) => Some(l.duplicate()),
            None => None,
        }
    }

    /// Allows reading past the delimiter line at which reading stopped.
    pub fn reset(&mut self)
        ensures
            final(self).wf() == old(self).wf(),
            final(self).lines() == old(self).lines(),
            final(self).next_pos() == old(self).next_pos(),
            final(self).delimiters() == old(self).delimiters(),
            final(self).buffer() == old(self).buffer(),
            !final(self).done(),
            final(self).stopped() is None,
    {
        self.is_done = false;
        self.stopped_at = None;
    }

    /// Replaces the delimiter lines and allows reading on.
    pub fn reset_with(&mut self, delimiters: &[PacketLine])
        ensures
            final(self).wf() == old(self).wf(),
            final(self).lines() == old(self).lines(),
            final(self).next_pos() == old(self).next_pos(),
            final(self).delimiters() == delimiters@.map_values(|l: PacketLine| l@),
            final(self).buffer() == old(self).buffer(),
            !final(self).done(),
            final(self).stopped() is None,
    {
        let mut copied: Vec<PacketLine> = Vec::new();
        let mut i: usize = 0;
        while i < delimiters.len()
            invariant
                i <= delimiters@.len(),
                copied@.len() == i,
                forall|j: int| 0 <= j < i ==> #[trigger] copied@[j]@ == delimiters@[j]@,
            decreases delimiters@.len() - i,
        {
            copied.push(delimiters[i].duplicate());
            i = i + 1;
        }
        assert(copied@.map_values(|l: PacketLine| l@) =~= delimiters@.map_values(|l: PacketLine| l@));
        self.delimiters = copied;
        self.reset();
    }

    /// Whether the reader and `other` hold the same state.
    pub open spec fn same_state(&self, other: &StreamingPeekableIter) -> bool {
        &&& self.wf() == other.wf()
        &&& self.lines() == other.lines()
        &&& self.next_pos() == other.next_pos()
        &&& self.delimiters() == other.delimiters()
        &&& self.done() == other.done()
        &&& self.stopped() == other.stopped()
        &&& self.buffer() == other.buffer()
    }

    /// The reader is `other` with reading allowed to go on past a stopping line.
    pub open spec fn is_reset_of(&self, other: &StreamingPeekableIter) -> bool {
        &&& self.wf() == other.wf()
        &&& self.lines() == other.lines()
        &&& self.next_pos() == other.next_pos()
        &&& self.delimiters() == other.delimiters()
        &&& self.buffer() == other.buffer()
        &&& !self.done()
        &&& self.stopped() is None
    }

    /// Reads the next line. Nothing is read once reading stopped or failed, nor past
    /// the last line; a delimiter line stops reading and is not returned.
    pub fn read_line(&mut self) -> (r: Option<Result<PacketLine, DecodeError>>)
        requires
            old(self).wf(),
        ensures
            final(self).wf(),
            final(self).lines() == old(self).lines(),
            final(self).delimiters() == old(self).delimiters(),
            old(self).done() ==> r is None && final(self).same_state(old(self)),
            !old(self).done() && old(self).next_pos() >= old(self).lines().len() ==> {
                &&& r is None
                &&& final(self).done()
                &&& final(self).next_pos() == old(self).next_pos()
                &&& final(self).stopped() == old(self).stopped()
                &&& final(self).buffer() == old(self).buffer()
            },
            !old(self).done() && old(self).next_pos() < old(self).lines().len() ==> {
                let item = old(self).lines()[old(self).next_pos()];
                &&& final(self).next_pos() == old(self).next_pos() + 1
                &&& match item {
                    Err(e) => {
                        &&& final(self).done()
                        &&& r matches Some(Err(x)) && x == e
                        &&& final(self).stopped() == old(self).stopped()
                        &&& final(self).buffer() == old(self).buffer()
                    },
                    Ok(l) => if is_delimiter(old(self).delimiters(), l) {
                        &&& r is None
                        &&& final(self).done()
                        &&& final(self).stopped() == Some(l)
                        &&& final(self).buffer() == old(self).buffer()
                    } else {
                        &&& r matches Some(Ok(x)) && x@ == l
                        &&& !final(self).done()
                        &&& final(self).stopped() == old(self).stopped()
                        &&& final(self).buffer() == match l {
                            LineView::Data(d) => d,
                            _ => Seq::<u8>::empty(),
                        }
                    },
                }
            },
    {
        if self.is_done {
            return None;
        }
        if self.next >= self.lines.len() {
            self.is_done = true;
            return None;
        }
        let i = self.next;
        self.next = self.next + 1;
        assert(self.lines()[i as int] == match self.lines@[i as int] {
            Ok(l) => Ok::<LineView, DecodeError>(l@),
            Err(e) => Err(e),
        });
        match &self.lines[i] {
            Err(e) => {
                self.is_done = true;
                Some(Err(*e))
            },
            Ok(line) => {
                if self.is_delimiter_exec(line) {
                    self.is_done = true;
                    self.stopped_at = Some(line.duplicate());
                    None
                } else {
                    self.buf = match line {
                        PacketLine::Data(d) => vstd::slice::slice_to_vec(d.as_slice()),
                        _ => Vec::new(),
                    };
                    Some(Ok(line.duplicate()))
                }
            },
        }
    }

    /// Returns the next line without reading past it. Once reading stopped or
    /// failed nothing is returned; a line that cannot be decoded, and a delimiter
    /// line, are read as by `read_line`.
    pub fn peek_line(&mut self) -> (r: Option<Result<PacketLine, DecodeError>>)
        requires
            old(self).wf(),
        ensures
            final(self).wf(),
            final(self).lines() == old(self).lines(),
            final(self).delimiters() == old(self).delimiters(),
            final(self).buffer() == old(self).buffer(),
            old(self).done() ==> r is None && final(self).same_state(old(self)),
            !old(self).done() && old(self).next_pos() >= old(self).lines().len() ==> {
                &&& r is None
                &&& final(self).done()
                &&& final(self).next_pos() == old(self).next_pos()
                &&& final(self).stopped() == old(self).stopped()
            },
            !old(self).done() && old(self).next_pos() < old(self).lines().len() ==> {
                let item = old(self).lines()[old(self).next_pos()];
                match item {
                    Err(e) => {
                        &&& final(self).done()
                        &&& final(self).next_pos() == old(self).next_pos() + 1
                        &&& r matches Some(Err(x)) && x == e
                        &&& final(self).stopped() == old(self).stopped()
                    },
                    Ok(l) => if is_delimiter(old(self).delimiters(), l) {
                        &&& r is None
                        &&& final(self).done()
                        &&& final(self).next_pos() == old(self).next_pos() + 1
                        &&& final(self).stopped() == Some(l)
                    } else {
                        &&& r matches Some(Ok(x)) && x@ == l
                        &&& final(self).same_state(old(self))
                    },
                }
            },
    {
        if self.is_done {
            return None;
        }
        if self.next >= self.lines.len() {
            self.is_done = true;
            return None;
        }
        let i = self.next;
        assert(self.lines()[i as int] == match self.lines@[i as int] {
            Ok(l) => Ok::<LineView, DecodeError>(l@),
            Err(e) => Err(e),
        });
        match &self.lines[i] {
            Err(e) => {
                self.next = self.next + 1;
                self.is_done = true;
                Some(Err(*e))
            },
            Ok(line) => {
                if self.is_delimiter_exec(line) {
                    self.next = self.next + 1;
                    self.is_done = true;
                    self.stopped_at = Some(line.duplicate());
                    None
                } else {
                    Some(Ok(line.duplicate()))
                }
            },
        }
    }

    /// The bytes at `start..end` of the payload of the last data line read.
    pub fn buffered(&self, start: usize, end: usize) -> (r: &[u8])
        requires
            start <= end <= self.buffer().len(),
        ensures
            r@ == self.buffer().subrange(start as int, end as int),
    {
        vstd::slice::slice_subrange(self.buf.as_slice(), start, end)
    }

    /// The length of the payload of the last data line read.
    pub fn buffered_len(&self) -> (r: usize)
        ensures
            r == self.buffer().len(),
    {
        self.buf.len()
    }

    /// Whether `line` is one of the delimiters.
    fn is_delimiter_exec(&self, line: &PacketLine) -> (r: bool)
        ensures
            r == is_delimiter(self.delimiters(), line@),
    {
        let mut i: usize = 0;
        while i < self.delimiters.len()
            invariant
                i <= self.delimiters@.len(),
                forall|j: int| 0 <= j < i ==> self.delimiters()[j] != line@,
            decreases self.delimiters@.len() - i,
        {
            if self.delimiters[i].same_as(line) {
                assert(self.delimiters()[i as int] == line@);
                return true;
            }
            i = i + 1;
        }
        false
    }
}

/// The longest packet line, length header included.
pub const MAX_LINE_LEN: usize = 65520;

/// The value of a hexadecimal digit.
pub open spec fn hex_digit(b: u8) -> Option<int> {
    if 48 <= b <= 57 {
        Some(b - 48)
    } else if 97 <= b <= 102 {
        Some(b - 87)
    } else if 65 <= b <= 70 {
        Some(b - 55)
    } else {
        None
    }
}

/// The value of four hexadecimal digits, most significant first.
pub open spec fn hex4(h: Seq<u8>) -> Option<int> {
    match (hex_digit(h[0]), hex_digit(h[1]), hex_digit(h[2]), hex_digit(h[3])) {
        (Some(a), Some(b), Some(c), Some(d)) => Some(a * 4096 + b * 256 + c * 16 + d),
        _ => None,
    }
}

/// The first packet line encoded in `b`, with the number of bytes it takes.
pub open spec fn decode_one(b: Seq<u8>) -> Result<(LineView, int), DecodeError> {
    if b.len() < 4 {
        Err(DecodeError::UnexpectedEof)
    } else {
        match hex4(b) {
            None => Err(DecodeError::HexDecode),
            Some(n) => if n == 0 {
                Ok((LineView::Flush, 4))
            } else if n == 1 {
                Ok((LineView::Delimiter, 4))
            } else if n == 2 {
                Ok((LineView::ResponseEnd, 4))
            } else if n == 3 {
                Err(DecodeError::InvalidLineLength)
            } else if n == 4 {
                Err(DecodeError::DataIsEmpty)
            } else if n > MAX_LINE_LEN {
                Err(DecodeError::DataLengthLimitExceeded(n as u16))
            } else if b.len() < n {
                Err(DecodeError::UnexpectedEof)
            } else {
                Ok((LineView::Data(b.subrange(4, n)), n))
            },
        }
    }
}

/// The packet lines encoded in `b`, ending with the first that cannot be decoded.
pub open spec fn wire_lines(b: Seq<u8>) -> Seq<Result<LineView, DecodeError>>
    decreases b.len(),
{
    if b.len() == 0 {
        Seq::empty()
    } else {
        match decode_one(b) {
            Err(e) => seq![Err(e)],
            Ok((l, n)) => if 0 < n <= b.len() {
                seq![Ok::<LineView, DecodeError>(l)] + wire_lines(b.subrange(n, b.len() as int))
            } else {
                Seq::empty()
            },
        }
    }
}

/// The value of a hexadecimal digit.
fn hex_digit_exec(b: u8) -> (r: Option<u16>)
    ensures
        match hex_digit(b) {
            Some(v) => r == Some(v as u16),
            None => r is None,
        },
{
    if 48 <= b && b <= 57 {
        Some((b - 48) as u16)
    } else if 97 <= b && b <= 102 {
        Some((b - 87) as u16)
    } else if 65 <= b && b <= 70 {
        Some((b - 55) as u16)
    } else {
        None
    }
}

/// Decodes the first packet line in `b`, and returns it with the number of bytes
/// it takes.
pub fn decode_line(b: &[u8]) -> (r: Result<(PacketLine, usize), DecodeError>)
    ensures
        match decode_one(b@) {
            Ok((l, n)) => r matches Ok((x, k)) && x@ == l && k == n,
            Err(e) => r == Err::<(PacketLine, usize), DecodeError>(e),
        },
{
    if b.len() < 4 {
        return Err(DecodeError::UnexpectedEof);
    }
    let n: u16 = match (hex_digit_exec(b[0]), hex_digit_exec(b[1]), hex_digit_exec(b[2]), hex_digit_exec(b[3])) {
        (Some(a), Some(c), Some(d), Some(e)) => a * 4096 + c * 256 + d * 16 + e,
        _ => {
            return Err(DecodeError::HexDecode);
        },
    };
    let len = n as usize;
    if len == 0 {
        Ok((PacketLine::Flush, 4))
    } else if len == 1 {
        Ok((PacketLine::Delimiter, 4))
    } else if len == 2 {
        Ok((PacketLine::ResponseEnd, 4))
    } else if len == 3 {
        Err(DecodeError::InvalidLineLength)
    } else if len == 4 {
        Err(DecodeError::DataIsEmpty)
    } else if len > MAX_LINE_LEN {
        Err(DecodeError::DataLengthLimitExceeded(n))
    } else if b.len() < len {
        Err(DecodeError::UnexpectedEof)
    } else {
        Ok((PacketLine::Data(vstd::slice::slice_to_vec(vstd::slice::slice_subrange(b, 4, len))), len))
    }
}

/// Decodes the packet lines in `bytes`, up to and including the first that cannot
/// be decoded.
pub fn decode_lines(bytes: &[u8]) -> (r: Vec<Result<PacketLine, DecodeError>>)
    ensures
        lines_view(r@) == wire_lines(bytes@),
{
    let mut out: Vec<Result<PacketLine, DecodeError>> = Vec::new();
    let mut pos: usize = 0;
    proof {
        assert(bytes@.subrange(0, bytes@.len() as int) =~= bytes@);
        assert(lines_view(out@) + wire_lines(bytes@) =~= wire_lines(bytes@));
    }
    while pos < bytes.len()
        invariant
            pos <= bytes@.len(),
            lines_view(out@) + wire_lines(bytes@.subrange(pos as int, bytes@.len() as int)) == wire_lines(bytes@),
        decreases bytes@.len() - pos,
    {
        let rest = vstd::slice::slice_subrange(bytes, pos, bytes.len());
        let ghost before = out@;
        match decode_line(rest) {
            Ok((line, n)) => {
                proof {
                    assert(rest@.subrange(n as int, rest@.len() as int) =~= bytes@.subrange(pos + n, bytes@.len() as int));
                }
                out.push(Ok(line));
                proof {
                    assert(lines_view(out@) =~= lines_view(before).push(Ok::<LineView, DecodeError>(line@)));
                    assert(lines_view(out@) + wire_lines(bytes@.subrange(pos + n, bytes@.len() as int))
                        =~= lines_view(before) + wire_lines(rest@));
                }
                pos = pos + n;
            },
            Err(e) => {
                out.push(Err(e));
                proof {
                    assert(lines_view(out@) =~= lines_view(before).push(Err::<LineView, DecodeError>(e)));
                    assert(lines_view(out@) =~= lines_view(before) + wire_lines(rest@));
                }
                return out;
            },
        }
    }
    proof {
        assert(lines_view(out@) + wire_lines(bytes@.subrange(pos as int, bytes@.len() as int)) =~= lines_view(out@));
    }
    out
}

} // verus!
