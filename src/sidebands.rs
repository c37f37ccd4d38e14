//! A buffered reader of the data band of a packet-line stream, which hands progress
//! and error bands to an optional handler.
use vstd::prelude::*;
use vstd::slice::SliceAdditionalExecFns;
use crate::packetline::{
    Band, BandError, DecodeError, LineView, PacketLine, StreamingPeekableIter, decode_band, is_delimiter,
    line_band, text, text_of,
};

verus! {

/// Receives the text of progress lines (`is_error == false`) and of error lines
/// (`is_error == true`).
pub trait ProgressHandler {
    /// The calls received so far, in order: the error flag and the text.
    spec fn calls(&self) -> Seq<(bool, Seq<u8>)>;

    fn handle_progress(&mut self, is_error: bool, text: &[u8])
        ensures
            final(self).calls() == old(self).calls().push((is_error, text@)),
    ;
}

/// Failure of a read.
#[derive(Debug, PartialEq, Eq, Clone)]
pub enum ReadError {
    /// The underlying line could not be decoded.
    Decode(DecodeError),
    /// A line carries no valid band.
    Band(BandError),
    /// A line other than a data line where only data lines may come.
    UnexpectedEof,
    /// A line read as text is not valid UTF-8.
    InvalidUtf8,
}

/// Where the search for the next data line, from line `i` on, ends.
pub enum Found {
    /// At the data line at this position.
    Data(int),
    /// At the delimiter line at this position.
    Stop(int),
    /// Past the last line.
    End,
    /// At the line at this position, which cannot be read.
    Fail(int),
}

/// Where the search for the next data line, from line `i` on, ends: with a
/// handler, progress and error lines are passed over.
pub open spec fn found(
    lines: Seq<Result<LineView, DecodeError>>,
    i: int,
    delimiters: Seq<LineView>,
    handler: bool,
) -> Found
    decreases lines.len() - i,
{
    if i < 0 || i >= lines.len() {
        Found::End
    } else {
        match lines[i] {
            Err(_) => Found::Fail(i),
            Ok(l) => if is_delimiter(delimiters, l) {
                Found::Stop(i)
            } else if handler {
                match line_band(l) {
                    Ok((b, p)) => if b == 1 && p.len() > 0 {
                        Found::Data(i)
                    } else {
                        found(lines, i + 1, delimiters, handler)
                    },
                    Err(_) => Found::Fail(i),
                }
            } else {
                match l {
                    LineView::Data(d) => if d.len() > 0 {
                        Found::Data(i)
                    } else {
                        found(lines, i + 1, delimiters, handler)
                    },
                    _ => Found::Fail(i),
                }
            },
        }
    }
}

/// The data that a data line carries: without its band byte where there is a handler.
pub open spec fn payload(l: LineView, handler: bool) -> Seq<u8> {
    match l {
        LineView::Data(d) => if handler && d.len() > 0 {
            d.subrange(1, d.len() as int)
        } else {
            d
        },
        _ => Seq::empty(),
    }
}

/// The error with which reading fails at line `l`.
pub open spec fn failure(item: Result<LineView, DecodeError>, handler: bool, e: ReadError) -> bool {
    match item {
        Err(d) => e == ReadError::Decode(d),
        Ok(l) => if handler {
            line_band(l) matches Err(b) && e == ReadError::Band(b)
        } else {
            e == ReadError::UnexpectedEof
        },
    }
}

/// The data that a reader delivers from line `i` on: the data payloads in order
/// up to the first delimiter line or the end; `None` where a line that cannot be
/// read comes first.
pub open spec fn data_stream(
    lines: Seq<Result<LineView, DecodeError>>,
    i: int,
    delimiters: Seq<LineView>,
    handler: bool,
) -> Option<Seq<u8>>
    decreases lines.len() - i,
{
    if i < 0 || i >= lines.len() {
        Some(Seq::empty())
    } else {
        match lines[i] {
            Err(_) => None,
            Ok(l) => if is_delimiter(delimiters, l) {
                Some(Seq::empty())
            } else if handler {
                match line_band(l) {
                    Ok((b, p)) => if b != 1 || p.len() == 0 {
                        data_stream(lines, i + 1, delimiters, handler)
                    } else {
                        match data_stream(lines, i + 1, delimiters, handler) {
                            Some(s) => Some(p + s),
                            None => None,
                        }
                    },
                    Err(_) => None,
                }
            } else {
                match l {
                    LineView::Data(d) => if d.len() == 0 {
                        data_stream(lines, i + 1, delimiters, handler)
                    } else {
                        match data_stream(lines, i + 1, delimiters, handler) {
                            Some(s) => Some(d + s),
                            None => None,
                        }
                    },
                    _ => None,
                }
            },
        }
    }
}

/// The search from line `i` ends at or after `i`.
pub proof fn lemma_found_after(
    lines: Seq<Result<LineView, DecodeError>>,
    i: int,
    delimiters: Seq<LineView>,
    handler: bool,
)
    requires
        0 <= i,
    ensures
        match found(lines, i, delimiters, handler) {
            Found::Data(j) => i <= j < lines.len() && payload(lines[j]->Ok_0, handler).len() > 0,
            Found::Stop(j) => i <= j < lines.len(),
            Found::Fail(j) => i <= j < lines.len(),
            Found::End => true,
        },
    decreases lines.len() - i,
{
    if i < lines.len() {
        lemma_found_after(lines, i + 1, delimiters, handler);
    }
}

/// The data from line `i` on is what the line that the search finds carries,
/// followed by the data after it.
pub proof fn lemma_stream_by_found(
    lines: Seq<Result<LineView, DecodeError>>,
    i: int,
    delimiters: Seq<LineView>,
    handler: bool,
)
    requires
        0 <= i,
    ensures
        data_stream(lines, i, delimiters, handler) == match found(lines, i, delimiters, handler) {
            Found::Data(j) => match data_stream(lines, j + 1, delimiters, handler) {
                Some(s) => Some(payload(lines[j]->Ok_0, handler) + s),
                None => None,
            },
            Found::Stop(_) => Some(Seq::empty()),
            Found::End => Some(Seq::empty()),
            Found::Fail(_) => None,
        },
    decreases lines.len() - i,
{
    if i < lines.len() {
        lemma_found_after(lines, i, delimiters, handler);
        lemma_stream_by_found(lines, i + 1, delimiters, handler);
    }
}

} // verus!

verus! {

/// A handler that ignores all progress.
pub struct NoProgress {
    received: Ghost<Seq<(bool, Seq<u8>)>>,
}

impl NoProgress {
    pub fn new() -> (r: NoProgress)
        ensures
            r.calls() == Seq::<(bool, Seq<u8>)>::empty(),
    {
        NoProgress { received: Ghost(Seq::empty()) }
    }
}

impl ProgressHandler for NoProgress {
    closed spec fn calls(&self) -> Seq<(bool, Seq<u8>)> {
        self.received@
    }

    fn handle_progress(&mut self, is_error: bool, text: &[u8]) {
        self.received = Ghost(self.received@.push((is_error, text@)));
    }
}

/// A handler that keeps every call it receives.
pub struct ProgressLog {
    pub received: Vec<(bool, Vec<u8>)>,
}

impl ProgressLog {
    pub fn new() -> (r: ProgressLog)
        ensures
            r.calls() == Seq::<(bool, Seq<u8>)>::empty(),
    {
        let r = ProgressLog { received: Vec::new() };
        assert(r.calls() =~= Seq::<(bool, Seq<u8>)>::empty());
        r
    }
}

impl ProgressHandler for ProgressLog {
    open spec fn calls(&self) -> Seq<(bool, Seq<u8>)> {
        self.received@.map_values(|c: (bool, Vec<u8>)| (c.0, c.1@))
    }

    fn handle_progress(&mut self, is_error: bool, text: &[u8]) {
        self.received.push((is_error, vstd::slice::slice_to_vec(text)));
        assert(self.calls() =~= old(self).calls().push((is_error, text@)));
    }
}

/// The calls that reading from line `i` up to the next data line makes: one for
/// each progress (band 2) and error (band 3) line, with its text.
pub open spec fn progress_calls(
    lines: Seq<Result<LineView, DecodeError>>,
    i: int,
    delimiters: Seq<LineView>,
) -> Seq<(bool, Seq<u8>)>
    decreases lines.len() - i,
{
    if i < 0 || i >= lines.len() {
        Seq::empty()
    } else {
        match lines[i] {
            Err(_) => Seq::empty(),
            Ok(l) => if is_delimiter(delimiters, l) {
                Seq::empty()
            } else {
                match line_band(l) {
                    Ok((b, p)) => if b == 1 && p.len() > 0 {
                        Seq::empty()
                    } else if b == 1 {
                        progress_calls(lines, i + 1, delimiters)
                    } else {
                        seq![(b == 3, text_of(p))] + progress_calls(lines, i + 1, delimiters)
                    },
                    Err(_) => Seq::empty(),
                }
            },
        }
    }
}

/// The calls that reading from line `i` to the end of the stream makes.
pub open spec fn stream_progress(
    lines: Seq<Result<LineView, DecodeError>>,
    i: int,
    delimiters: Seq<LineView>,
) -> Seq<(bool, Seq<u8>)>
    decreases lines.len() - i,
{
    if i < 0 || i >= lines.len() {
        Seq::empty()
    } else {
        match lines[i] {
            Err(_) => Seq::empty(),
            Ok(l) => if is_delimiter(delimiters, l) {
                Seq::empty()
            } else {
                match line_band(l) {
                    Ok((b, p)) => if b != 1 {
                        seq![(b == 3, text_of(p))] + stream_progress(lines, i + 1, delimiters)
                    } else {
                        stream_progress(lines, i + 1, delimiters)
                    },
                    Err(_) => Seq::empty(),
                }
            },
        }
    }
}

/// The calls to the end of the stream are those up to the next data line, then
/// those after it.
pub proof fn lemma_stream_progress_by_found(
    lines: Seq<Result<LineView, DecodeError>>,
    i: int,
    delimiters: Seq<LineView>,
)
    requires
        0 <= i,
    ensures
        stream_progress(lines, i, delimiters) == progress_calls(lines, i, delimiters) + match found(
            lines,
            i,
            delimiters,
            true,
        ) {
            Found::Data(j) => stream_progress(lines, j + 1, delimiters),
            _ => Seq::<(bool, Seq<u8>)>::empty(),
        },
    decreases lines.len() - i,
{
    if i < lines.len() {
        lemma_found_after(lines, i, delimiters, true);
        lemma_stream_progress_by_found(lines, i + 1, delimiters);
        let e = Seq::<(bool, Seq<u8>)>::empty();
        assert(e + e =~= e);
        assert(e + stream_progress(lines, i + 1, delimiters) =~= stream_progress(lines, i + 1, delimiters));
        match lines[i] {
            Ok(l) => if !is_delimiter(delimiters, l) {
                match line_band(l) {
                    Ok((b, p)) => if b != 1 {
                        let c = seq![(b == 3, text_of(p))];
                        let rest = match found(lines, i + 1, delimiters, true) {
                            Found::Data(j) => stream_progress(lines, j + 1, delimiters),
                            _ => e,
                        };
                        assert(c + progress_calls(lines, i + 1, delimiters) + rest =~= c + (progress_calls(
                            lines,
                            i + 1,
                            delimiters,
                        ) + rest));
                    },
                    Err(_) => {},
                }
            },
            Err(_) => {},
        }
    }
}

/// A buffered reader of the data lines of `parent`. With a progress handler the
/// lines are sideband lines: band 1 is data, bands 2 and 3 go to the handler.
/// Without one every line must be a data line, exposed whole.
pub struct WithSidebands<F> {
    parent: StreamingPeekableIter,
    handle_progress: Option<F>,
    pos: usize,
    cap: usize,
}

impl<F: ProgressHandler> WithSidebands<F> {
    /// The reader of packet lines underneath.
    pub closed spec fn parent(&self) -> StreamingPeekableIter {
        self.parent
    }

    /// The progress handler, if one is installed.
    pub closed spec fn handler(&self) -> Option<F> {
        self.handle_progress
    }

    pub open spec fn has_handler(&self) -> bool {
        self.handler() is Some
    }

    /// The calls that the installed handler received.
    pub open spec fn handler_calls(&self) -> Seq<(bool, Seq<u8>)> {
        match self.handler() {
            Some(h) => h.calls(),
            None => Seq::empty(),
        }
    }

    /// The calls that the next fill makes.
    pub open spec fn fill_progress(&self) -> Seq<(bool, Seq<u8>)> {
        let p = self.parent();
        if self.window().len() > 0 || p.done() || !self.has_handler() {
            Seq::empty()
        } else {
            progress_calls(p.lines(), p.next_pos(), p.delimiters())
        }
    }

    /// The calls that reading to the end of the stream makes.
    pub open spec fn pending_progress(&self) -> Seq<(bool, Seq<u8>)> {
        let p = self.parent();
        if p.done() || !self.has_handler() {
            Seq::empty()
        } else {
            stream_progress(p.lines(), p.next_pos(), p.delimiters())
        }
    }

    /// The installed progress handler.
    pub fn progress_handler(&self) -> (r: Option<&F>)
        ensures
            match self.handler() {
                Some(h) => r matches Some(x) && *x == h,
                None => r is None,
            },
    {
        self.handle_progress.as_ref()
    }

    /// The data read but not yet consumed.
    pub closed spec fn window(&self) -> Seq<u8> {
        self.parent.buffer().subrange(self.pos as int, self.cap as int)
    }

    pub closed spec fn wf(&self) -> bool {
        &&& self.parent.wf()
        &&& self.pos <= self.cap <= self.parent.buffer().len()
    }

    /// The data that the reader still delivers, `None` where the stream ends in
    /// a failure.
    pub open spec fn pending(&self) -> Option<Seq<u8>> {
        let p = self.parent();
        let rest = if p.done() {
            Some(Seq::empty())
        } else {
            data_stream(p.lines(), p.next_pos(), p.delimiters(), self.has_handler())
        };
        match rest {
            Some(s) => Some(self.window() + s),
            None => None,
        }
    }

    /// The reader and `other` are in the same state.
    pub open spec fn same_reader(&self, other: &WithSidebands<F>) -> bool {
        &&& self.wf() == other.wf()
        &&& self.parent().same_state(&other.parent())
        &&& self.handler() == other.handler()
        &&& self.window() == other.window()
    }

    /// A reader over `parent` that passes progress to `handle_progress`.
    pub fn with_progress_handler(parent: StreamingPeekableIter, handle_progress: F) -> (r: WithSidebands<F>)
        requires
            parent.wf(),
        ensures
            r.wf(),
            r.parent().same_state(&parent),
            r.handler() == Some(handle_progress),
            r.window() == Seq::<u8>::empty(),
    {
        WithSidebands { parent, handle_progress: Some(handle_progress), pos: 0, cap: 0 }
    }

    /// A reader over `parent` without a progress handler.
    pub fn without_progress_handler(parent: StreamingPeekableIter) -> (r: WithSidebands<F>)
        requires
            parent.wf(),
        ensures
            r.wf(),
            r.parent().same_state(&parent),
            !r.has_handler(),
            r.window() == Seq::<u8>::empty(),
    {
        WithSidebands { parent, handle_progress: None, pos: 0, cap: 0 }
    }

    /// Sets or removes the progress handler.
    pub fn set_progress_handler(&mut self, handle_progress: Option<F>)
        requires
            old(self).wf(),
        ensures
            final(self).wf(),
            final(self).parent().same_state(&old(self).parent()),
            final(self).window() == old(self).window(),
            final(self).handler() == handle_progress,
    {
        self.handle_progress = handle_progress;
    }

    /// Replaces the parent's delimiter lines and allows it to read on.
    pub fn reset_with(&mut self, delimiters: &[PacketLine])
        requires
            old(self).wf(),
        ensures
            final(self).wf(),
            final(self).handler() == old(self).handler(),
            final(self).window() == old(self).window(),
            final(self).parent().lines() == old(self).parent().lines(),
            final(self).parent().next_pos() == old(self).parent().next_pos(),
            final(self).parent().buffer() == old(self).parent().buffer(),
            final(self).parent().delimiters() == delimiters@.map_values(|l: PacketLine| l@),
            !final(self).parent().done(),
            final(self).parent().stopped() is None,
    {
        self.parent.reset_with(delimiters);
    }

    /// The delimiter line at which the parent stopped, if it did.
    pub fn stopped_at(&self) -> (r: Option<PacketLine>)
        ensures
            match self.parent().stopped() {
                Some(l) => r matches Some(x) && x@ == l,
                None => r is None,
            },
    {
        self.parent.stopped_at()
    }

    /// Gives the parent back, reset so that it reads on past a delimiter line at
    /// which it stopped.
    pub fn into_parent(self) -> (r: StreamingPeekableIter)
        requires
            self.wf(),
        ensures
            r.wf(),
            r.is_reset_of(&self.parent()),
    {
        let mut parent = self.parent;
        parent.reset();
        parent
    }

    /// Advances past `amt` bytes of the window, at most to its end.
    pub fn consume(&mut self, amt: usize)
        requires
            old(self).wf(),
        ensures
            final(self).wf(),
            final(self).parent().same_state(&old(self).parent()),
            final(self).handler() == old(self).handler(),
            final(self).window() == old(self).window().subrange(
                if amt < old(self).window().len() { amt as int } else { old(self).window().len() as int },
                old(self).window().len() as int,
            ),
    {
        if amt < self.cap - self.pos {
            self.pos = self.pos + amt;
        } else {
            self.pos = self.cap;
        }
    }
}

/// What reading up to the next data line does: `o` is the reader before, `n` after,
/// and `r` the data or the error returned.
pub open spec fn fill_outcome<F: ProgressHandler>(
    o: WithSidebands<F>,
    n: WithSidebands<F>,
    r: Result<Seq<u8>, ReadError>,
) -> bool {
    let p = o.parent();
    let h = o.has_handler();
    let lines = p.lines();
    if p.done() {
        r == Ok::<Seq<u8>, ReadError>(Seq::empty()) && n.same_reader(&o)
    } else {
        match found(lines, p.next_pos(), p.delimiters(), h) {
            Found::Data(j) => {
                &&& r == Ok::<Seq<u8>, ReadError>(payload(lines[j]->Ok_0, h))
                &&& n.parent().next_pos() == j + 1
                &&& !n.parent().done()
                &&& n.parent().stopped() == p.stopped()
            },
            Found::Stop(j) => {
                &&& r == Ok::<Seq<u8>, ReadError>(Seq::empty())
                &&& n.parent().next_pos() == j + 1
                &&& n.parent().done()
                &&& n.parent().stopped() == Some(lines[j]->Ok_0)
            },
            Found::End => {
                &&& r == Ok::<Seq<u8>, ReadError>(Seq::empty())
                &&& n.parent().next_pos() == lines.len()
                &&& n.parent().done()
                &&& n.parent().stopped() == p.stopped()
            },
            Found::Fail(j) => {
                &&& r is Err
                &&& failure(lines[j], h, r->Err_0)
                &&& n.parent().next_pos() == j + 1
                &&& n.parent().done() == lines[j] is Err
                &&& n.parent().stopped() == p.stopped()
                &&& n.window() == Seq::<u8>::empty()
            },
        }
    }
}

impl<F: ProgressHandler> WithSidebands<F> {
    /// The unconsumed data of the current data line; where all of it was consumed,
    /// reads lines until one carries data, handing progress and error lines to the
    /// handler. An empty result marks the end of the stream.
    pub fn fill_buf(&mut self) -> (r: Result<&[u8], ReadError>)
        requires
            old(self).wf(),
        ensures
            final(self).wf(),
            final(self).has_handler() == old(self).has_handler(),
            final(self).parent().lines() == old(self).parent().lines(),
            final(self).parent().delimiters() == old(self).parent().delimiters(),
            final(self).handler_calls() == old(self).handler_calls() + old(self).fill_progress(),
            r matches Ok(b) ==> b@ == final(self).window(),
            match next_data(*old(self)) {
                Some(d) => r matches Ok(b) && b@ == d,
                None => r is Err && fill_error(*old(self), r->Err_0),
            },
            old(self).window().len() > 0 ==> r is Ok && final(self).same_reader(old(self)),
            old(self).window().len() == 0 ==> fill_outcome(
                *old(self),
                *final(self),
                match r {
                    Ok(b) => Ok(b@),
                    Err(e) => Err(e),
                },
            ),
    {
        if self.pos < self.cap {
            return Ok(self.parent.buffered(self.pos, self.cap));
        }
        let ghost h = self.handle_progress is Some;
        proof {
            let e = Seq::<(bool, Seq<u8>)>::empty();
            assert(self.handler_calls() + e =~= self.handler_calls());
        }
        loop
            invariant
                self.parent.wf(),
                self.pos == self.cap,
                self.cap <= self.parent.buffer().len(),
                old(self).window().len() == 0,
                old(self).wf(),
                (self.handle_progress is Some) == h,
                h == old(self).has_handler(),
                !h ==> self.handler_calls() == old(self).handler_calls() + old(self).fill_progress(),
                old(self).parent().done() ==> self.handle_progress == old(self).handler(),
                h && !old(self).parent().done() ==> self.handler_calls() + progress_calls(
                    self.parent.lines(),
                    self.parent.next_pos(),
                    self.parent.delimiters(),
                ) == old(self).handler_calls() + old(self).fill_progress(),
                self.parent.lines() == old(self).parent().lines(),
                self.parent.delimiters() == old(self).parent().delimiters(),
                self.parent.stopped() == old(self).parent().stopped(),
                old(self).parent().done() ==> self.parent.same_state(&old(self).parent()),
                !old(self).parent().done() ==> !self.parent.done() && old(self).parent().next_pos()
                    <= self.parent.next_pos() && found(
                    self.parent.lines(),
                    self.parent.next_pos(),
                    self.parent.delimiters(),
                    h,
                ) == found(
                    old(self).parent().lines(),
                    old(self).parent().next_pos(),
                    old(self).parent().delimiters(),
                    h,
                ),
            decreases self.parent.lines().len() - self.parent.next_pos(),
        {
            proof {
                self.parent.lemma_next_in_range();
                lemma_found_after(self.parent.lines(), self.parent.next_pos(), self.parent.delimiters(), h);
            }
            let ghost before = self.parent;
            let ghost calls_before = self.handler_calls();
            proof {
                assert(calls_before + Seq::<(bool, Seq<u8>)>::empty() =~= calls_before);
            }
            let line = match self.parent.read_line() {
                None => {
                    proof {
                        if !old(self).parent().done() {
                            if before.next_pos() < before.lines().len() {
                                assert(found(before.lines(), before.next_pos(), before.delimiters(), h)
                                    == Found::Stop(before.next_pos()));
                            } else {
                                assert(found(before.lines(), before.next_pos(), before.delimiters(), h)
                                    == Found::End);
                            }
                        }
                    }
                    self.pos = 0;
                    self.cap = 0;
                    assert(self.parent.buffer().subrange(0, 0) =~= Seq::<u8>::empty());
                    assert(old(self).window() =~= Seq::<u8>::empty());
                    return Ok(self.parent.buffered(0, 0));
                },
                Some(Err(e)) => {
                    proof {
                        assert(found(before.lines(), before.next_pos(), before.delimiters(), h)
                            == Found::Fail(before.next_pos()));
                        assert(self.window() =~= Seq::<u8>::empty());
                    }
                    return Err(ReadError::Decode(e));
                },
                Some(Ok(line)) => line,
            };
            self.pos = 0;
            self.cap = 0;
            match &mut self.handle_progress {
                Some(handler) => {
                    let d = match line.as_slice() {
                        Some(d) => d,
                        None => {
                            proof {
                                assert(found(before.lines(), before.next_pos(), before.delimiters(), h)
                                    == Found::Fail(before.next_pos()));
                                assert(self.window() =~= Seq::<u8>::empty());
                            }
                            return Err(ReadError::Band(BandError::NonDataLine));
                        },
                    };
                    match decode_band(d) {
                        Ok(Band::Data(payload)) if payload.len() == 0 => {},
                        Ok(Band::Data(payload)) => {
                            self.pos = 1;
                            self.cap = d.len();
                            proof {
                                assert(found(before.lines(), before.next_pos(), before.delimiters(), h)
                                    == Found::Data(before.next_pos()));
                                assert(self.window() =~= payload@);
                            }
                            return Ok(self.parent.buffered(self.pos, self.cap));
                        },
                        Ok(Band::Progress(payload)) => {
                            handler.handle_progress(false, text(payload));
                            proof {
                                let c = seq![(false, text_of(payload@))];
                                let rest = progress_calls(before.lines(), before.next_pos() + 1, before.delimiters());
                                assert(progress_calls(before.lines(), before.next_pos(), before.delimiters()) == c + rest);
                                assert(calls_before.push((false, text_of(payload@))) + rest =~= calls_before + (c + rest));
                            }
                        },
                        Ok(Band::Error(payload)) => {
                            handler.handle_progress(true, text(payload));
                            proof {
                                let c = seq![(true, text_of(payload@))];
                                let rest = progress_calls(before.lines(), before.next_pos() + 1, before.delimiters());
                                assert(progress_calls(before.lines(), before.next_pos(), before.delimiters()) == c + rest);
                                assert(calls_before.push((true, text_of(payload@))) + rest =~= calls_before + (c + rest));
                            }
                        },
                        Err(e) => {
                            proof {
                                assert(found(before.lines(), before.next_pos(), before.delimiters(), h)
                                    == Found::Fail(before.next_pos()));
                                assert(self.window() =~= Seq::<u8>::empty());
                            }
                            return Err(ReadError::Band(e));
                        },
                    }
                },
                None => match line.as_slice() {
                    Some(d) if d.len() == 0 => {},
                    Some(d) => {
                        self.pos = 0;
                        self.cap = d.len();
                        proof {
                            assert(found(before.lines(), before.next_pos(), before.delimiters(), h)
                                == Found::Data(before.next_pos()));
                            assert(self.window() =~= d@);
                        }
                        return Ok(self.parent.buffered(self.pos, self.cap));
                    },
                    None => {
                        proof {
                            assert(found(before.lines(), before.next_pos(), before.delimiters(), h)
                                == Found::Fail(before.next_pos()));
                            assert(self.window() =~= Seq::<u8>::empty());
                        }
                        return Err(ReadError::UnexpectedEof);
                    },
                },
            }
        }
    }
}

/// Appends `b` to `out`.
fn append_bytes(out: &mut Vec<u8>, b: &[u8])
    ensures
        final(out)@ == old(out)@ + b@,
{
    let mut i: usize = 0;
    while i < b.len()
        invariant
            i <= b@.len(),
            out@ == old(out)@ + b@.subrange(0, i as int),
        decreases b@.len() - i,
    {
        out.push(b[i]);
        i = i + 1;
        assert(out@ =~= old(out)@ + b@.subrange(0, i as int));
    }
    assert(b@.subrange(0, i as int) =~= b@);
}

impl WithSidebands<NoProgress> {
    /// A reader over `parent` without a progress handler.
    pub fn new(parent: StreamingPeekableIter) -> (r: WithSidebands<NoProgress>)
        requires
            parent.wf(),
        ensures
            r.wf(),
            r.parent().same_state(&parent),
            !r.has_handler(),
            r.window() == Seq::<u8>::empty(),
    {
        WithSidebands::without_progress_handler(parent)
    }
}

impl<F: ProgressHandler> WithSidebands<F> {
    /// Reads all remaining data up to the end of the stream.
    pub fn read_to_end(&mut self) -> (r: Result<Vec<u8>, ReadError>)
        requires
            old(self).wf(),
        ensures
            final(self).wf(),
            match old(self).pending() {
                Some(s) => r matches Ok(v) && v@ == s,
                None => r is Err,
            },
            final(self).handler_calls() == old(self).handler_calls() + old(self).pending_progress(),
    {
        let mut out: Vec<u8> = Vec::new();
        proof {
            assert(old(self).handler_calls() + old(self).pending_progress() =~= old(self).handler_calls()
                + old(self).pending_progress());
        }
        loop
            invariant
                self.wf(),
                self.has_handler() == old(self).has_handler(),
                self.handler_calls() + self.pending_progress() == old(self).handler_calls()
                    + old(self).pending_progress(),
                match old(self).pending() {
                    Some(s) => self.pending() matches Some(t) && s == out@ + t,
                    None => self.pending() is None,
                },
            decreases self.parent().lines().len() - self.parent().next_pos(), self.window().len(),
        {
            let ghost before = *self;
            proof {
                before.parent().lemma_next_in_range();
                lemma_found_after(before.parent().lines(), before.parent().next_pos(), before.parent().delimiters(), before.has_handler());
                lemma_stream_by_found(before.parent().lines(), before.parent().next_pos(), before.parent().delimiters(), before.has_handler());
                lemma_stream_progress_by_found(before.parent().lines(), before.parent().next_pos(), before.parent().delimiters());
            }
            let n = match self.fill_buf() {
                Ok(b) => {
                    if b.len() == 0 {
                        proof {
                            assert(out@ + Seq::<u8>::empty() =~= out@);
                            assert(before.window() + Seq::<u8>::empty() =~= before.window());
                        }
                        return Ok(out);
                    }
                    append_bytes(&mut out, b);
                    b.len()
                },
                Err(e) => {
                    return Err(e);
                },
            };
            let ghost filled = *self;
            self.consume(n);
            proof {
                assert(self.window() =~= Seq::<u8>::empty());
                assert(self.window() + Seq::<u8>::empty() =~= Seq::<u8>::empty());
                let w = filled.window();
                if let Some(t) = before.pending() {
                    assert(t =~= w + self.pending()->Some_0);
                }
                match old(self).pending() {
                    Some(s) => {
                        let t = before.pending()->Some_0;
                        assert(s == (out@.subrange(0, out@.len() - w.len()) + w) + self.pending()->Some_0) by {
                            assert(out@.subrange(0, out@.len() - w.len()) + w =~= out@);
                        }
                    },
                    None => {},
                }
            }
        }
    }

    /// Copies as much of the next data as fits into `buf`, and consumes it.
    /// Where the stream ends in no failure, the bytes copied followed by what the
    /// reader still delivers are what it delivered before; a read of nothing into a
    /// non-empty `buf` marks the end of the stream.
    pub fn read(&mut self, buf: &mut [u8]) -> (r: Result<usize, ReadError>)
        requires
            old(self).wf(),
        ensures
            final(self).wf(),
            final(self).has_handler() == old(self).has_handler(),
            final(self).handler_calls() == old(self).handler_calls() + old(self).fill_progress(),
            final(buf)@.len() == old(buf)@.len(),
            r matches Ok(k) ==> k <= old(buf)@.len() && final(buf)@.subrange(k as int, old(buf)@.len() as int)
                == old(buf)@.subrange(k as int, old(buf)@.len() as int),
            match next_data(*old(self)) {
                Some(d) => r matches Ok(k) && k == (if old(buf)@.len() < d.len() {
                    old(buf)@.len()
                } else {
                    d.len()
                }) && final(buf)@.subrange(0, k as int) == d.subrange(0, k as int)
                    && final(self).window() == d.subrange(k as int, d.len() as int),
                None => r is Err && fill_error(*old(self), r->Err_0),
            },
            old(self).pending() matches Some(s) ==> r matches Ok(k) && ((k == 0 && s.len() == 0)
                || (final(self).pending() matches Some(t) && s == final(buf)@.subrange(0, k as int) + t)),
            old(buf)@.len() > 0 && (old(self).pending() matches Some(s) && s.len() > 0) ==> (r matches Ok(k)
                && k > 0),
    {
        let ghost before = *self;
        proof {
            before.parent().lemma_next_in_range();
            lemma_found_after(before.parent().lines(), before.parent().next_pos(), before.parent().delimiters(), before.has_handler());
            lemma_stream_by_found(before.parent().lines(), before.parent().next_pos(), before.parent().delimiters(), before.has_handler());
        }
        let b = match self.fill_buf() {
            Ok(b) => b,
            Err(e) => {
                return Err(e);
            },
        };
        let ghost w = b@;
        let k = if b.len() < buf.len() { b.len() } else { buf.len() };
        let mut i: usize = 0;
        while i < k
            invariant
                k <= b@.len(),
                k <= buf@.len(),
                i <= k,
                buf@.len() == old(buf)@.len(),
                forall|j: int| 0 <= j < i ==> buf@[j] == b@[j],
                forall|j: int| k <= j < buf@.len() ==> buf@[j] == old(buf)@[j],
            decreases k - i,
        {
            buf.set(i, b[i]);
            i = i + 1;
        }
        proof {
            assert(buf@.subrange(k as int, old(buf)@.len() as int) =~= old(buf)@.subrange(k as int, old(buf)@.len() as int));
            assert(buf@.subrange(0, k as int) =~= b@.subrange(0, k as int));
        }
        self.consume(k);
        proof {
            assert(self.window() =~= w.subrange(k as int, w.len() as int));
            assert(w =~= w.subrange(0, k as int) + w.subrange(k as int, w.len() as int));
            if w.len() == 0 {
                if before.window().len() == 0 && !before.parent().done() {
                    assert(before.window() + Seq::<u8>::empty() =~= Seq::<u8>::empty());
                }
            } else {
                if let Some(t) = before.pending() {
                    assert(t =~= w.subrange(0, k as int) + self.pending()->Some_0);
                }
            }
        }
        Ok(k)
    }
}

/// Relies on `String::from_utf8`: the text that `bytes` encode, where they are
/// valid UTF-8.
#[verifier::external_body]
fn utf8_text(bytes: Vec<u8>) -> (r: Option<String>)
    ensures
        r is Some <==> vstd::utf8::valid_utf8(bytes@),
        r matches Some(s) ==> s@ == vstd::utf8::decode_utf8(bytes@),
{
    String::from_utf8(bytes).ok()
}

/// `e` is the error with which the next fill of `o` fails.
pub open spec fn fill_error<F: ProgressHandler>(o: WithSidebands<F>, e: ReadError) -> bool {
    let p = o.parent();
    match found(p.lines(), p.next_pos(), p.delimiters(), o.has_handler()) {
        Found::Fail(j) => failure(p.lines()[j], o.has_handler(), e),
        _ => false,
    }
}

/// The data that the next fill of `o` returns, `None` where it fails.
pub open spec fn next_data<F: ProgressHandler>(o: WithSidebands<F>) -> Option<Seq<u8>> {
    let p = o.parent();
    if o.window().len() > 0 {
        Some(o.window())
    } else if p.done() {
        Some(Seq::empty())
    } else {
        match found(p.lines(), p.next_pos(), p.delimiters(), o.has_handler()) {
            Found::Data(j) => Some(payload(p.lines()[j]->Ok_0, o.has_handler())),
            Found::Fail(_) => None,
            _ => Some(Seq::empty()),
        }
    }
}

impl<F: ProgressHandler> WithSidebands<F> {
    /// The payload of the next line where it is a data line, an error where it
    /// cannot be decoded, and nothing otherwise; the line is not consumed.
    pub fn peek_data_line(&mut self) -> (r: Option<Result<Vec<u8>, DecodeError>>)
        requires
            old(self).wf(),
        ensures
            final(self).wf(),
            final(self).handler() == old(self).handler(),
            final(self).window() == old(self).window(),
            final(self).parent().lines() == old(self).parent().lines(),
            final(self).parent().delimiters() == old(self).parent().delimiters(),
            r matches Some(Ok(_)) ==> final(self).parent().same_state(&old(self).parent()),
            old(self).parent().done() ==> final(self).parent().same_state(&old(self).parent()),
            ({
                let p = old(self).parent();
                if !p.done() && 0 <= p.next_pos() < p.lines().len() {
                    match p.lines()[p.next_pos()] {
                        Err(e) => r == Some(Err::<Vec<u8>, DecodeError>(e)),
                        Ok(LineView::Data(d)) => if is_delimiter(p.delimiters(), LineView::Data(d)) {
                            r is None
                        } else {
                            r matches Some(Ok(v)) && v@ == d
                        },
                        Ok(_) => r is None,
                    }
                } else {
                    r is None
                }
            }),
    {
        proof {
            old(self).parent().lemma_next_in_range();
        }
        match self.parent.peek_line() {
            Some(Ok(PacketLine::Data(line))) => Some(Ok(line)),
            Some(Err(e)) => Some(Err(e)),
            _ => None,
        }
    }

    /// Reads the data of the next data line into `buf` as text, and returns its
    /// length in bytes. The current line must have been consumed entirely.
    pub fn read_line(&mut self, buf: &mut String) -> (r: Result<usize, ReadError>)
        requires
            old(self).wf(),
            old(self).window().len() == 0,
        ensures
            final(self).wf(),
            final(self).has_handler() == old(self).has_handler(),
            final(self).handler_calls() == old(self).handler_calls() + old(self).fill_progress(),
            final(self).window() == Seq::<u8>::empty(),
            match next_data(*old(self)) {
                Some(d) => if vstd::utf8::valid_utf8(d) {
                    r == Ok::<usize, ReadError>(d.len() as usize) && final(buf)@ == vstd::utf8::decode_utf8(d)
                } else {
                    r == Err::<usize, ReadError>(ReadError::InvalidUtf8) && final(buf)@ == old(buf)@
                },
                None => r is Err && final(buf)@ == old(buf)@,
            },
    {
        let data = match self.fill_buf() {
            Ok(b) => vstd::slice::slice_to_vec(b),
            Err(e) => {
                self.pos = self.cap;
                return Err(e);
            },
        };
        self.pos = self.cap;
        let n = data.len();
        match utf8_text(data) {
            Some(text) => {
                *buf = text;
                Ok(n)
            },
            None => Err(ReadError::InvalidUtf8),
        }
    }
}

/// The concatenation of the payloads of the band-1 lines from line `i` on, up to
/// the first delimiter line or the end; `None` where a line that cannot be read
/// comes first.
pub open spec fn band_payloads(
    lines: Seq<Result<LineView, DecodeError>>,
    i: int,
    delimiters: Seq<LineView>,
) -> Option<Seq<u8>>
    decreases lines.len() - i,
{
    if i < 0 || i >= lines.len() {
        Some(Seq::empty())
    } else {
        match lines[i] {
            Err(_) => None,
            Ok(l) => if is_delimiter(delimiters, l) {
                Some(Seq::empty())
            } else {
                match line_band(l) {
                    Ok((b, p)) => match band_payloads(lines, i + 1, delimiters) {
                        Some(s) => Some(if b == 1 { p + s } else { s }),
                        None => None,
                    },
                    Err(_) => None,
                }
            },
        }
    }
}

/// With a handler, what a reader delivers is the concatenation, in order, of the
/// band-1 payloads without their band byte.
pub proof fn law_delivered_data_is_band_payloads(
    lines: Seq<Result<LineView, DecodeError>>,
    i: int,
    delimiters: Seq<LineView>,
)
    requires
        0 <= i,
    ensures
        data_stream(lines, i, delimiters, true) == band_payloads(lines, i, delimiters),
    decreases lines.len() - i,
{
    if i < lines.len() {
        law_delivered_data_is_band_payloads(lines, i + 1, delimiters);
        if let Ok(l) = lines[i] {
            if let Ok((b, p)) = line_band(l) {
                if let Some(rest) = band_payloads(lines, i + 1, delimiters) {
                    if p.len() == 0 {
                        assert(p + rest =~= rest);
                    }
                }
            }
        }
    }
}

/// A reader over a parent that had not stopped, given back without reading,
/// returns the parent in the state it had before it was wrapped.
pub proof fn law_unwrapped_parent_restored<F: ProgressHandler>(
    parent: StreamingPeekableIter,
    reader: WithSidebands<F>,
    back: StreamingPeekableIter,
)
    requires
        !parent.done(),
        parent.stopped() is None,
        reader.parent().same_state(&parent),
        back.is_reset_of(&reader.parent()),
    ensures
        back.same_state(&parent),
{
}

} // verus!
