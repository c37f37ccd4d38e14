use midx_sideband::packetline::{
    decode_band, decode_line, decode_lines, text, Band, BandError, DecodeError, PacketLine, StreamingPeekableIter,
};
use midx_sideband::sidebands::{NoProgress, ProgressLog, ReadError, WithSidebands};

fn calls<'a>(reader: &'a WithSidebands<ProgressLog>) -> &'a Vec<(bool, Vec<u8>)> {
    &reader.progress_handler().expect("a handler").received
}

fn band(b: u8, payload: &[u8]) -> Result<PacketLine, DecodeError> {
    let mut d = vec![b];
    d.extend_from_slice(payload);
    Ok(PacketLine::Data(d))
}

fn data(payload: &[u8]) -> Result<PacketLine, DecodeError> {
    Ok(PacketLine::Data(payload.to_vec()))
}

/// A clone response as the server sends it after the negotiation: progress
/// lines interleaved with the pack, 876 bytes in chunks, then a flush line.
fn clone_response() -> (Vec<Result<PacketLine, DecodeError>>, Vec<u8>) {
    let pack: Vec<u8> = (0..876u32).map(|i| (i * 7 % 251) as u8).collect();
    let mut lines = vec![
        band(2, b"Enumerating objects: 9, done.\n"),
        band(2, b"Counting objects:  11% (1/9)\r"),
        band(2, b"Counting objects: 100% (9/9), done.\n"),
    ];
    for (i, chunk) in pack.chunks(300).enumerate() {
        lines.push(band(1, chunk));
        if i == 0 {
            lines.push(band(2, b"Compressing objects: 100% (5/5), done.\n"));
        }
    }
    lines.push(band(2, b"Total 9 (delta 0), reused 0 (delta 0), pack-reused 0\n"));
    lines.push(Ok(PacketLine::Flush));
    lines.push(data(b"after the flush"));
    (lines, pack)
}

#[test]
fn clone() {
    let (lines, pack) = clone_response();
    let mut reader = WithSidebands::with_progress_handler(StreamingPeekableIter::new(lines), ProgressLog::new());
    let mut received = Vec::new();
    let mut buf = [0u8; 64];
    loop {
        let n = reader.read(&mut buf).expect("readable");
        if n == 0 {
            break;
        }
        received.extend_from_slice(&buf[..n]);
    }
    assert_eq!(received.len(), 876, "It be able to read pack bytes");
    assert_eq!(received, pack);
    assert!(matches!(reader.stopped_at(), Some(PacketLine::Flush)));
}

#[test]
fn progress_reaches_the_handler() {
    let (lines, _) = clone_response();
    let mut reader = WithSidebands::with_progress_handler(StreamingPeekableIter::new(lines), ProgressLog::new());
    assert_eq!(reader.read_to_end().expect("readable").len(), 876);
    let calls = calls(&reader);
    assert!(calls.iter().any(|(is_error, _)| !is_error));
    assert_eq!(calls[0], (false, b"Enumerating objects: 9, done.".to_vec()));
    assert_eq!(calls[1], (false, b"Counting objects:  11% (1/9)\r".to_vec()));
    assert_eq!(calls.len(), 5);
}


#[test]
fn error_band_reaches_the_handler() {
    let lines = vec![band(3, b"fatal: bad object\n"), band(1, b"xy"), Ok(PacketLine::Flush)];
    let mut reader = WithSidebands::with_progress_handler(StreamingPeekableIter::new(lines), ProgressLog::new());
    assert_eq!(reader.read_to_end(), Ok(b"xy".to_vec()));
    assert_eq!(calls(&reader), &vec![(true, b"fatal: bad object".to_vec())]);
}

#[test]
fn fill_buf_and_consume() {
    let lines = vec![band(1, b"hello"), band(1, b"world"), Ok(PacketLine::Flush)];
    let mut reader = WithSidebands::with_progress_handler(StreamingPeekableIter::new(lines), ProgressLog::new());
    assert_eq!(reader.fill_buf().unwrap(), b"hello");
    // filling again without consuming hands out the same bytes
    assert_eq!(reader.fill_buf().unwrap(), b"hello");
    reader.consume(2);
    assert_eq!(reader.fill_buf().unwrap(), b"llo");
    // consuming more than is available stops at the end of the window
    reader.consume(1000);
    assert_eq!(reader.fill_buf().unwrap(), b"world");
    reader.consume(usize::MAX);
    assert_eq!(reader.fill_buf().unwrap(), b"");
    assert!(matches!(reader.stopped_at(), Some(PacketLine::Flush)));
}

#[test]
fn data_only_mode_exposes_whole_lines() {
    let lines = vec![data(b"\x01abc"), data(b"def"), Ok(PacketLine::Flush)];
    let mut reader = WithSidebands::new(StreamingPeekableIter::new(lines));
    assert_eq!(reader.read_to_end(), Ok(b"\x01abcdef".to_vec()));
}

#[test]
fn data_only_mode_rejects_other_lines() {
    let lines = vec![data(b"abc"), Ok(PacketLine::Delimiter), data(b"def")];
    let mut reader = WithSidebands::new(StreamingPeekableIter::new(lines));
    assert_eq!(reader.read_to_end(), Err(ReadError::UnexpectedEof));
}

#[test]
fn invalid_band_is_an_error() {
    let lines = vec![band(4, b"abc"), Ok(PacketLine::Flush)];
    let mut reader = WithSidebands::with_progress_handler(StreamingPeekableIter::new(lines), ProgressLog::new());
    assert_eq!(reader.fill_buf(), Err(ReadError::Band(BandError::InvalidSideBand(4))));
    let lines = vec![Ok(PacketLine::ResponseEnd)];
    let mut reader = WithSidebands::with_progress_handler(StreamingPeekableIter::new(lines), ProgressLog::new());
    assert_eq!(reader.fill_buf(), Err(ReadError::Band(BandError::NonDataLine)));
    let lines = vec![data(b"")];
    let mut reader = WithSidebands::with_progress_handler(StreamingPeekableIter::new(lines), ProgressLog::new());
    assert_eq!(reader.fill_buf(), Err(ReadError::Band(BandError::MissingBand)));
}

#[test]
fn decode_error_is_passed_on() {
    let err = DecodeError::HexDecode;
    let lines = vec![band(1, b"ab"), Err(err.clone())];
    let mut reader = WithSidebands::with_progress_handler(StreamingPeekableIter::new(lines), ProgressLog::new());
    assert_eq!(reader.read_to_end(), Err(ReadError::Decode(err)));
}

#[test]
fn end_of_input_ends_the_stream() {
    let lines = vec![band(1, b"ab"), band(1, b"cd")];
    let mut reader = WithSidebands::with_progress_handler(StreamingPeekableIter::new(lines), ProgressLog::new());
    assert_eq!(reader.read_to_end(), Ok(b"abcd".to_vec()));
    assert!(reader.stopped_at().is_none());
}

#[test]
fn read_line_gives_text() {
    let lines = vec![band(1, b"want 1234\n"), band(1, b"done\n"), Ok(PacketLine::Flush)];
    let mut reader = WithSidebands::with_progress_handler(StreamingPeekableIter::new(lines), ProgressLog::new());
    let mut line = String::new();
    assert_eq!(reader.read_line(&mut line), Ok(10));
    assert_eq!(line, "want 1234\n");
    assert_eq!(reader.read_line(&mut line), Ok(5));
    assert_eq!(line, "done\n");
    assert_eq!(reader.read_line(&mut line), Ok(0));
    assert_eq!(line, "");
}

#[test]
fn read_line_rejects_invalid_utf8() {
    let lines = vec![data(b"\xff\xfe"), Ok(PacketLine::Flush)];
    let mut reader = WithSidebands::new(StreamingPeekableIter::new(lines));
    let mut line = "unchanged".to_string();
    assert_eq!(reader.read_line(&mut line), Err(ReadError::InvalidUtf8));
    assert_eq!(line, "unchanged");
}

#[test]
fn peek_data_line_does_not_consume() {
    let lines = vec![data(b"abc"), Ok(PacketLine::Flush)];
    let mut reader = WithSidebands::new(StreamingPeekableIter::new(lines));
    assert_eq!(reader.peek_data_line(), Some(Ok(b"abc".to_vec())));
    assert_eq!(reader.peek_data_line(), Some(Ok(b"abc".to_vec())));
    assert_eq!(reader.read_to_end(), Ok(b"abc".to_vec()));
    assert_eq!(reader.peek_data_line(), None);
}

#[test]
fn reset_with_reads_past_the_stop() {
    let lines = vec![data(b"ref"), Ok(PacketLine::Flush), data(b"pack"), Ok(PacketLine::Delimiter), data(b"x")];
    let mut reader = WithSidebands::new(StreamingPeekableIter::new(lines));
    assert_eq!(reader.read_to_end(), Ok(b"ref".to_vec()));
    assert!(matches!(reader.stopped_at(), Some(PacketLine::Flush)));
    reader.reset_with(&[PacketLine::Delimiter]);
    assert!(reader.stopped_at().is_none());
    assert_eq!(reader.read_to_end(), Ok(b"pack".to_vec()));
    assert!(matches!(reader.stopped_at(), Some(PacketLine::Delimiter)));
}

#[test]
fn unwrapping_restores_the_parent() {
    let lines = vec![data(b"one"), Ok(PacketLine::Flush), data(b"two"), Ok(PacketLine::Flush)];
    let mut reader = WithSidebands::new(StreamingPeekableIter::new(lines));
    assert_eq!(reader.read_to_end(), Ok(b"one".to_vec()));
    let parent = reader.into_parent();
    assert!(parent.stopped_at().is_none());
    let mut fresh = WithSidebands::new(parent);
    assert_eq!(fresh.read_to_end(), Ok(b"two".to_vec()));
}

#[test]
fn progress_handler_can_be_removed() {
    let lines = vec![band(1, b"a"), band(2, b"progress"), Ok(PacketLine::Flush)];
    let mut reader = WithSidebands::with_progress_handler(StreamingPeekableIter::new(lines), NoProgress::new());
    assert_eq!(reader.fill_buf().unwrap(), b"a");
    reader.consume(1);
    reader.set_progress_handler(None);
    // without a handler the progress line is read whole, band byte included
    assert_eq!(reader.fill_buf().unwrap(), b"\x02progress");
}

#[test]
fn bands_and_text() {
    assert_eq!(decode_band(&[1, 9, 8]), Ok(Band::Data(&[9, 8])));
    assert_eq!(decode_band(&[2, 9]), Ok(Band::Progress(&[9])));
    assert_eq!(decode_band(&[3]), Ok(Band::Error(&[])));
    assert_eq!(decode_band(&[0, 1]), Err(BandError::InvalidSideBand(0)));
    assert_eq!(decode_band(&[]), Err(BandError::MissingBand));
    assert_eq!(text(b"done\n"), b"done");
    assert_eq!(text(b"50%\r"), b"50%\r");
}

#[test]
fn parent_lines() {
    let mut parent = StreamingPeekableIter::new(vec![data(b"a"), Ok(PacketLine::Flush), data(b"b")]);
    assert!(matches!(parent.read_line(), Some(Ok(PacketLine::Data(d))) if d == b"a"));
    assert!(parent.read_line().is_none());
    assert!(parent.read_line().is_none());
    assert!(matches!(parent.stopped_at(), Some(PacketLine::Flush)));
    parent.reset();
    assert!(matches!(parent.peek_line(), Some(Ok(PacketLine::Data(d))) if d == b"b"));
    assert!(matches!(parent.read_line(), Some(Ok(PacketLine::Data(d))) if d == b"b"));
    assert!(parent.read_line().is_none());
    assert!(parent.stopped_at().is_none());
    assert!(PacketLine::Flush.same_as(&PacketLine::Flush));
    assert!(!PacketLine::Flush.same_as(&PacketLine::Delimiter));
}

fn encode(lines: &[Result<PacketLine, DecodeError>]) -> Vec<u8> {
    let mut out = Vec::new();
    for line in lines {
        match line {
            Ok(PacketLine::Data(d)) => {
                out.extend_from_slice(format!("{:04x}", d.len() + 4).as_bytes());
                out.extend_from_slice(d);
            }
            Ok(PacketLine::Flush) => out.extend_from_slice(b"0000"),
            Ok(PacketLine::Delimiter) => out.extend_from_slice(b"0001"),
            Ok(PacketLine::ResponseEnd) => out.extend_from_slice(b"0002"),
            Err(_) => unreachable!("only lines are encoded"),
        }
    }
    out
}

#[test]
fn clone_from_wire() {
    let (lines, pack) = clone_response();
    let wire = encode(&lines);
    let mut reader = WithSidebands::with_progress_handler(StreamingPeekableIter::from_wire(&wire), ProgressLog::new());
    let received = reader.read_to_end().expect("readable");
    assert_eq!(received.len(), 876);
    assert_eq!(received, pack);
    assert!(matches!(reader.stopped_at(), Some(PacketLine::Flush)));
    assert!(calls(&reader).iter().any(|(is_error, _)| !is_error));
}

#[test]
fn decode_special_and_data_lines() {
    assert!(matches!(decode_line(b"0000rest"), Ok((PacketLine::Flush, 4))));
    assert!(matches!(decode_line(b"0001"), Ok((PacketLine::Delimiter, 4))));
    assert!(matches!(decode_line(b"0002"), Ok((PacketLine::ResponseEnd, 4))));
    assert!(matches!(decode_line(b"0009hello0000"), Ok((PacketLine::Data(d), 9)) if d == b"hello"));
    assert!(matches!(decode_line(b"000Ahello!"), Ok((PacketLine::Data(d), 10)) if d == b"hello!"));
}

#[test]
fn decode_errors() {
    assert_eq!(decode_line(b"0003").err(), Some(DecodeError::InvalidLineLength));
    assert_eq!(decode_line(b"0004").err(), Some(DecodeError::DataIsEmpty));
    assert_eq!(decode_line(b"fff1").err(), Some(DecodeError::DataLengthLimitExceeded(0xfff1)));
    assert_eq!(decode_line(b"00g0").err(), Some(DecodeError::HexDecode));
    assert_eq!(decode_line(b"000ahi").err(), Some(DecodeError::UnexpectedEof));
    assert_eq!(decode_line(b"00").err(), Some(DecodeError::UnexpectedEof));
    let mut longest = b"fff0".to_vec();
    longest.extend_from_slice(&[7u8; 65516]);
    assert!(matches!(decode_line(&longest), Ok((PacketLine::Data(d), 65520)) if d.len() == 65516));
}

#[test]
fn decoding_stops_at_the_first_error() {
    let lines = decode_lines(b"0006ab0000zzzz0006cd");
    assert_eq!(lines.len(), 3);
    assert!(matches!(&lines[0], Ok(PacketLine::Data(d)) if d == b"ab"));
    assert!(matches!(&lines[1], Ok(PacketLine::Flush)));
    assert_eq!(lines[2].as_ref().err(), Some(&DecodeError::HexDecode));
    assert!(decode_lines(b"").is_empty());
}

#[test]
fn handler_untouched_by_data_and_failures() {
    let lines = vec![band(1, b"data"), band(2, b"p1"), band(7, b"bad")];
    let mut reader = WithSidebands::with_progress_handler(StreamingPeekableIter::new(lines), ProgressLog::new());
    assert!(calls(&reader).is_empty());
    assert_eq!(reader.fill_buf().unwrap(), b"data");
    reader.fill_buf().unwrap();
    assert!(calls(&reader).is_empty());
    reader.consume(4);
    assert_eq!(reader.fill_buf(), Err(ReadError::Band(BandError::InvalidSideBand(7))));
    assert_eq!(calls(&reader), &vec![(false, b"p1".to_vec())]);
}

#[test]
fn read_copies_as_much_as_fits() {
    let lines = vec![band(1, b"abcdef"), Ok(PacketLine::Flush)];
    let mut reader = WithSidebands::with_progress_handler(StreamingPeekableIter::new(lines), ProgressLog::new());
    let mut buf = [0u8; 4];
    assert_eq!(reader.read(&mut buf), Ok(4));
    assert_eq!(&buf, b"abcd");
    assert_eq!(reader.read(&mut buf), Ok(2));
    assert_eq!(&buf[..2], b"ef");
    assert_eq!(reader.read(&mut buf), Ok(0));
}

#[test]
fn read_passes_errors_on() {
    let lines = vec![band(1, b"ab"), Err(DecodeError::DataIsEmpty)];
    let mut reader = WithSidebands::with_progress_handler(StreamingPeekableIter::new(lines), ProgressLog::new());
    let mut buf = [0u8; 8];
    assert_eq!(reader.read(&mut buf), Ok(2));
    assert_eq!(reader.read(&mut buf), Err(ReadError::Decode(DecodeError::DataIsEmpty)));
}

#[test]
fn peek_keeps_the_parent_state() {
    let lines = vec![data(b"abc"), Ok(PacketLine::Flush), data(b"def")];
    let mut reader = WithSidebands::new(StreamingPeekableIter::new(lines));
    assert_eq!(reader.read_to_end(), Ok(b"abc".to_vec()));
    assert_eq!(reader.peek_data_line(), None);
    assert!(matches!(reader.stopped_at(), Some(PacketLine::Flush)));
    assert_eq!(reader.fill_buf().unwrap(), b"");
}

#[test]
fn empty_data_payloads_are_skipped() {
    let lines = vec![band(1, b"ab"), band(1, b""), band(2, b"half way\n"), band(1, b"cd"), Ok(PacketLine::Flush)];
    let mut reader = WithSidebands::with_progress_handler(StreamingPeekableIter::new(lines), ProgressLog::new());
    assert_eq!(reader.read_to_end(), Ok(b"abcd".to_vec()));
    assert_eq!(calls(&reader), &vec![(false, b"half way".to_vec())]);
    let lines = vec![data(b"ab"), data(b""), data(b"cd"), Ok(PacketLine::Flush)];
    let mut reader = WithSidebands::new(StreamingPeekableIter::new(lines));
    assert_eq!(reader.read_to_end(), Ok(b"abcd".to_vec()));
}
