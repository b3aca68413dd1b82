use std::io::{self, BufRead, BufReader, Cursor};

use hyphae::stdio::{line_step, LineStep, MAX_MESSAGE_BYTES};

/// The buffered-reader loop around `line_step`.
fn read_bounded_line<R: BufRead>(reader: &mut R) -> io::Result<Option<Vec<u8>>> {
    let mut line = Vec::new();
    loop {
        let available = reader.fill_buf()?;
        match line_step(line.len(), available, MAX_MESSAGE_BYTES) {
            LineStep::EndOfStream => return Ok(if line.is_empty() { None } else { Some(line) }),
            LineStep::TooLong => {
                return Err(io::Error::new(io::ErrorKind::InvalidData, "MCP message exceeds 4 MiB"))
            }
            LineStep::Complete(consumed) => {
                line.extend_from_slice(&available[..consumed]);
                reader.consume(consumed);
                return Ok(Some(line));
            }
            LineStep::NeedMore => {
                let consumed = available.len();
                line.extend_from_slice(available);
                reader.consume(consumed);
            }
        }
    }
}

#[test]
fn stdio_lines_are_bounded() -> Result<(), std::io::Error> {
    let mut valid = BufReader::new(Cursor::new(b"{}\n"));
    assert_eq!(read_bounded_line(&mut valid)?, Some(b"{}\n".to_vec()));
    let oversized = vec![b'x'; MAX_MESSAGE_BYTES + 1];
    let mut oversized = BufReader::new(Cursor::new(oversized));
    let Err(error) = read_bounded_line(&mut oversized) else {
        return Err(std::io::Error::other("oversized message was accepted"));
    };
    assert_eq!(error.kind(), std::io::ErrorKind::InvalidData);
    Ok(())
}

#[test]
fn stdio_lines_split_on_newlines_and_end_of_stream() -> Result<(), std::io::Error> {
    let mut reader = BufReader::with_capacity(2, Cursor::new(b"ab\ncd\n\nlast".to_vec()));
    assert_eq!(read_bounded_line(&mut reader)?, Some(b"ab\n".to_vec()));
    assert_eq!(read_bounded_line(&mut reader)?, Some(b"cd\n".to_vec()));
    assert_eq!(read_bounded_line(&mut reader)?, Some(b"\n".to_vec()));
    assert_eq!(read_bounded_line(&mut reader)?, Some(b"last".to_vec()));
    assert_eq!(read_bounded_line(&mut reader)?, None);
    Ok(())
}

#[test]
fn stdio_line_of_exactly_the_limit_is_accepted() -> Result<(), std::io::Error> {
    let mut bytes = vec![b'y'; MAX_MESSAGE_BYTES - 1];
    bytes.push(b'\n');
    let mut reader = BufReader::new(Cursor::new(bytes));
    let line = read_bounded_line(&mut reader)?.unwrap();
    assert_eq!(line.len(), MAX_MESSAGE_BYTES);
    Ok(())
}

#[test]
fn line_steps_are_decided_per_chunk() {
    assert_eq!(line_step(0, b"", 8), LineStep::EndOfStream);
    assert_eq!(line_step(0, b"ab\ncd", 8), LineStep::Complete(3));
    assert_eq!(line_step(5, b"ab\ncd", 8), LineStep::Complete(3));
    assert_eq!(line_step(6, b"ab\ncd", 8), LineStep::TooLong);
    assert_eq!(line_step(3, b"abcde", 8), LineStep::NeedMore);
    assert_eq!(line_step(4, b"abcde", 8), LineStep::TooLong);
    assert_eq!(line_step(9, b"\n", 8), LineStep::TooLong);
}
