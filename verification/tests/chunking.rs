use multipart_stream::model::ParserState;
use multipart_stream::parser::{FileInfo, SinkAction, StreamingParser};

#[derive(Debug, PartialEq, Eq)]
struct Outcome {
    state: ParserState,
    retained: usize,
    total_bytes: usize,
    fields_count: usize,
    files_count: usize,
    files_saved: Vec<FileInfo>,
    files: Vec<(Vec<u8>, Vec<u8>, bool)>,
}

fn stored_files(actions: &[SinkAction]) -> Vec<(Vec<u8>, Vec<u8>, bool)> {
    let mut files: Vec<(Vec<u8>, Vec<u8>, bool)> = Vec::new();
    for action in actions {
        match action {
            SinkAction::OpenFile { filename: _, path } => {
                files.push((path.clone(), Vec::new(), false));
            }
            SinkAction::Write(bytes) => {
                let last = files.last_mut().expect("write without an open file");
                assert!(!last.2, "write to a closed file");
                last.1.extend_from_slice(bytes);
            }
            SinkAction::CloseFile => {
                let last = files.last_mut().expect("close without an open file");
                assert!(!last.2, "file closed twice");
                last.2 = true;
            }
            SinkAction::RefuseFile { .. } => {}
        }
    }
    files
}

/// Feeds the chunks in order and gives what came of it, before the end of
/// input is signalled.
fn run(boundary: &[u8], chunks: &[&[u8]]) -> Outcome {
    let mut parser = StreamingParser::new(boundary);
    let mut actions: Vec<SinkAction> = Vec::new();
    for chunk in chunks {
        actions.extend(parser.process_chunk(chunk));
    }
    let stats = parser.get_stats();
    Outcome {
        state: parser.state(),
        retained: parser.retained_len(),
        total_bytes: stats.total_bytes,
        fields_count: stats.fields_count,
        files_count: stats.files_count,
        files_saved: stats.files_saved.clone(),
        files: stored_files(&actions),
    }
}

fn body_with_three_parts() -> Vec<u8> {
    let mut body: Vec<u8> = Vec::new();
    body.extend_from_slice(b"preamble that is ignored\r\n");
    body.extend_from_slice(b"--frontier\r\n");
    body.extend_from_slice(b"Content-Disposition: form-data; name=\"user\"\r\n\r\n");
    body.extend_from_slice(b"JohnDoe\r\n");
    body.extend_from_slice(b"--frontier\r\n");
    body.extend_from_slice(
        b"Content-Disposition: form-data; name=\"doc\"; filename=\"notes.txt\"\r\n",
    );
    body.extend_from_slice(b"Content-Type: text/plain\r\n\r\n");
    body.extend_from_slice(b"line one\r\nline two --front\r\n--frontie\r\n-\r\n");
    body.extend_from_slice(b"--frontier\r\n");
    body.extend_from_slice(
        b"Content-Disposition: form-data; name=\"img\"; filename=\"dot.bin\"\r\n\r\n",
    );
    body.extend_from_slice(&[0u8, 255, 13, 10, 45, 45, 13, 10]);
    body.extend_from_slice(b"--frontier--\r\n");
    body
}

#[test]
fn every_cut_in_two_gives_the_same_outcome() {
    let body = body_with_three_parts();
    let whole = run(b"--frontier", &[&body]);
    assert_eq!(whole.files.len(), 2);
    assert_eq!(
        whole.files[0].1,
        b"line one\r\nline two --front\r\n--frontie\r\n-".to_vec()
    );
    assert_eq!(whole.files[1].1, vec![0u8, 255, 13, 10, 45, 45]);
    assert_eq!(whole.fields_count, 1);
    assert_eq!(whole.files_count, 2);
    for cut in 0..=body.len() {
        let outcome = run(b"--frontier", &[&body[..cut], &body[cut..]]);
        assert_eq!(outcome, whole, "cut at {}", cut);
    }
}

#[test]
fn every_cut_in_three_gives_the_same_outcome() {
    let mut body: Vec<u8> = Vec::new();
    body.extend_from_slice(b"--B\r\n");
    body.extend_from_slice(b"Content-Disposition: form-data; name=\"a\"; filename=\"f\"\r\n\r\n");
    body.extend_from_slice(b"x-\r\n--\r\n--B\r\n");
    body.extend_from_slice(b"Content-Disposition: form-data; name=\"b\"\r\n\r\nv\r\n--B--");
    let whole = run(b"--B", &[&body]);
    assert_eq!(whole.files.len(), 1);
    assert_eq!(whole.files[0].1, b"x-\r\n--".to_vec());
    for first in 0..=body.len() {
        for second in first..=body.len() {
            let outcome = run(
                b"--B",
                &[&body[..first], &body[first..second], &body[second..]],
            );
            assert_eq!(outcome, whole, "cuts at {} and {}", first, second);
        }
    }
}

#[test]
fn every_chunk_size_gives_the_same_outcome() {
    let body = body_with_three_parts();
    let whole = run(b"--frontier", &[&body]);
    for size in 1..=body.len() {
        let chunks: Vec<&[u8]> = body.chunks(size).collect();
        let outcome = run(b"--frontier", &chunks);
        assert_eq!(outcome, whole, "chunk size {}", size);
    }
}

#[test]
fn uneven_chunks_give_the_same_outcome() {
    let body = body_with_three_parts();
    let whole = run(b"--frontier", &[&body]);
    let mut seed: u64 = 0x2545_f491_4f6c_dd1d;
    for _round in 0..300 {
        let mut chunks: Vec<&[u8]> = Vec::new();
        let mut at = 0;
        while at < body.len() {
            seed ^= seed << 13;
            seed ^= seed >> 7;
            seed ^= seed << 17;
            let len = 1 + (seed % 23) as usize;
            let end = usize::min(body.len(), at + len);
            chunks.push(&body[at..end]);
            at = end;
        }
        assert_eq!(run(b"--frontier", &chunks), whole);
    }
}

#[test]
fn a_field_cut_into_many_chunks_is_counted_once() {
    let mut body: Vec<u8> = Vec::new();
    body.extend_from_slice(b"--B\r\n");
    body.extend_from_slice(b"Content-Disposition: form-data; name=\"long\"\r\n\r\n");
    body.extend_from_slice(&vec![b'a'; 500]);
    body.extend_from_slice(b"\r\n--B--\r\n");
    let chunks: Vec<&[u8]> = body.chunks(7).collect();
    let outcome = run(b"--B", &chunks);
    assert_eq!(outcome.fields_count, 1);
    assert_eq!(outcome.files_count, 0);
    assert!(outcome.files.is_empty());
}

#[test]
fn total_bytes_is_the_length_of_the_body() {
    let body = body_with_three_parts();
    for size in [1usize, 3, 64, 8192] {
        let chunks: Vec<&[u8]> = body.chunks(size).collect();
        let mut parser = StreamingParser::new(b"--frontier");
        for chunk in &chunks {
            parser.process_chunk(chunk);
        }
        parser.finalize();
        assert_eq!(parser.get_stats().total_bytes, body.len());
        assert_eq!(parser.get_stats().total_chunks, chunks.len());
    }
}

#[test]
fn file_content_is_what_stands_between_blank_line_and_line_break() {
    let payload: Vec<u8> = (0..=255u8).cycle().take(3000).collect();
    let mut body: Vec<u8> = Vec::new();
    body.extend_from_slice(b"--edge\r\n");
    body.extend_from_slice(b"Content-Disposition: form-data; name=\"f\"; filename=\"all.bin\"\r\n\r\n");
    let start = body.len();
    body.extend_from_slice(&payload);
    let end = body.len();
    body.extend_from_slice(b"\r\n--edge--\r\n");
    for size in [1usize, 2, 5, 6, 7, 8, 9, 64, 4096] {
        let chunks: Vec<&[u8]> = body.chunks(size).collect();
        let outcome = run(b"--edge", &chunks);
        assert_eq!(outcome.files.len(), 1);
        assert_eq!(outcome.files[0].1, body[start..end].to_vec(), "chunk size {}", size);
        assert!(outcome.files[0].2);
        assert_eq!(outcome.files_saved[0].size, payload.len());
    }
}

#[test]
fn actions_come_in_turn_for_every_chunk_size() {
    let body = body_with_three_parts();
    for size in 1..=body.len() {
        let mut parser = StreamingParser::new(b"--frontier");
        let mut open = false;
        for chunk in body.chunks(size) {
            for action in parser.process_chunk(chunk) {
                match action {
                    SinkAction::OpenFile { .. } => {
                        assert!(!open, "a file is opened while another is open");
                        open = true;
                    }
                    SinkAction::Write(bytes) => {
                        assert!(open, "bytes are written while no file is open");
                        assert!(!bytes.is_empty());
                    }
                    SinkAction::CloseFile => {
                        assert!(open, "a file is closed while none is open");
                        open = false;
                    }
                    SinkAction::RefuseFile { .. } => {
                        assert!(!open, "a file is refused while another is open");
                    }
                }
            }
            // A file is open exactly inside a file part.
            if open {
                assert_eq!(parser.state(), ParserState::ReadingData);
            }
        }
        for action in parser.finalize() {
            if let SinkAction::OpenFile { .. } = action {
                unreachable!("a file is opened at the end of input");
            }
        }
    }
}

#[test]
fn no_more_than_the_boundary_and_one_byte_is_held_back_inside_a_part() {
    let body = body_with_three_parts();
    let boundary = b"--frontier";
    for size in 1..=body.len() {
        let mut parser = StreamingParser::new(boundary);
        for chunk in body.chunks(size) {
            parser.process_chunk(chunk);
            if parser.state() == ParserState::ReadingData {
                assert!(parser.retained_len() <= boundary.len() + 1, "chunk size {}", size);
            }
        }
    }
}

#[test]
fn released_bytes_never_reach_into_a_delimiter_that_is_still_coming() {
    // After every chunk, what was written to the open file is a beginning of
    // what the file holds in the end.
    let body = body_with_three_parts();
    let whole = run(b"--frontier", &[&body]);
    for size in 1..=body.len() {
        let mut parser = StreamingParser::new(b"--frontier");
        let mut contents: Vec<Vec<u8>> = Vec::new();
        for chunk in body.chunks(size) {
            for action in parser.process_chunk(chunk) {
                match action {
                    SinkAction::OpenFile { .. } => contents.push(Vec::new()),
                    SinkAction::Write(bytes) => {
                        contents.last_mut().expect("no file").extend_from_slice(&bytes)
                    }
                    SinkAction::CloseFile => {}
                    SinkAction::RefuseFile { .. } => {}
                }
            }
            for (k, content) in contents.iter().enumerate() {
                assert!(
                    whole.files[k].1.starts_with(content),
                    "chunk size {}: file {} holds bytes that are not its own",
                    size,
                    k
                );
            }
        }
    }
}

#[test]
fn count_of_files_is_records_plus_the_open_file() {
    let body = body_with_three_parts();
    for size in 1..=body.len() {
        let mut parser = StreamingParser::new(b"--frontier");
        let mut open = 0usize;
        for chunk in body.chunks(size) {
            for action in parser.process_chunk(chunk) {
                match action {
                    SinkAction::OpenFile { .. } => open = 1,
                    SinkAction::CloseFile => open = 0,
                    _ => {}
                }
            }
            let stats = parser.get_stats();
            assert_eq!(stats.files_count, stats.files_saved.len() + open, "chunk size {}", size);
        }
        parser.finalize();
        let stats = parser.get_stats();
        assert_eq!(stats.files_count, stats.files_saved.len());
    }
}

#[test]
fn once_bytes_are_released_the_boundary_and_one_byte_are_held_back() {
    let body = body_with_three_parts();
    let boundary = b"--frontier";
    for size in 1..=body.len() {
        let mut parser = StreamingParser::new(boundary);
        let mut fed = 0usize;
        for chunk in body.chunks(size) {
            parser.process_chunk(chunk);
            fed += chunk.len();
            if parser.state() == ParserState::ReadingData && parser.released_len() > 0 {
                assert_eq!(parser.retained_len(), boundary.len() + 1, "chunk size {}", size);
                // Where the input so far ends with a beginning of the
                // boundary, that beginning and the two bytes before it are
                // among the retained bytes.
                for k in 1..boundary.len() {
                    if fed >= k && body[fed - k..fed] == boundary[..k] {
                        assert!(parser.retained_len() >= k + 2);
                    }
                }
            }
        }
    }
}

#[test]
fn second_file_of_a_body_is_what_stands_between_its_blank_line_and_line_break() {
    let body = body_with_three_parts();
    let boundary = b"--frontier";
    // Offsets of the third part, found without the parser.
    let find = |from: usize, pattern: &[u8]| -> usize {
        (from..=body.len() - pattern.len())
            .find(|&i| &body[i..i + pattern.len()] == pattern)
            .expect("pattern")
    };
    let first = find(0, boundary);
    let second = find(first + 1, boundary);
    // The false start `--frontie` inside the second part is no delimiter.
    let third = find(second + 1, boundary);
    let header_end = find(third, b"\r\n\r\n");
    let closing = find(header_end + 4, boundary);
    assert_eq!(&body[closing - 2..closing], b"\r\n");
    for size in 1..=body.len() {
        let chunks: Vec<&[u8]> = body.chunks(size).collect();
        let outcome = run(boundary, &chunks);
        assert_eq!(outcome.files[1].1, body[header_end + 4..closing - 2].to_vec());
        assert_eq!(outcome.files_saved[1].size, closing - 2 - (header_end + 4));
    }
}
