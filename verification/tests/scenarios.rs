use multipart_stream::headers::{parse_part_headers, PartKind};
use multipart_stream::model::ParserState;
use multipart_stream::parser::{SinkAction, StreamingParser};

/// Files as the sink holds them after carrying out `actions` in order:
/// path, content, and whether the file was closed.
fn stored_files(actions: &[SinkAction]) -> Vec<(Vec<u8>, Vec<u8>, bool)> {
    let mut files: Vec<(Vec<u8>, Vec<u8>, bool)> = Vec::new();
    for action in actions {
        match action {
            SinkAction::OpenFile { filename: _, path } => {
                if let Some(last) = files.last() {
                    assert!(last.2, "a file is opened while another is open");
                }
                files.push((path.clone(), Vec::new(), false));
            }
            SinkAction::Write(bytes) => {
                let last = files.last_mut().expect("write without an open file");
                assert!(!last.2, "write to a closed file");
                assert!(!bytes.is_empty(), "empty write");
                last.1.extend_from_slice(bytes);
            }
            SinkAction::CloseFile => {
                let last = files.last_mut().expect("close without an open file");
                assert!(!last.2, "file closed twice");
                last.2 = true;
            }
            SinkAction::RefuseFile { .. } => {}
        }
    }
    files
}

fn sample_body() -> Vec<u8> {
    let mut body: Vec<u8> = Vec::new();
    body.extend_from_slice(b"----X\r\n");
    body.extend_from_slice(b"Content-Disposition: form-data; name=\"name\"\r\n\r\n");
    body.extend_from_slice(b"Alice\r\n");
    body.extend_from_slice(b"----X\r\n");
    body.extend_from_slice(
        b"Content-Disposition: form-data; name=\"upload\"; filename=\"a.txt\"\r\n",
    );
    body.extend_from_slice(b"Content-Type: text/plain\r\n\r\n");
    body.extend_from_slice(b"hello\r\n");
    body.extend_from_slice(b"----X--\r\n");
    body
}

#[test]
fn one_byte_chunks_store_the_file() {
    let body = sample_body();
    let mut parser = StreamingParser::new(b"----X");
    let mut actions: Vec<SinkAction> = Vec::new();
    for byte in &body {
        actions.extend(parser.process_chunk(&[*byte]));
    }
    actions.extend(parser.finalize());

    let stats = parser.get_stats();
    assert_eq!(stats.files_count, 1);
    assert_eq!(stats.fields_count, 1);
    assert_eq!(stats.total_chunks, body.len());
    assert_eq!(stats.total_bytes, body.len());
    assert_eq!(stats.files_saved.len(), 1);
    assert_eq!(stats.files_saved[0].filename, b"a.txt".to_vec());
    assert_eq!(stats.files_saved[0].field_name, b"upload".to_vec());
    assert_eq!(stats.files_saved[0].size, 5);
    assert_eq!(stats.files_saved[0].path, b"./uploads/a.txt".to_vec());

    let files = stored_files(&actions);
    assert_eq!(files.len(), 1);
    assert_eq!(files[0].0, b"./uploads/a.txt".to_vec());
    assert_eq!(files[0].1, b"hello".to_vec());
    assert!(files[0].2);
    assert_eq!(parser.state(), ParserState::ReadingHeaders);
}

#[test]
fn one_byte_chunks_with_a_declared_token() {
    // The token `----X` makes the delimiter `------X`.
    let text = sample_body();
    let mut body: Vec<u8> = Vec::new();
    let mut k = 0;
    while k < text.len() {
        if text[k..].starts_with(b"----X") {
            body.extend_from_slice(b"------X");
            k += 5;
        } else {
            body.push(text[k]);
            k += 1;
        }
    }
    let mut parser = StreamingParser::new(b"------X");
    let mut actions: Vec<SinkAction> = Vec::new();
    for byte in &body {
        actions.extend(parser.process_chunk(&[*byte]));
    }
    actions.extend(parser.finalize());
    let stats = parser.get_stats();
    assert_eq!(stats.files_count, 1);
    assert_eq!(stats.files_saved[0].filename, b"a.txt".to_vec());
    let files = stored_files(&actions);
    assert_eq!(files.len(), 1);
    assert_eq!(files[0].1, b"hello".to_vec());
}

#[test]
fn whole_body_in_one_chunk() {
    let body = sample_body();
    let mut parser = StreamingParser::new(b"----X");
    let mut actions = parser.process_chunk(&body);
    actions.extend(parser.finalize());
    assert_eq!(
        actions,
        vec![
            SinkAction::OpenFile {
                filename: b"a.txt".to_vec(),
                path: b"./uploads/a.txt".to_vec(),
            },
            SinkAction::Write(b"hello".to_vec()),
            SinkAction::CloseFile,
        ]
    );
    let stats = parser.get_stats();
    assert_eq!(stats.total_chunks, 1);
    assert_eq!(stats.total_bytes, body.len());
    assert_eq!(stats.fields_count, 1);
    assert_eq!(stats.files_count, 1);
    assert_eq!(stats.files_saved.len(), 1);
    assert_eq!(stats.files_saved[0].size, 5);
}

#[test]
fn disposition_with_filename_is_a_file() {
    let block = b"Content-Disposition: form-data; name=\"f\"; filename=\"x.bin\"\r\nContent-Type: application/octet-stream";
    let part = parse_part_headers(block);
    assert_eq!(part.field_name, b"f".to_vec());
    assert_eq!(
        part.kind,
        PartKind::File {
            filename: b"x.bin".to_vec(),
            content_type: b"application/octet-stream".to_vec(),
        }
    );
}

#[test]
fn header_lines_through_the_parser_classify_the_part() {
    let mut body: Vec<u8> = Vec::new();
    body.extend_from_slice(b"--B\r\n");
    body.extend_from_slice(b"Content-Disposition: form-data; name=\"f\"; filename=\"x.bin\"\r\n");
    body.extend_from_slice(b"Content-Type: application/octet-stream\r\n\r\n");
    body.extend_from_slice(b"\x00\x01\x02\r\n--B--\r\n");
    let mut parser = StreamingParser::new(b"--B");
    let mut actions = parser.process_chunk(&body);
    actions.extend(parser.finalize());
    let stats = parser.get_stats();
    assert_eq!(stats.files_count, 1);
    assert_eq!(stats.fields_count, 0);
    assert_eq!(stats.files_saved[0].field_name, b"f".to_vec());
    assert_eq!(stats.files_saved[0].filename, b"x.bin".to_vec());
    assert_eq!(stats.files_saved[0].size, 3);
    let files = stored_files(&actions);
    assert_eq!(files[0].1, vec![0u8, 1, 2]);
}

#[test]
fn empty_file_is_closed_with_a_record() {
    let mut body: Vec<u8> = Vec::new();
    body.extend_from_slice(b"--B\r\n");
    body.extend_from_slice(b"Content-Disposition: form-data; name=\"f\"; filename=\"e.bin\"\r\n\r\n");
    body.extend_from_slice(b"\r\n--B--\r\n");
    for size in [1usize, 2, 3, 5, 8, 1000] {
        let mut parser = StreamingParser::new(b"--B");
        let mut actions: Vec<SinkAction> = Vec::new();
        for chunk in body.chunks(size) {
            actions.extend(parser.process_chunk(chunk));
        }
        actions.extend(parser.finalize());
        assert_eq!(
            actions,
            vec![
                SinkAction::OpenFile {
                    filename: b"e.bin".to_vec(),
                    path: b"./uploads/e.bin".to_vec(),
                },
                SinkAction::CloseFile,
            ],
            "chunk size {}",
            size
        );
        let stats = parser.get_stats();
        assert_eq!(stats.files_count, 1);
        assert_eq!(stats.files_saved.len(), 1);
        assert_eq!(stats.files_saved[0].field_name, b"f".to_vec());
        assert_eq!(stats.files_saved[0].filename, b"e.bin".to_vec());
        assert_eq!(stats.files_saved[0].size, 0);
        assert_eq!(stats.files_saved[0].path, b"./uploads/e.bin".to_vec());
    }
}

#[test]
fn empty_file_directly_before_the_delimiter() {
    // The blank line is followed by the delimiter at once, with no line
    // break of its own before it.
    let mut body: Vec<u8> = Vec::new();
    body.extend_from_slice(b"--B\r\n");
    body.extend_from_slice(b"Content-Disposition: form-data; name=\"f\"; filename=\"e.bin\"\r\n\r\n");
    body.extend_from_slice(b"--B--\r\n");
    for size in [1usize, 4, 1000] {
        let mut parser = StreamingParser::new(b"--B");
        let mut actions: Vec<SinkAction> = Vec::new();
        for chunk in body.chunks(size) {
            actions.extend(parser.process_chunk(chunk));
        }
        actions.extend(parser.finalize());
        let files = stored_files(&actions);
        assert_eq!(files.len(), 1);
        assert!(files[0].1.is_empty());
        assert!(files[0].2);
        assert_eq!(parser.get_stats().files_saved[0].size, 0);
    }
}
