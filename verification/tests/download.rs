use tunshell::download::{
    artifact_request, content_length, Arch, ArtifactBody, Download, DownloadAction, DownloadError,
    DownloadEvent, HeadError, HeadStep, LineReader, ResponseHead, SizeMismatch, ARTIFACT_HOST,
    ARTIFACT_PORT,
};

fn head(bytes: &[u8]) -> (HeadStep, usize) {
    let mut head = ResponseHead::new();
    for (i, b) in bytes.iter().enumerate() {
        match head.feed(*b) {
            HeadStep::More => {}
            step => return (step, i + 1),
        }
    }
    (HeadStep::More, bytes.len())
}

fn plain_content_length(header: &str, known: u64) -> u64 {
    let mut content_length = known;
    if header.to_lowercase().starts_with("content-length:") {
        content_length = header.split_once(':').unwrap().1.trim().parse::<u64>().unwrap_or(0);
    }
    content_length
}

#[test]
fn artifact_is_asked_for_by_processor() {
    assert_eq!(
        artifact_request(Arch::X86_64),
        "GET /bash-linux-x86_64-stripped HTTP/1.1\nHost: rpty-artifacts.tunshell.com\n\n"
    );
    assert_eq!(
        artifact_request(Arch::Aarch64),
        "GET /bash-linux-aarch64-stripped HTTP/1.1\nHost: rpty-artifacts.tunshell.com\n\n"
    );
    assert_eq!(ARTIFACT_HOST, "rpty-artifacts.tunshell.com");
    assert_eq!(ARTIFACT_PORT, 443);
}

#[test]
fn lines_end_at_line_feeds_and_drop_carriage_returns() {
    let mut reader = LineReader::new();
    for b in b"a\rb\r\r" {
        assert!(!reader.push(*b));
    }
    assert!(reader.push(b'\n'));
    assert_eq!(reader.read_line(), Some("ab".to_string()));
    assert!(reader.push(b'\n'));
    assert_eq!(reader.read_line(), Some(String::new()));
    reader.push(0xff);
    assert_eq!(reader.read_line(), None);
    assert_eq!(reader.read_line(), Some(String::new()));
}

#[test]
fn headers_give_the_length() {
    let headers = [
        "", "content-length:", "Content-Length: 12", "CONTENT-LENGTH:7", "content-length: \u{3000}5\u{a0}",
        "content-length: +9", "content-length: -9", "content-length: 1 2", "content-length: 18446744073709551616",
        "content-length : 5", " content-length: 5", "content-length:: 5", "content-lengt\u{212a}: 5",
        "x-content-length: 5", "content-length: 0", "content-lengthy: 5", "CONTENT-LENGT\u{130}: 5",
    ];
    for header in headers {
        assert_eq!(content_length(header, 3), plain_content_length(header, 3), "{}", header);
    }
    assert_eq!(content_length("Content-Length: 1024", 0), 1024);
    assert_eq!(content_length("Content-Length: many", 4), 0);
}

#[test]
fn names_of_headers_have_no_other_case_than_ascii() {
    let name: Vec<char> = "content-length:".chars().collect();
    for c in '\u{0}'..=char::MAX {
        if c > '\u{7f}' && c.to_lowercase().eq([c]) {
            continue;
        }
        for i in 0..name.len() {
            let mut changed = name.clone();
            changed[i] = c;
            let header: String = changed.iter().collect::<String>() + "5";
            assert_eq!(content_length(&header, 3), plain_content_length(&header, 3), "{}", header);
        }
    }
}

#[test]
fn head_is_read_to_its_empty_line() {
    let answer = b"HTTP/1.1 200 OK\r\nServer: x\r\nContent-Length: 5\r\n\r\nhello";
    assert_eq!(head(answer), (HeadStep::Body(5), answer.len() - 5));
    assert_eq!(head(b"HTTP/1.1 200 OK\ncontent-length: 5\ncontent-length: 6\n\n").0, HeadStep::Body(6));
    assert_eq!(head(b"HTTP/1.1 200 OK\ncontent-length: 5\n").0, HeadStep::More);
    assert_eq!(head(b"").0, HeadStep::More);
}

#[test]
fn head_faults_are_told_apart() {
    assert_eq!(head(b"HTTP/1.1 404 Not Found\n").0, HeadStep::Rejected(HeadError::UnexpectedStatus));
    assert_eq!(head(b"\n").0, HeadStep::Rejected(HeadError::UnexpectedStatus));
    assert_eq!(head(b"\xff 200 OK\n").0, HeadStep::Rejected(HeadError::NotUtf8));
    assert_eq!(head(b"HTTP/1.1 200 OK\n\xff\n").0, HeadStep::Rejected(HeadError::NotUtf8));
    assert_eq!(head(b"HTTP/1.1 200 OK\n\n").0, HeadStep::Rejected(HeadError::NoContentLength));
    assert_eq!(
        head(b"HTTP/1.1 200 OK\ncontent-length: 5\ncontent-length: x\n\n").0,
        HeadStep::Rejected(HeadError::NoContentLength)
    );
    assert_eq!(HeadError::NotUtf8.message(), "failed to parse as utf8");
    assert_eq!(HeadError::UnexpectedStatus.message(), "unexpected response from server");
    assert_eq!(HeadError::NoContentLength.message(), "failed to find content-length from response");
}

#[test]
fn body_must_be_as_long_as_announced() {
    let mut body = ArtifactBody::new(5);
    assert!(body.wants_more());
    assert!(body.receive(b"he"));
    assert!(!body.receive(b"llo"));
    assert_eq!(body.finish(), Ok(b"hello".to_vec()));

    let mut short = ArtifactBody::new(5);
    assert!(short.receive(b"he"));
    assert!(!short.receive(b""));
    assert_eq!(short.finish(), Err(SizeMismatch { downloaded: 2, content_length: 5 }));

    let mut long = ArtifactBody::new(5);
    assert!(!long.receive(b"hello!"));
    match long.finish() {
        Ok(_) => panic!(),
        Err(e) => assert_eq!(e.message(), "download size 6 was not the same as content length 5"),
    }
}

fn run(head: &[u8], chunks: &[&[u8]]) -> (Download, DownloadAction) {
    let mut download = Download::new();
    let mut action = DownloadAction::ReadByte;
    for b in head {
        action = download.advance(DownloadEvent::Byte(*b));
    }
    for c in chunks {
        assert!(matches!(action, DownloadAction::ReadChunk));
        action = download.advance(DownloadEvent::Chunk(c.to_vec()));
    }
    (download, action)
}

const HEAD: &[u8] = b"HTTP/1.1 200 OK\r\nContent-Length: 5\r\n\r\n";

#[test]
fn download_is_saved_beside_the_program() {
    let (mut download, action) = run(HEAD, &[b"h", b"el", b"lo"]);
    assert!(matches!(action, DownloadAction::FindExeDir));
    assert_eq!(download.body(), None);
    match download.advance(DownloadEvent::ExeDir(Some("/opt/tunshell".to_string()))) {
        DownloadAction::Save(path) => assert_eq!(path, "/opt/tunshell/bash-rpty"),
        other => panic!("{:?}", other),
    }
    assert_eq!(download.body(), Some(&b"hello".to_vec()));
    match download.advance(DownloadEvent::Saved(true)) {
        DownloadAction::Ready(path) => assert_eq!(path, "/opt/tunshell/bash-rpty"),
        other => panic!("{:?}", other),
    }
}

#[test]
fn download_that_cannot_be_saved_stays_in_memory() {
    let (mut download, _) = run(HEAD, &[b"hello"]);
    match download.advance(DownloadEvent::ExeDir(None)) {
        DownloadAction::KeepInMemory(body) => assert_eq!(body, b"hello"),
        other => panic!("{:?}", other),
    }
    let (mut download, _) = run(HEAD, &[b"hello"]);
    download.advance(DownloadEvent::ExeDir(Some("/".to_string())));
    match download.advance(DownloadEvent::Saved(false)) {
        DownloadAction::KeepInMemory(body) => assert_eq!(body, b"hello"),
        other => panic!("{:?}", other),
    }
}

#[test]
fn download_that_goes_wrong_ends() {
    let (_, action) = run(b"HTTP/1.1 500 No\n", &[]);
    match action {
        DownloadAction::Fail(e) => assert_eq!(e, DownloadError::Head(HeadError::UnexpectedStatus)),
        other => panic!("{:?}", other),
    }
    let (_, action) = run(HEAD, &[b"hel", b""]);
    match action {
        DownloadAction::Fail(e) => assert_eq!(
            e,
            DownloadError::Size(SizeMismatch { downloaded: 3, content_length: 5 })
        ),
        other => panic!("{:?}", other),
    }
}
