//! The download of the remote shell's bash: what is asked for, how the answer is read line by
//! line, when the body is whole, and where it is kept.
use vstd::prelude::*;
use vstd::string::*;
use vstd::utf8::*;

use crate::text::{
    chars_of, contains, decimal, decode, has_word, is_space, join, law_number_is_read,
    law_only_numbers_are_read, law_text_read_back, law_trimmed, law_word_is_found, number,
    parse_number, push_decimal, trim, trimmed, utf8_text,
};

verus! {

/// The host that serves the artifact.
pub const ARTIFACT_HOST: &'static str = "rpty-artifacts.tunshell.com";

/// The port that serves the artifact.
pub const ARTIFACT_PORT: u16 = 443;

/// The processors that an artifact exists for.
#[derive(Clone, Copy, Debug, PartialEq, Eq, Structural)]
pub enum Arch {
    X86_64,
    Aarch64,
}

impl Arch {
    /// The processor's name in the artifact's path.
    pub open spec fn text(self) -> Seq<char> {
        match self {
            Arch::X86_64 => "x86_64"@,
            Arch::Aarch64 => "aarch64"@,
        }
    }

    /// The processor's name in the artifact's path.
    pub fn name(self) -> (s: &'static str)
        ensures
            s@ == self.text(),
    {
        match self {
            Arch::X86_64 => "x86_64",
            Arch::Aarch64 => "aarch64",
        }
    }
}

/// The request for the artifact of `arch`.
pub open spec fn request_text(arch: Arch) -> Seq<char> {
    "GET /bash-linux-"@ + arch.text() + "-stripped HTTP/1.1\nHost: "@
        + "rpty-artifacts.tunshell.com"@ + "\n\n"@
}

/// The request for the artifact of `arch`.
pub fn artifact_request(arch: Arch) -> (s: String)
    ensures
        s@ == request_text(arch),
{
    let mut s = String::new();
    s.append("GET /bash-linux-");
    s.append(arch.name());
    s.append("-stripped HTTP/1.1\nHost: ");
    s.append(ARTIFACT_HOST);
    s.append("\n\n");
    assert(s@ == request_text(arch));
    s
}

/// The request asks the host of the artifacts for the artifact of the processor, in these words.
pub proof fn law_request_names_the_artifact(arch: Arch)
    ensures
        request_text(arch) == "GET /bash-linux-"@ + (match arch {
            Arch::X86_64 => "x86_64"@,
            Arch::Aarch64 => "aarch64"@,
        }) + "-stripped HTTP/1.1\nHost: "@ + "rpty-artifacts.tunshell.com"@ + "\n\n"@,
{
}

/// A line under way.
pub struct LineReader {
    bytes: Vec<u8>,
}

impl View for LineReader {
    type V = Seq<u8>;

    closed spec fn view(&self) -> Seq<u8> {
        self.bytes@
    }
}

/// What a further byte makes of a line under way: line feeds end it and carriage returns do not
/// count.
pub open spec fn extended(line: Seq<u8>, byte: u8) -> Seq<u8> {
    if byte == 13 || byte == 10 {
        line
    } else {
        line.push(byte)
    }
}

impl LineReader {
    /// An empty line.
    pub fn new() -> (r: Self)
        ensures
            r@ == Seq::<u8>::empty(),
    {
        LineReader { bytes: Vec::new() }
    }

    /// Takes the next byte and says whether it ended the line.
    pub fn push(&mut self, byte: u8) -> (done: bool)
        ensures
            done == (byte == 10),
            final(self)@ == extended(old(self)@, byte),
            byte == 10 || byte == 13 ==> final(self)@ == old(self)@,
            byte != 10 && byte != 13 ==> final(self)@ == old(self)@.push(byte),
    {
        if byte == 13 {
            return false;
        }
        if byte == 10 {
            return true;
        }
        self.bytes.push(byte);
        false
    }

    /// Hands the line out, if it is UTF-8, and starts the next one.
    pub fn read_line(&mut self) -> (r: Option<String>)
        ensures
            final(self)@ == Seq::<u8>::empty(),
            r is Some <==> utf8_text(old(self)@) is Some,
            r matches Some(s) ==> Some(s@) == utf8_text(old(self)@),
    {
        let mut bytes: Vec<u8> = Vec::new();
        std::mem::swap(&mut bytes, &mut self.bytes);
        decode(bytes)
    }
}

/// `c` in lower case, where it is an ASCII letter.
pub open spec fn lower(c: char) -> char {
    if 'A' <= c <= 'Z' {
        (c as int + 32) as char
    } else {
        c
    }
}

/// A header that gives the length of the body, its name in either case.
///
/// Outside ASCII only U+0130 and U+212A have an ASCII letter in their lower case, and those are
/// `i` and `k`, which the name does not hold.
pub open spec fn is_length_header(text: Seq<char>) -> bool {
    let name = "content-length:"@;
    text.len() >= name.len() && forall|i: int|
        0 <= i < name.len() ==> lower(#[trigger] text[i]) == name[i]
}

/// The length that is known after the header `text`, where `known` was known before: the last
/// header that gives one counts, and one that gives no number counts as nought.
pub open spec fn length_after(text: Seq<char>, known: u64) -> u64 {
    if is_length_header(text) {
        match number(trimmed(text.skip(15)), u64::MAX as int) {
            Some(n) => n as u64,
            None => 0,
        }
    } else {
        known
    }
}

/// `c` in lower case, where it is an ASCII letter.
fn to_lower(c: char) -> (r: char)
    ensures
        r == lower(c),
{
    if 'A' <= c && c <= 'Z' {
        (c as u8 + 32) as char
    } else {
        c
    }
}

/// Whether a header gives the length of the body.
fn length_header(chars: &Vec<char>) -> (b: bool)
    ensures
        b == is_length_header(chars@),
        b ==> chars@.len() >= 15,
{
    proof {
        reveal_strlit("content-length:");
    }
    let name = chars_of("content-length:");
    if chars.len() < name.len() {
        return false;
    }
    let mut i: usize = 0;
    while i < name.len()
        invariant
            i <= name@.len() <= chars@.len(),
            name@ == "content-length:"@,
            forall|j: int| 0 <= j < i ==> lower(#[trigger] chars@[j]) == name@[j],
        decreases name@.len() - i,
    {
        if to_lower(chars[i]) != name[i] {
            assert(lower(chars@[i as int]) != "content-length:"@[i as int]);
            return false;
        }
        i = i + 1;
    }
    true
}

/// The length that is known after the header `line`, where `known` was known before.
pub fn content_length(line: &str, known: u64) -> (n: u64)
    ensures
        n == length_after(line@, known),
{
    let chars = chars_of(line);
    if length_header(&chars) {
        let (lo, hi) = trim(&chars, 15);
        match parse_number(&chars, lo, hi, u64::MAX) {
            Ok(n) => n,
            Err(_) => 0,
        }
    } else {
        known
    }
}

/// The name of the length header is known in every mix of cases, and no other name is.
pub proof fn law_length_header_in_any_case(text: Seq<char>)
    ensures
        is_length_header(text) <==> {
            &&& text.len() >= 15
            &&& text[0] == 'c' || text[0] == 'C'
            &&& text[1] == 'o' || text[1] == 'O'
            &&& text[2] == 'n' || text[2] == 'N'
            &&& text[3] == 't' || text[3] == 'T'
            &&& text[4] == 'e' || text[4] == 'E'
            &&& text[5] == 'n' || text[5] == 'N'
            &&& text[6] == 't' || text[6] == 'T'
            &&& text[7] == '-'
            &&& text[8] == 'l' || text[8] == 'L'
            &&& text[9] == 'e' || text[9] == 'E'
            &&& text[10] == 'n' || text[10] == 'N'
            &&& text[11] == 'g' || text[11] == 'G'
            &&& text[12] == 't' || text[12] == 'T'
            &&& text[13] == 'h' || text[13] == 'H'
            &&& text[14] == ':'
        },
{
    reveal_strlit("content-length:");
    let name = "content-length:"@;
    if is_length_header(text) {
        assert forall|i: int| 0 <= i < 15 implies lower(#[trigger] text[i]) == name[i] by {}
        assert(lower(text[0]) == 'c' && lower(text[1]) == 'o' && lower(text[2]) == 'n' && lower(
            text[3],
        ) == 't' && lower(text[4]) == 'e');
        assert(lower(text[5]) == 'n' && lower(text[6]) == 't' && lower(text[7]) == '-' && lower(
            text[8],
        ) == 'l' && lower(text[9]) == 'e');
        assert(lower(text[10]) == 'n' && lower(text[11]) == 'g' && lower(text[12]) == 't' && lower(
            text[13],
        ) == 'h' && lower(text[14]) == ':');
    }
}

/// The length that a header gives is the number in it, whatever its size, whatever was known
/// before, and whatever white space stands around it.
#[verifier::spinoff_prover]
pub proof fn law_length_is_read(
    name: Seq<char>,
    before: Seq<char>,
    n: u64,
    after: Seq<char>,
    known: u64,
)
    requires
        name.len() == 15,
        is_length_header(name),
        forall|i: int| 0 <= i < before.len() ==> is_space(#[trigger] before[i]),
        forall|i: int| 0 <= i < after.len() ==> is_space(#[trigger] after[i]),
    ensures
        length_after(name + before + decimal(n as nat) + after, known) == n,
{
    reveal_strlit("content-length:");
    let digits = decimal(n as nat);
    let text = name + before + digits + after;
    assert forall|i: int| 0 <= i < 15 implies lower(#[trigger] text[i]) == "content-length:"@[i] by {
        assert(text[i] == name[i]);
    }
    assert(text.skip(15) =~= before + digits + after);
    law_number_is_read(false, Seq::empty(), n as nat, u64::MAX as nat);
    assert(Seq::<char>::empty() + Seq::<char>::empty() + digits =~= digits);
    law_only_numbers_are_read(digits, u64::MAX as nat);
    crate::text::lemma_decimal(n as nat);
    assert(crate::text::is_digit(digits[0]));
    assert(crate::text::is_digit(digits[digits.len() - 1]));
    law_trimmed(before, digits, after);
}

/// The header as it is mostly written gives its number.
pub proof fn law_plain_length_header(n: u64, known: u64)
    ensures
        length_after("content-length: "@ + decimal(n as nat), known) == n,
        length_after("Content-Length: "@ + decimal(n as nat), known) == n,
{
    reveal_strlit("content-length: ");
    reveal_strlit("Content-Length: ");
    let small = "content-length: "@;
    let large = "Content-Length: "@;
    let digits = decimal(n as nat);
    let none = Seq::<char>::empty();
    law_length_header_in_any_case(small.take(15));
    law_length_header_in_any_case(large.take(15));
    law_length_is_read(small.take(15), seq![' '], n, none, known);
    law_length_is_read(large.take(15), seq![' '], n, none, known);
    assert(small.take(15) + seq![' '] + digits + none =~= small + digits);
    assert(large.take(15) + seq![' '] + digits + none =~= large + digits);
}

/// A header of another name changes nothing. What a length header gives does not depend on what
/// was known: it is the number that follows the name, or nought where there is none.
pub proof fn law_length_from_headers_only(text: Seq<char>, known: u64, other: u64)
    ensures
        !is_length_header(text) ==> length_after(text, known) == known,
        is_length_header(text) ==> length_after(text, known) == length_after(text, other),
        is_length_header(text) ==> match number(trimmed(text.skip(15)), 0xffff_ffff_ffff_ffff) {
            Some(n) => length_after(text, known) == n,
            None => length_after(text, known) == 0,
        },
{
    if is_length_header(text) {
        law_only_numbers_are_read(trimmed(text.skip(15)), u64::MAX as nat);
    }
}

/// Which line of the answer is under way.
#[derive(Clone, Copy, Debug, PartialEq, Eq, Structural)]
pub enum Stage {
    Status,
    Headers,
}

/// Why the head of an answer is refused.
#[derive(Clone, Copy, Debug, PartialEq, Eq, Structural)]
pub enum HeadError {
    /// A line is not UTF-8.
    NotUtf8,
    /// The first line does not say that all is well.
    UnexpectedStatus,
    /// No header gave a length.
    NoContentLength,
}

impl HeadError {
    /// What is told of the refusal.
    pub open spec fn text(self) -> Seq<char> {
        match self {
            HeadError::NotUtf8 => "failed to parse as utf8"@,
            HeadError::UnexpectedStatus => "unexpected response from server"@,
            HeadError::NoContentLength => "failed to find content-length from response"@,
        }
    }

    /// What is told of the refusal.
    pub fn message(self) -> (s: &'static str)
        ensures
            s@ == self.text(),
    {
        match self {
            HeadError::NotUtf8 => "failed to parse as utf8",
            HeadError::UnexpectedStatus => "unexpected response from server",
            HeadError::NoContentLength => "failed to find content-length from response",
        }
    }
}

/// How far the head of an answer has come.
#[derive(Clone, Copy, Debug, PartialEq, Eq, Structural)]
pub enum HeadStep {
    /// Further bytes are needed.
    More,
    /// The answer is refused.
    Rejected(HeadError),
    /// The head is over, and a body of this length follows.
    Body(u64),
}

/// The head of an answer as far as it was read.
pub struct HeadState {
    pub stage: Stage,
    pub line: Seq<u8>,
    pub known: u64,
}

/// The state before the first byte.
pub open spec fn head_start() -> HeadState {
    HeadState { stage: Stage::Status, line: Seq::empty(), known: 0 }
}

/// What a whole line does to the head.
pub open spec fn on_line(state: HeadState, line: Seq<u8>) -> (HeadState, HeadStep) {
    let same = HeadState { line: Seq::empty(), ..state };
    match utf8_text(line) {
        None => (same, HeadStep::Rejected(HeadError::NotUtf8)),
        Some(text) => match state.stage {
            Stage::Status => if has_word(text, "200 OK"@) {
                (HeadState { stage: Stage::Headers, ..same }, HeadStep::More)
            } else {
                (same, HeadStep::Rejected(HeadError::UnexpectedStatus))
            },
            Stage::Headers => {
                let known = length_after(text, state.known);
                let next = HeadState { known, ..same };
                if text.len() > 0 {
                    (next, HeadStep::More)
                } else if known == 0 {
                    (next, HeadStep::Rejected(HeadError::NoContentLength))
                } else {
                    (next, HeadStep::Body(known))
                }
            },
        },
    }
}

/// What a byte does to the head.
pub open spec fn on_byte(state: HeadState, byte: u8) -> (HeadState, HeadStep) {
    let line = extended(state.line, byte);
    if byte == 10 {
        on_line(state, line)
    } else {
        (HeadState { line, ..state }, HeadStep::More)
    }
}

/// Reads the head of an answer, byte by byte.
pub struct ResponseHead {
    stage: Stage,
    reader: LineReader,
    known: u64,
}

impl View for ResponseHead {
    type V = HeadState;

    closed spec fn view(&self) -> HeadState {
        HeadState { stage: self.stage, line: self.reader@, known: self.known }
    }
}

impl ResponseHead {
    /// Before the first byte.
    pub fn new() -> (r: Self)
        ensures
            r@ == head_start(),
    {
        ResponseHead { stage: Stage::Status, reader: LineReader::new(), known: 0 }
    }

    /// Takes the next byte.
    pub fn feed(&mut self, byte: u8) -> (step: HeadStep)
        ensures
            (final(self)@, step) == on_byte(old(self)@, byte),
    {
        if !self.reader.push(byte) {
            return HeadStep::More;
        }
        match self.reader.read_line() {
            None => HeadStep::Rejected(HeadError::NotUtf8),
            Some(line) => match self.stage {
                Stage::Status => {
                    if contains(line.as_str(), "200 OK") {
                        self.stage = Stage::Headers;
                        HeadStep::More
                    } else {
                        HeadStep::Rejected(HeadError::UnexpectedStatus)
                    }
                },
                Stage::Headers => {
                    self.known = content_length(line.as_str(), self.known);
                    if !line.as_str().is_empty() {
                        HeadStep::More
                    } else if self.known == 0 {
                        HeadStep::Rejected(HeadError::NoContentLength)
                    } else {
                        HeadStep::Body(self.known)
                    }
                },
            },
        }
    }
}

/// The bytes of a line without its carriage returns.
pub open spec fn line_bytes(bytes: Seq<u8>) -> Seq<u8> {
    bytes.filter(|b: u8| b != 13)
}

/// The place of the first line feed, or the end.
pub open spec fn line_end(stream: Seq<u8>) -> nat
    decreases stream.len(),
{
    if stream.len() == 0 || stream.first() == 10 {
        0
    } else {
        1 + line_end(stream.drop_first())
    }
}

/// What the bytes of an answer say of its head, and how many of them belong to it.
pub enum Head {
    /// The head does not end in them.
    Unfinished,
    Rejected(HeadError),
    Whole { content_length: u64, size: int },
}

impl Head {
    /// The same, where `n` bytes of the head go before.
    pub open spec fn after(self, n: int) -> Head {
        match self {
            Head::Whole { content_length, size } => Head::Whole { content_length, size: size + n },
            other => other,
        }
    }
}

/// What `stream` says of the headers, where `known` is the length that was known before.
pub open spec fn headers_of(stream: Seq<u8>, known: u64) -> Head
    decreases stream.len(),
{
    let end = line_end(stream) as int;
    if end >= stream.len() {
        Head::Unfinished
    } else {
        match utf8_text(line_bytes(stream.take(end))) {
            None => Head::Rejected(HeadError::NotUtf8),
            Some(text) => {
                let now = length_after(text, known);
                if text.len() > 0 {
                    headers_of(stream.skip(end + 1), now).after(end + 1)
                } else if now == 0 {
                    Head::Rejected(HeadError::NoContentLength)
                } else {
                    Head::Whole { content_length: now, size: end + 1 }
                }
            },
        }
    }
}

/// What `stream` says of the head of an answer: a status line, then headers up to an empty one.
pub open spec fn head_of(stream: Seq<u8>) -> Head {
    let end = line_end(stream) as int;
    if end >= stream.len() {
        Head::Unfinished
    } else {
        match utf8_text(line_bytes(stream.take(end))) {
            None => Head::Rejected(HeadError::NotUtf8),
            Some(text) => if has_word(text, "200 OK"@) {
                headers_of(stream.skip(end + 1), 0).after(end + 1)
            } else {
                Head::Rejected(HeadError::UnexpectedStatus)
            },
        }
    }
}

/// What comes of feeding `stream` to a head in `state`, byte by byte, until it wants no more.
pub open spec fn fed(state: HeadState, stream: Seq<u8>) -> Head
    decreases stream.len(),
{
    if stream.len() == 0 {
        Head::Unfinished
    } else {
        let (next, step) = on_byte(state, stream.first());
        match step {
            HeadStep::More => fed(next, stream.drop_first()).after(1),
            HeadStep::Rejected(e) => Head::Rejected(e),
            HeadStep::Body(n) => Head::Whole { content_length: n, size: 1 },
        }
    }
}

proof fn lemma_line_end(stream: Seq<u8>)
    ensures
        line_end(stream) <= stream.len(),
        forall|i: int| 0 <= i < line_end(stream) ==> stream[i] != 10,
        line_end(stream) < stream.len() ==> stream[line_end(stream) as int] == 10,
    decreases stream.len(),
{
    if stream.len() > 0 && stream.first() != 10 {
        lemma_line_end(stream.drop_first());
        assert forall|i: int| 0 <= i < line_end(stream) implies stream[i] != 10 by {
            if i > 0 {
                assert(stream[i] == stream.drop_first()[i - 1]);
            }
        }
    }
}

/// What feeding does up to the end of the line of which `k` bytes are in.
proof fn lemma_fed_line(state: HeadState, stream: Seq<u8>, k: int)
    requires
        0 <= k <= line_end(stream),
        state.line == line_bytes(stream.take(k)),
    ensures
        ({
            let end = line_end(stream) as int;
            let (next, step) = on_line(state, line_bytes(stream.take(end)));
            fed(state, stream.skip(k)) == if end >= stream.len() {
                Head::Unfinished
            } else {
                match step {
                    HeadStep::More => fed(next, stream.skip(end + 1)).after(end + 1 - k),
                    HeadStep::Rejected(e) => Head::Rejected(e),
                    HeadStep::Body(n) => Head::Whole { content_length: n, size: end + 1 - k },
                }
            }
        }),
    decreases line_end(stream) - k,
{
    lemma_line_end(stream);
    let end = line_end(stream) as int;
    let rest = stream.skip(k);
    if k < end {
        assert(rest.first() == stream[k]);
        assert(rest.drop_first() == stream.skip(k + 1));
        let longer = stream.take(k + 1);
        assert(longer.drop_last() == stream.take(k));
        assert(line_bytes(longer) == extended(state.line, stream[k])) by {
            reveal(Seq::filter);
        }
        let (next, step) = on_byte(state, stream[k]);
        lemma_fed_line(next, stream, k + 1);
    } else if end < stream.len() {
        assert(rest.first() == stream[k]);
        assert(rest.drop_first() == stream.skip(k + 1));
    }
}

/// What feeding does to the headers.
proof fn lemma_fed_headers(state: HeadState, stream: Seq<u8>)
    requires
        state.stage is Headers,
        state.line.len() == 0,
    ensures
        fed(state, stream) == headers_of(stream, state.known),
    decreases stream.len(),
{
    lemma_line_end(stream);
    let end = line_end(stream) as int;
    assert(stream.skip(0) == stream);
    assert(state.line == line_bytes(stream.take(0))) by {
        reveal(Seq::filter);
    }
    lemma_fed_line(state, stream, 0);
    if end < stream.len() {
        let (next, step) = on_line(state, line_bytes(stream.take(end)));
        if step is More {
            lemma_fed_headers(next, stream.skip(end + 1));
        }
    }
}

/// Reading an answer byte by byte finds what its lines say, whatever follows the head.
pub proof fn law_head_read_by_bytes(stream: Seq<u8>)
    ensures
        fed(head_start(), stream) == head_of(stream),
{
    lemma_line_end(stream);
    let end = line_end(stream) as int;
    assert(stream.skip(0) == stream);
    assert(head_start().line == line_bytes(stream.take(0))) by {
        reveal(Seq::filter);
    }
    lemma_fed_line(head_start(), stream, 0);
    if end < stream.len() {
        let (next, step) = on_line(head_start(), line_bytes(stream.take(end)));
        if step is More {
            lemma_fed_headers(next, stream.skip(end + 1));
        }
    }
}

proof fn lemma_fed_prefix(state: HeadState, stream: Seq<u8>, more: Seq<u8>)
    ensures
        fed(state, stream) !is Unfinished ==> fed(state, stream + more) == fed(state, stream),
        fed(state, stream) matches Head::Whole { content_length, size } ==> 0 < content_length && 0
            < size <= stream.len(),
    decreases stream.len(),
{
    if stream.len() > 0 {
        let whole = stream + more;
        assert(whole.first() == stream.first());
        assert(whole.drop_first() == stream.drop_first() + more);
        let (next, step) = on_byte(state, stream.first());
        lemma_fed_prefix(next, stream.drop_first(), more);
    }
}

/// What was found of the head stays, whatever bytes follow.
pub proof fn law_head_settled(stream: Seq<u8>, more: Seq<u8>)
    ensures
        head_of(stream) !is Unfinished ==> head_of(stream + more) == head_of(stream),
{
    law_head_read_by_bytes(stream);
    law_head_read_by_bytes(stream + more);
    lemma_fed_prefix(head_start(), stream, more);
}

/// A head that is accepted lies within the bytes that were read, and the body it announces is
/// not empty.
pub proof fn law_head_announces_body(stream: Seq<u8>)
    ensures
        head_of(stream) matches Head::Whole { content_length, size } ==> 0 < content_length && 0
            < size <= stream.len(),
{
    law_head_read_by_bytes(stream);
    lemma_fed_prefix(head_start(), stream, Seq::empty());
}

/// Of a line, every byte counts but carriage returns.
pub proof fn law_line_bytes(line: Seq<u8>, byte: u8)
    ensures
        line_bytes(Seq::empty()) == Seq::<u8>::empty(),
        line_bytes(line.push(13)) == line_bytes(line),
        byte != 13 ==> line_bytes(line.push(byte)) == line_bytes(line).push(byte),
{
    reveal(Seq::filter);
    assert(line.push(13).drop_last() =~= line);
    assert(line.push(byte).drop_last() =~= line);
}

proof fn lemma_line_first(line: Seq<u8>, rest: Seq<u8>)
    requires
        forall|i: int| 0 <= i < line.len() ==> #[trigger] line[i] != 10,
    ensures
        line_end(line.push(10) + rest) == line.len(),
        (line.push(10) + rest).take(line.len() as int) == line,
        (line.push(10) + rest).skip(line.len() as int + 1) == rest,
{
    let stream = line.push(10) + rest;
    lemma_line_end(stream);
    let end = line_end(stream) as int;
    if end < line.len() {
        assert(stream[end] == line[end]);
    } else if end > line.len() {
        assert(stream[line.len() as int] == 10);
    }
    assert(stream.take(line.len() as int) =~= line);
    assert(stream.skip(line.len() as int + 1) =~= rest);
}

/// The first line decides on the answer: one that is not text is refused, then one that does not
/// say that all is well, and after any other come the headers.
pub proof fn law_status_line_decides(line: Seq<u8>, rest: Seq<u8>)
    requires
        forall|i: int| 0 <= i < line.len() ==> #[trigger] line[i] != 10,
    ensures
        head_of(line.push(10) + rest) == match utf8_text(line_bytes(line)) {
            None => Head::Rejected(HeadError::NotUtf8),
            Some(text) => if !has_word(text, "200 OK"@) {
                Head::Rejected(HeadError::UnexpectedStatus)
            } else {
                match headers_of(rest, 0) {
                    Head::Whole { content_length, size } => Head::Whole {
                        content_length,
                        size: size + line.len() + 1,
                    },
                    Head::Rejected(e) => Head::Rejected(e),
                    Head::Unfinished => Head::Unfinished,
                }
            },
        },
{
    lemma_line_first(line, rest);
}

/// Each header counts in its turn, up to the first empty line, which ends the head.
pub proof fn law_headers_count_in_turn(line: Seq<u8>, rest: Seq<u8>, known: u64)
    requires
        forall|i: int| 0 <= i < line.len() ==> #[trigger] line[i] != 10,
    ensures
        headers_of(line.push(10) + rest, known) == match utf8_text(line_bytes(line)) {
            None => Head::Rejected(HeadError::NotUtf8),
            Some(text) => if text.len() == 0 {
                if known == 0 {
                    Head::Rejected(HeadError::NoContentLength)
                } else {
                    Head::Whole { content_length: known, size: line.len() as int + 1 }
                }
            } else {
                match headers_of(rest, length_after(text, known)) {
                    Head::Whole { content_length, size } => Head::Whole {
                        content_length,
                        size: size + line.len() + 1,
                    },
                    Head::Rejected(e) => Head::Rejected(e),
                    Head::Unfinished => Head::Unfinished,
                }
            },
        },
{
    lemma_line_first(line, rest);
    law_length_header_in_any_case(Seq::empty());
}

/// Without a line feed a head is not over.
pub proof fn law_head_needs_its_lines(line: Seq<u8>, known: u64)
    requires
        forall|i: int| 0 <= i < line.len() ==> #[trigger] line[i] != 10,
    ensures
        head_of(line) is Unfinished,
        headers_of(line, known) is Unfinished,
{
    lemma_line_end(line);
}

/// An answer that says that all is well and gives the length of its body, whatever that length,
/// has that length for a head, with carriage returns in its lines or without.
#[verifier::spinoff_prover]
pub proof fn law_answer_with_length(
    status: Seq<u8>,
    before: Seq<char>,
    after: Seq<char>,
    header: Seq<u8>,
    n: u64,
    blank: Seq<u8>,
    rest: Seq<u8>,
)
    requires
        n > 0,
        forall|i: int| 0 <= i < status.len() ==> #[trigger] status[i] != 10,
        forall|i: int| 0 <= i < header.len() ==> #[trigger] header[i] != 10,
        forall|i: int| 0 <= i < blank.len() ==> #[trigger] blank[i] == 13,
        line_bytes(status) == encode_utf8(before + "200 OK"@ + after),
        line_bytes(header) == encode_utf8("content-length: "@ + decimal(n as nat)),
    ensures
        head_of(status.push(10) + (header.push(10) + (blank.push(10) + rest))) == (Head::Whole {
            content_length: n,
            size: status.len() as int + header.len() + blank.len() + 3,
        }),
{
    let text = "content-length: "@ + decimal(n as nat);
    let empty = Seq::<char>::empty();
    lemma_only_returns(blank);
    law_text_read_back(before + "200 OK"@ + after, status);
    law_text_read_back(text, header);
    law_text_read_back(empty, blank);
    assert(encode_utf8(empty) =~= Seq::<u8>::empty());
    law_word_is_found(before, "200 OK"@, after);
    law_plain_length_header(n, 0);
    reveal_strlit("content-length: ");
    law_headers_count_in_turn(blank, rest, n);
    law_headers_count_in_turn(header, blank.push(10) + rest, 0);
    law_status_line_decides(status, header.push(10) + (blank.push(10) + rest));
}

proof fn lemma_only_returns(line: Seq<u8>)
    requires
        forall|i: int| 0 <= i < line.len() ==> #[trigger] line[i] == 13,
    ensures
        line_bytes(line) == Seq::<u8>::empty(),
    decreases line.len(),
{
    reveal(Seq::filter);
    if line.len() > 0 {
        let front = line.drop_last();
        assert forall|i: int| 0 <= i < front.len() implies #[trigger] front[i] == 13 by {
            assert(front[i] == line[i]);
        }
        lemma_only_returns(front);
        assert(line.last() == line[line.len() - 1]);
    }
}

/// A body that is not as long as its head announced.
#[derive(Clone, Copy, Debug, PartialEq, Eq, Structural)]
pub struct SizeMismatch {
    pub downloaded: u64,
    pub content_length: u64,
}

impl SizeMismatch {
    /// What is told of the mismatch.
    pub open spec fn text(self) -> Seq<char> {
        "download size "@ + crate::text::decimal(self.downloaded as nat)
            + " was not the same as content length "@ + crate::text::decimal(
            self.content_length as nat,
        )
    }

    /// What is told of the mismatch.
    pub fn message(&self) -> (s: String)
        ensures
            s@ == self.text(),
            s@ == "download size "@ + decimal(self.downloaded as nat)
                + " was not the same as content length "@ + decimal(self.content_length as nat),
    {
        let mut s = String::new();
        s.append("download size ");
        push_decimal(&mut s, self.downloaded);
        s.append(" was not the same as content length ");
        push_decimal(&mut s, self.content_length);
        assert(s@ == self.text());
        s
    }
}

/// A body under way.
pub struct ArtifactBody {
    content_length: u64,
    body: Vec<u8>,
}

impl View for ArtifactBody {
    type V = Seq<u8>;

    closed spec fn view(&self) -> Seq<u8> {
        self.body@
    }
}

impl ArtifactBody {
    /// The length that the head announced.
    pub closed spec fn announced(&self) -> u64 {
        self.content_length
    }

    /// Nothing of a body that is announced to be `content_length` bytes long.
    pub fn new(content_length: u64) -> (r: Self)
        ensures
            r@ == Seq::<u8>::empty(),
            r.announced() == content_length,
    {
        ArtifactBody { content_length, body: Vec::new() }
    }

    /// Whether a further read is due.
    pub fn wants_more(&self) -> (b: bool)
        ensures
            b == (self@.len() < self.announced()),
    {
        (self.body.len() as u64) < self.content_length
    }

    /// Takes what a read gave, and says whether a further read is due. A read of nothing is the
    /// end of the stream.
    pub fn receive(&mut self, chunk: &[u8]) -> (more: bool)
        ensures
            final(self)@ == old(self)@ + chunk@,
            final(self).announced() == old(self).announced(),
            more == (chunk@.len() > 0 && final(self)@.len() < final(self).announced()),
    {
        let mut i: usize = 0;
        while i < chunk.len()
            invariant
                i <= chunk@.len(),
                self@ == old(self)@ + chunk@.take(i as int),
                self.announced() == old(self).announced(),
            decreases chunk@.len() - i,
        {
            self.body.push(chunk[i]);
            i = i + 1;
            assert(self@ == old(self)@ + chunk@.take(i as int));
        }
        assert(chunk@.take(chunk@.len() as int) == chunk@);
        chunk.len() > 0 && self.wants_more()
    }

    /// The body, if it is as long as was announced.
    pub fn finish(self) -> (r: Result<Vec<u8>, SizeMismatch>)
        ensures
            match r {
                Ok(body) => body@ == self@ && self@.len() == self.announced(),
                Err(e) => self@.len() != self.announced() && e.downloaded == self@.len()
                    && e.content_length == self.announced(),
            },
    {
        let downloaded: u64 = self.body.len() as u64;
        if downloaded != self.content_length {
            return Err(SizeMismatch { downloaded, content_length: self.content_length });
        }
        Ok(self.body)
    }
}

/// All chunks, joined.
pub open spec fn joined(chunks: Seq<Seq<u8>>) -> Seq<u8>
    decreases chunks.len(),
{
    if chunks.len() == 0 {
        Seq::empty()
    } else {
        chunks.first() + joined(chunks.drop_first())
    }
}

/// Where the bash that was downloaded can be run from: a file at a path, or a file in memory
/// that stands behind the handle `F`.
pub enum RptyBash<F> {
    Path(String),
    Memfd(F),
}

/// Why there is no bash.
#[derive(Clone, Copy, Debug, PartialEq, Eq, Structural)]
pub enum DownloadError {
    Head(HeadError),
    Size(SizeMismatch),
}

/// What happens during a download.
pub enum DownloadEvent {
    /// A byte of the head came.
    Byte(u8),
    /// A read of the body gave so much, or nothing at its end.
    Chunk(Vec<u8>),
    /// The directory of the program that runs, if it is known.
    ExeDir(Option<String>),
    /// The bash was saved, or could not be.
    Saved(bool),
}

/// What is to be done next in a download.
#[derive(Debug)]
pub enum DownloadAction {
    ReadByte,
    ReadChunk,
    /// Find the directory of the program that runs.
    FindExeDir,
    /// Save the body at this path.
    Save(String),
    /// The bash is in the file at this path.
    Ready(String),
    /// Keep these bytes in memory: they are the bash.
    KeepInMemory(Vec<u8>),
    Fail(DownloadError),
}

/// An event, with what it holds.
pub enum EventView {
    Byte(u8),
    Chunk(Seq<u8>),
    ExeDir(Option<Seq<char>>),
    Saved(bool),
}

/// An action, with what it holds.
pub enum ActionView {
    ReadByte,
    ReadChunk,
    FindExeDir,
    Save(Seq<char>),
    Ready(Seq<char>),
    KeepInMemory(Seq<u8>),
    Fail(DownloadError),
}

impl View for DownloadEvent {
    type V = EventView;

    open spec fn view(&self) -> EventView {
        match self {
            DownloadEvent::Byte(b) => EventView::Byte(*b),
            DownloadEvent::Chunk(c) => EventView::Chunk(c@),
            DownloadEvent::ExeDir(Some(dir)) => EventView::ExeDir(Some(dir@)),
            DownloadEvent::ExeDir(None) => EventView::ExeDir(None),
            DownloadEvent::Saved(ok) => EventView::Saved(*ok),
        }
    }
}

impl View for DownloadAction {
    type V = ActionView;

    open spec fn view(&self) -> ActionView {
        match self {
            DownloadAction::ReadByte => ActionView::ReadByte,
            DownloadAction::ReadChunk => ActionView::ReadChunk,
            DownloadAction::FindExeDir => ActionView::FindExeDir,
            DownloadAction::Save(path) => ActionView::Save(path@),
            DownloadAction::Ready(path) => ActionView::Ready(path@),
            DownloadAction::KeepInMemory(body) => ActionView::KeepInMemory(body@),
            DownloadAction::Fail(e) => ActionView::Fail(*e),
        }
    }
}

/// Events and actions hold what they hold.
pub proof fn law_views_keep_all(
    byte: u8,
    bytes: Vec<u8>,
    text: String,
    ok: bool,
    error: DownloadError,
)
    ensures
        DownloadEvent::Byte(byte)@ == EventView::Byte(byte),
        DownloadEvent::Chunk(bytes)@ == EventView::Chunk(bytes@),
        DownloadEvent::ExeDir(Some(text))@ == EventView::ExeDir(Some(text@)),
        DownloadEvent::ExeDir(None)@ == EventView::ExeDir(None),
        DownloadEvent::Saved(ok)@ == EventView::Saved(ok),
        DownloadAction::ReadByte@ == ActionView::ReadByte,
        DownloadAction::ReadChunk@ == ActionView::ReadChunk,
        DownloadAction::FindExeDir@ == ActionView::FindExeDir,
        DownloadAction::Save(text)@ == ActionView::Save(text@),
        DownloadAction::Ready(text)@ == ActionView::Ready(text@),
        DownloadAction::KeepInMemory(bytes)@ == ActionView::KeepInMemory(bytes@),
        DownloadAction::Fail(error)@ == ActionView::Fail(error),
{
}

/// How far a download has come.
pub enum DownloadState {
    Head(HeadState),
    Body { announced: u64, body: Seq<u8> },
    /// The body is whole, and a place for it is wanted.
    Whole(Seq<u8>),
    /// The body is being saved at the path.
    Saving(Seq<u8>, Seq<char>),
    Over,
}

impl DownloadState {
    /// The event is one that the state waits for.
    pub open spec fn awaits(self, event: EventView) -> bool {
        match self {
            DownloadState::Head(_) => event is Byte,
            DownloadState::Body { .. } => event is Chunk,
            DownloadState::Whole(_) => event is ExeDir,
            DownloadState::Saving(..) => event is Saved,
            DownloadState::Over => false,
        }
    }
}

/// What an event does to a download: the head is read to its end, then the body until it is as
/// long as announced or there is no more; a body of another length is refused, and a whole one
/// is saved beside the program, or kept in memory where that cannot be done.
pub open spec fn on_download(state: DownloadState, event: EventView) -> (DownloadState, ActionView) {
    match (state, event) {
        (DownloadState::Head(head), EventView::Byte(byte)) => {
            let (next, step) = on_byte(head, byte);
            match step {
                HeadStep::More => (DownloadState::Head(next), ActionView::ReadByte),
                HeadStep::Rejected(e) => (
                    DownloadState::Over,
                    ActionView::Fail(DownloadError::Head(e)),
                ),
                HeadStep::Body(announced) => (
                    DownloadState::Body { announced, body: Seq::empty() },
                    ActionView::ReadChunk,
                ),
            }
        },
        (DownloadState::Body { announced, body }, EventView::Chunk(chunk)) => {
            let now = body + chunk;
            if chunk.len() > 0 && now.len() < announced {
                (DownloadState::Body { announced, body: now }, ActionView::ReadChunk)
            } else if now.len() == announced {
                (DownloadState::Whole(now), ActionView::FindExeDir)
            } else {
                (
                    DownloadState::Over,
                    ActionView::Fail(
                        DownloadError::Size(
                            SizeMismatch { downloaded: now.len() as u64, content_length: announced },
                        ),
                    ),
                )
            }
        },
        (DownloadState::Whole(body), EventView::ExeDir(Some(dir))) => (
            DownloadState::Saving(body, dir + "/bash-rpty"@),
            ActionView::Save(dir + "/bash-rpty"@),
        ),
        (DownloadState::Whole(body), EventView::ExeDir(None)) => (
            DownloadState::Over,
            ActionView::KeepInMemory(body),
        ),
        (DownloadState::Saving(body, path), EventView::Saved(ok)) => (
            DownloadState::Over,
            if ok {
                ActionView::Ready(path)
            } else {
                ActionView::KeepInMemory(body)
            },
        ),
        _ => (DownloadState::Over, ActionView::ReadByte),
    }
}

enum Phase {
    Head(ResponseHead),
    Body(ArtifactBody),
    Whole(Vec<u8>),
    Saving(Vec<u8>, String),
    Over,
}

/// A download of the remote shell's bash, once it was asked for.
pub struct Download {
    phase: Phase,
}

impl View for Download {
    type V = DownloadState;

    closed spec fn view(&self) -> DownloadState {
        match self.phase {
            Phase::Head(head) => DownloadState::Head(head@),
            Phase::Body(body) => DownloadState::Body { announced: body.announced(), body: body@ },
            Phase::Whole(body) => DownloadState::Whole(body@),
            Phase::Saving(body, path) => DownloadState::Saving(body@, path@),
            Phase::Over => DownloadState::Over,
        }
    }
}

impl Download {
    /// Before the first byte of the answer.
    pub fn new() -> (r: Self)
        ensures
            r@ == DownloadState::Head(head_start()),
    {
        Download { phase: Phase::Head(ResponseHead::new()) }
    }

    /// The bytes to save, while they are being saved.
    pub fn body(&self) -> (r: Option<&Vec<u8>>)
        ensures
            match self@ {
                DownloadState::Saving(body, _) => r matches Some(b) && b@ == body,
                _ => r is None,
            },
    {
        match &self.phase {
            Phase::Saving(body, _) => Some(body),
            _ => None,
        }
    }

    /// Takes an event in, and says what is to be done next.
    pub fn advance(&mut self, event: DownloadEvent) -> (r: DownloadAction)
        requires
            old(self)@.awaits(event@),
        ensures
            (final(self)@, r@) == on_download(old(self)@, event@),
    {
        let mut phase = Phase::Over;
        std::mem::swap(&mut phase, &mut self.phase);
        match (phase, event) {
            (Phase::Head(mut head), DownloadEvent::Byte(byte)) => match head.feed(byte) {
                HeadStep::More => {
                    self.phase = Phase::Head(head);
                    DownloadAction::ReadByte
                },
                HeadStep::Rejected(e) => DownloadAction::Fail(DownloadError::Head(e)),
                HeadStep::Body(n) => {
                    self.phase = Phase::Body(ArtifactBody::new(n));
                    DownloadAction::ReadChunk
                },
            },
            (Phase::Body(mut body), DownloadEvent::Chunk(chunk)) => {
                if body.receive(chunk.as_slice()) {
                    self.phase = Phase::Body(body);
                    return DownloadAction::ReadChunk;
                }
                match body.finish() {
                    Ok(bytes) => {
                        self.phase = Phase::Whole(bytes);
                        DownloadAction::FindExeDir
                    },
                    Err(e) => DownloadAction::Fail(DownloadError::Size(e)),
                }
            },
            (Phase::Whole(body), DownloadEvent::ExeDir(dir)) => match dir {
                Some(dir) => {
                    let path = join(dir.as_str(), "/bash-rpty");
                    let action = DownloadAction::Save(path.clone());
                    self.phase = Phase::Saving(body, path);
                    action
                },
                None => DownloadAction::KeepInMemory(body),
            },
            (Phase::Saving(body, path), DownloadEvent::Saved(ok)) => {
                if ok {
                    DownloadAction::Ready(path)
                } else {
                    DownloadAction::KeepInMemory(body)
                }
            },
            _ => DownloadAction::ReadByte,
        }
    }
}

/// Each byte of the head goes to the head, whose refusal ends the download with its reason, and
/// whose end begins an empty body of the announced length.
pub proof fn law_download_reads_the_head(head: HeadState, byte: u8)
    ensures
        on_download(DownloadState::Head(head), EventView::Byte(byte)) == match on_byte(
            head,
            byte,
        ).1 {
            HeadStep::More => (
                DownloadState::Head(on_byte(head, byte).0),
                ActionView::ReadByte,
            ),
            HeadStep::Rejected(e) => (
                DownloadState::Over,
                ActionView::Fail(DownloadError::Head(e)),
            ),
            HeadStep::Body(n) => (
                DownloadState::Body { announced: n, body: Seq::empty() },
                ActionView::ReadChunk,
            ),
        },
{
}

/// A body is read on exactly while bytes come and it is too short. Then it is taken if it is as
/// long as announced, and otherwise refused with both lengths.
pub proof fn law_download_measures_the_body(announced: u64, body: Seq<u8>, chunk: Seq<u8>)
    ensures
        ({
            let (next, action) = on_download(
                DownloadState::Body { announced, body },
                EventView::Chunk(chunk),
            );
            let size = body.len() + chunk.len();
            &&& chunk.len() > 0 && size < announced ==> action == ActionView::ReadChunk && next == (
            DownloadState::Body { announced, body: body + chunk })
            &&& size == announced && chunk.len() > 0 ==> action == ActionView::FindExeDir && next
                == DownloadState::Whole(body + chunk)
            &&& chunk.len() == 0 && size < announced || size > announced ==> action
                == ActionView::Fail(
                DownloadError::Size(
                    SizeMismatch { downloaded: size as u64, content_length: announced },
                ),
            ) && next == DownloadState::Over
        }),
{
}

/// A download after events, as far as it awaits them.
pub open spec fn download_after(state: DownloadState, events: Seq<EventView>) -> DownloadState
    decreases events.len(),
{
    if events.len() == 0 {
        state
    } else {
        download_after(on_download(state, events.first()).0, events.drop_first())
    }
}

/// The bytes of a head, as events.
pub open spec fn byte_events(bytes: Seq<u8>) -> Seq<EventView> {
    bytes.map_values(|b: u8| EventView::Byte(b))
}

/// The chunks of a body, as events.
pub open spec fn chunk_events(chunks: Seq<Seq<u8>>) -> Seq<EventView> {
    chunks.map_values(|c: Seq<u8>| EventView::Chunk(c))
}

proof fn lemma_download_head(head: HeadState, bytes: Seq<u8>, more: Seq<EventView>)
    requires
        fed(head, bytes) matches Head::Whole { content_length, size } && size == bytes.len(),
    ensures
        download_after(DownloadState::Head(head), byte_events(bytes) + more) == download_after(
            DownloadState::Body {
                announced: fed(head, bytes)->content_length,
                body: Seq::empty(),
            },
            more,
        ),
    decreases bytes.len(),
{
    let events = byte_events(bytes) + more;
    let rest = bytes.drop_first();
    let (next, step) = on_byte(head, bytes.first());
    assert(events.first() == EventView::Byte(bytes.first()));
    assert(events.drop_first() =~= byte_events(rest) + more);
    if step is More {
        lemma_download_head(next, rest, more);
    } else {
        assert(byte_events(rest) + more =~= more);
    }
}

proof fn lemma_download_body(announced: u64, body: Seq<u8>, chunks: Seq<Seq<u8>>)
    requires
        chunks.len() > 0,
        body.len() + joined(chunks).len() == announced,
        forall|i: int| 0 <= i < chunks.len() ==> (#[trigger] chunks[i]).len() > 0,
    ensures
        download_after(DownloadState::Body { announced, body }, chunk_events(chunks))
            == DownloadState::Whole(body + joined(chunks)),
    decreases chunks.len(),
{
    let events = chunk_events(chunks);
    let rest = chunks.drop_first();
    let now = body + chunks.first();
    assert(chunks[0].len() > 0);
    assert(events.first() == EventView::Chunk(chunks.first()));
    assert(events.drop_first() =~= chunk_events(rest));
    assert(body + joined(chunks) =~= now + joined(rest));
    assert forall|i: int| 0 <= i < rest.len() implies (#[trigger] rest[i]).len() > 0 by {
        assert(rest[i] == chunks[i + 1]);
    }
    if rest.len() > 0 {
        assert(rest[0].len() > 0);
        assert(joined(rest).len() >= rest.first().len());
        lemma_download_body(announced, now, rest);
    } else {
        assert(now + joined(rest) =~= now);
        assert(download_after(DownloadState::Whole(now), events.drop_first())
            == DownloadState::Whole(now));
    }
}

/// An answer whose head announces its body's length leads to that body, in whatever chunks the
/// body comes.
pub proof fn law_download_gives_body(head: Seq<u8>, chunks: Seq<Seq<u8>>)
    requires
        head_of(head) matches Head::Whole { content_length, size } && size == head.len()
            && content_length == joined(chunks).len(),
        forall|i: int| 0 <= i < chunks.len() ==> (#[trigger] chunks[i]).len() > 0,
    ensures
        download_after(
            DownloadState::Head(head_start()),
            byte_events(head) + chunk_events(chunks),
        ) == DownloadState::Whole(joined(chunks)),
{
    law_head_read_by_bytes(head);
    law_head_announces_body(head);
    let n = head_of(head)->content_length;
    lemma_download_head(head_start(), head, chunk_events(chunks));
    assert(chunks.len() > 0);
    lemma_download_body(n, Seq::empty(), chunks);
    assert(Seq::<u8>::empty() + joined(chunks) =~= joined(chunks));
}

proof fn lemma_over_stays(events: Seq<EventView>)
    ensures
        download_after(DownloadState::Over, events) == DownloadState::Over,
    decreases events.len(),
{
    if events.len() > 0 {
        lemma_over_stays(events.drop_first());
    }
}

proof fn lemma_download_exact(announced: u64, body: Seq<u8>, chunks: Seq<Seq<u8>>)
    ensures
        download_after(
            DownloadState::Body { announced, body },
            chunk_events(chunks),
        ) matches DownloadState::Whole(b) ==> b == body + joined(chunks) && b.len() == announced,
    decreases chunks.len(),
{
    let events = chunk_events(chunks);
    if chunks.len() == 0 {
        assert(events.len() == 0);
    } else {
        let rest = chunks.drop_first();
        let now = body + chunks.first();
        assert(events.first() == EventView::Chunk(chunks.first()));
        assert(events.drop_first() =~= chunk_events(rest));
        assert(body + joined(chunks) =~= now + joined(rest));
        let (next, _) = on_download(DownloadState::Body { announced, body }, events.first());
        match next {
            DownloadState::Body { .. } => {
                lemma_download_exact(announced, now, rest);
            },
            DownloadState::Whole(_) => {
                if rest.len() > 0 {
                    assert(chunk_events(rest).first() == EventView::Chunk(rest.first()));
                    lemma_over_stays(chunk_events(rest).drop_first());
                    assert(download_after(next, chunk_events(rest)) == DownloadState::Over);
                } else {
                    assert(now + joined(rest) =~= now);
                    assert(download_after(next, chunk_events(rest)) == next);
                }
            },
            _ => {
                lemma_over_stays(chunk_events(rest));
            },
        }
    }
}

/// No body is taken but one of the announced length, and every byte that came is in it.
pub proof fn law_download_takes_no_other_length(announced: u64, chunks: Seq<Seq<u8>>)
    ensures
        download_after(
            DownloadState::Body { announced, body: Seq::empty() },
            chunk_events(chunks),
        ) matches DownloadState::Whole(b) ==> b == joined(chunks) && b.len() == announced,
{
    lemma_download_exact(announced, Seq::empty(), chunks);
    assert(Seq::<u8>::empty() + joined(chunks) =~= joined(chunks));
}

proof fn lemma_download_from_head(head: HeadState, bytes: Seq<u8>, chunks: Seq<Seq<u8>>)
    ensures
        download_after(
            DownloadState::Head(head),
            byte_events(bytes) + chunk_events(chunks),
        ) matches DownloadState::Whole(b) ==> {
            &&& fed(head, bytes) matches Head::Whole { content_length, size }
            &&& size == bytes.len()
            &&& content_length == b.len()
            &&& b == joined(chunks)
        },
    decreases bytes.len(),
{
    let more = chunk_events(chunks);
    let events = byte_events(bytes) + more;
    if bytes.len() == 0 {
        assert(events =~= more);
        if chunks.len() > 0 {
            assert(events.first() == EventView::Chunk(chunks.first()));
            lemma_over_stays(events.drop_first());
        }
    } else {
        let rest = bytes.drop_first();
        let (next, step) = on_byte(head, bytes.first());
        assert(events.first() == EventView::Byte(bytes.first()));
        assert(events.drop_first() =~= byte_events(rest) + more);
        match step {
            HeadStep::More => {
                lemma_download_from_head(next, rest, chunks);
            },
            HeadStep::Rejected(_) => {
                lemma_over_stays(events.drop_first());
            },
            HeadStep::Body(announced) => {
                if rest.len() > 0 {
                    assert(events.drop_first().first() == EventView::Byte(rest.first()));
                    lemma_over_stays(events.drop_first().drop_first());
                } else {
                    assert(events.drop_first() =~= more);
                    law_download_takes_no_other_length(announced, chunks);
                }
            },
        }
    }
}

/// Nothing is taken but an answer whose head is whole and whose body is as long as the head
/// announced, and every byte of that body is in it.
pub proof fn law_download_takes_no_other_answer(head: Seq<u8>, chunks: Seq<Seq<u8>>)
    ensures
        download_after(
            DownloadState::Head(head_start()),
            byte_events(head) + chunk_events(chunks),
        ) matches DownloadState::Whole(b) ==> {
            &&& head_of(head) matches Head::Whole { content_length, size }
            &&& size == head.len()
            &&& content_length == b.len()
            &&& b == joined(chunks)
        },
{
    law_head_read_by_bytes(head);
    lemma_download_from_head(head_start(), head, chunks);
}

/// A whole body is never lost: whether or not the program's directory is known and the bash can
/// be saved there, it ends in the file or in memory.
pub proof fn law_whole_body_is_kept(body: Seq<u8>, dir: Option<Seq<char>>, saved: bool)
    ensures
        ({
            let (next, action) = on_download(DownloadState::Whole(body), EventView::ExeDir(dir));
            match dir {
                None => action == ActionView::KeepInMemory(body),
                Some(d) => action == ActionView::Save(d + "/bash-rpty"@) && on_download(
                    next,
                    EventView::Saved(saved),
                ).1 == if saved {
                    ActionView::Ready(d + "/bash-rpty"@)
                } else {
                    ActionView::KeepInMemory(body)
                },
            }
        }),
{
}

} // verus!
