//! The responses of an RTSP server, read line by line.

use crate::text::{
    chars_of, decimal, find_char, first_word, index_of, is_digit, is_white, lemma_decimal_round_trip, lemma_find_char,
    lemma_first_word, lemma_number_is_read, lemma_trim_end, lower, lowered, parse_unsigned, push_decimal, same,
    split_word, string_of, trim, trim_end, trim_start, trimmed, trimmed_end, unsigned, unsigned_digits,
};
use vstd::prelude::*;
use vstd::string::StringExecFns;

verus! {

/// What can go wrong on the control channel.
pub enum RtspError {
    ConnectionClosed,
    BadStatusLine,
    /// The server did not accept a request.
    Refused { method: String, status: u16 },
    MissingTransport,
    NoServerPort,
    NoControlPort,
    NoTimingPort,
}

/// The text of an error.
pub open spec fn error_text(e: RtspError) -> Seq<char> {
    match e {
        RtspError::ConnectionClosed => "connection closed by device"@,
        RtspError::BadStatusLine => "bad status line"@,
        RtspError::Refused { method, status } => method@ + " failed: RTSP status "@ + crate::text::decimal(
            status as nat,
        ),
        RtspError::MissingTransport => "SETUP missing Transport"@,
        RtspError::NoServerPort => "no server_port"@,
        RtspError::NoControlPort => "no control_port"@,
        RtspError::NoTimingPort => "no timing_port"@,
    }
}

impl RtspError {
    /// What to tell the user.
    pub fn message(&self) -> (s: String)
        ensures
            s@ == error_text(*self),
    {
        match self {
            RtspError::ConnectionClosed => "connection closed by device".to_owned(),
            RtspError::BadStatusLine => "bad status line".to_owned(),
            RtspError::Refused { method, status } => {
                let mut s: String = method.clone();
                s.append(" failed: RTSP status ");
                push_decimal(&mut s, *status as u64);
                s
            },
            RtspError::MissingTransport => "SETUP missing Transport".to_owned(),
            RtspError::NoServerPort => "no server_port".to_owned(),
            RtspError::NoControlPort => "no control_port".to_owned(),
            RtspError::NoTimingPort => "no timing_port".to_owned(),
        }
    }
}

/// The status in a line such as "RTSP/1.0 200 OK": its second word.
pub open spec fn status_of(line: Seq<char>) -> Option<nat> {
    let word = first_word(first_word(line).1).0;
    unsigned(word, 0xFFFF)
}

/// The header in a line, if it holds a colon: the name, in small letters, and
/// the value.
pub open spec fn header_of(line: Seq<char>) -> Option<(Seq<char>, Seq<char>)> {
    let t = trim_end(line);
    let i = find_char(t, ':');
    if 0 <= i < t.len() {
        Some((lower(trim(t.take(i))), trim(t.skip(i + 1))))
    } else {
        None
    }
}

/// The value that some header lines give to a name: the last one counts.
pub open spec fn lookup(headers: Seq<(Seq<char>, Seq<char>)>, name: Seq<char>) -> Option<Seq<char>>
    decreases headers.len(),
{
    if headers.len() == 0 {
        None
    } else if headers.last().0 == name {
        Some(headers.last().1)
    } else {
        lookup(headers.drop_last(), name)
    }
}

/// The head of a response, as far as it has been read.
pub struct Response {
    status: u16,
    headers: Vec<(String, String)>,
    body: Vec<u8>,
}

/// A `Response` as a value.
pub struct ResponseView {
    pub status: u16,
    pub headers: Seq<(Seq<char>, Seq<char>)>,
    pub body: Seq<u8>,
}

impl View for Response {
    type V = ResponseView;

    closed spec fn view(&self) -> ResponseView {
        ResponseView {
            status: self.status,
            headers: self.headers@.map_values(|h: (String, String)| (h.0@, h.1@)),
            body: self.body@,
        }
    }
}

/// Whether a line, or the end of the stream, ends the head of a response.
pub open spec fn ends_head(line: Option<Seq<char>>) -> bool {
    match line {
        Some(l) => trim_end(l).len() == 0,
        None => true,
    }
}

/// What a header line adds.
pub open spec fn with_line(r: ResponseView, line: Seq<char>) -> ResponseView {
    match header_of(line) {
        Some(h) => ResponseView { headers: r.headers.push(h), ..r },
        None => r,
    }
}

/// How many bytes follow the head.
pub open spec fn body_length(r: ResponseView) -> nat {
    match lookup(r.headers, "content-length"@) {
        Some(v) => match unsigned(v, usize::MAX as nat) {
            Some(n) => n,
            None => 0,
        },
        None => 0,
    }
}

impl Response {
    /// Begin with the first line; `None` is the end of the stream.
    pub fn begin(line: Option<&str>) -> (r: Result<Self, RtspError>)
        ensures
            match line {
                Some(l) => match status_of(l@) {
                    Some(status) => r matches Ok(resp) && resp@ == (ResponseView {
                        status: status as u16,
                        headers: Seq::empty(),
                        body: Seq::empty(),
                    }),
                    None => r matches Err(e) && e is BadStatusLine,
                },
                None => r matches Err(e) && e is ConnectionClosed,
            },
    {
        let line: &str = match line {
            Some(l) => l,
            None => {
                return Err(RtspError::ConnectionClosed);
            },
        };
        let chars: Vec<char> = chars_of(line);
        let (_, rest) = split_word(chars.as_slice());
        let (word, _) = split_word(rest);
        match parse_unsigned(word, 0xFFFF) {
            Some(status) => {
                let resp = Response { status: status as u16, headers: Vec::new(), body: Vec::new() };
                assert(resp@.headers =~= Seq::empty());
                Ok(resp)
            },
            None => Err(RtspError::BadStatusLine),
        }
    }

    /// Take in the next line of the head; `None` is the end of the stream.
    /// Whether there are more lines to come.
    pub fn line(&mut self, line: Option<&str>) -> (more: bool)
        ensures
            ({
                let l = match line {
                    Some(l) => Some(l@),
                    None => None,
                };
                &&& more == !ends_head(l)
                &&& final(self)@ == if more {
                    with_line(old(self)@, l->0)
                } else {
                    old(self)@
                }
            }),
    {
        let line: &str = match line {
            Some(l) => l,
            None => {
                return false;
            },
        };
        let chars: Vec<char> = chars_of(line);
        let t: &[char] = trimmed_end(chars.as_slice());
        if t.len() == 0 {
            return false;
        }
        let i: usize = index_of(t, ':');
        if i < t.len() {
            assert(t@.take(i as int) =~= t@.subrange(0, i as int));
            assert(t@.skip(i + 1) =~= t@.subrange(i + 1, t@.len() as int));
            let name: String = string_of(lowered(trimmed(&t[0..i])).as_slice());
            let value: String = string_of(trimmed(&t[i + 1..t.len()]));
            self.headers.push((name, value));
            assert(self@.headers =~= old(self)@.headers.push((name@, value@)));
        }
        true
    }

    /// The value of a header, whose name is given in small letters.
    pub fn header(&self, name: &str) -> (v: Option<&String>)
        ensures
            v is Some <==> lookup(self@.headers, name@) is Some,
            v matches Some(s) ==> lookup(self@.headers, name@) == Some(s@),
    {
        let ghost all = self@.headers;
        let mut n: usize = self.headers.len();
        assert(all.take(n as int) =~= all);
        while n > 0
            invariant
                n <= self.headers@.len(),
                all == self@.headers,
                all.len() == self.headers@.len(),
                lookup(all, name@) == lookup(all.take(n as int), name@),
            decreases n,
        {
            let h: &(String, String) = &self.headers[n - 1];
            assert(all.take(n as int).last() == (h.0@, h.1@));
            if same(h.0.as_str(), name) {
                return Some(&h.1);
            }
            assert(all.take(n as int).drop_last() =~= all.take(n - 1));
            n = n - 1;
        }
        None
    }

    /// How many bytes of body follow the head.
    pub fn body_len(&self) -> (n: usize)
        ensures
            n == body_length(self@),
    {
        match self.header("content-length") {
            Some(v) => match parse_unsigned(chars_of(v.as_str()).as_slice(), usize::MAX as u64) {
                Some(n) => n as usize,
                None => 0,
            },
            None => 0,
        }
    }

    /// The response with its body.
    pub fn with_body(self, body: Vec<u8>) -> (r: Self)
        ensures
            r@ == (ResponseView { body: body@, ..self@ }),
    {
        Response { status: self.status, headers: self.headers, body }
    }

    /// The status.
    pub fn status(&self) -> (s: u16)
        ensures
            s == self@.status,
    {
        self.status
    }

    /// Whether the server accepted the request.
    pub fn check(&self, method: &str) -> (r: Result<(), RtspError>)
        ensures
            r is Ok <==> 200 <= self@.status < 300,
            r matches Err(e) ==> (e matches RtspError::Refused { method: m, status } && m@ == method@ && status
                == self@.status),
    {
        if 200 <= self.status && self.status < 300 {
            Ok(())
        } else {
            Err(RtspError::Refused { method: method.to_owned(), status: self.status })
        }
    }
}

// ---------------------------------------------------------------------------
// What reading promises

/// Whether `s` has no white space at either end.
pub open spec fn is_trimmed(s: Seq<char>) -> bool {
    s.len() > 0 ==> !is_white(s[0]) && !is_white(s.last())
}

proof fn lemma_trim_end_run(s: Seq<char>, white: Seq<char>)
    requires
        forall|i: int| 0 <= i < white.len() ==> is_white(#[trigger] white[i]),
    ensures
        trim_end(s + white) == trim_end(s),
    decreases white.len(),
{
    if white.len() == 0 {
        assert(s + white =~= s);
    } else {
        let w = white.drop_last();
        assert forall|i: int| 0 <= i < w.len() implies is_white(#[trigger] w[i]) by {
            assert(w[i] == white[i]);
        }
        lemma_trim_end_run(s, w);
        assert((s + white).drop_last() =~= s + w);
        assert(is_white(white[white.len() - 1]));
    }
}

/// A header is read as it was written, in any case of its name: the value
/// comes back under the name in small letters.
pub proof fn lemma_header_round_trip(name: Seq<char>, value: Seq<char>)
    requires
        is_trimmed(name),
        !name.contains(':'),
        is_trimmed(value),
    ensures
        header_of(crate::rtsp::header_line((name, value))) == Some((lower(name), value)),
{
    reveal_strlit(": ");
    reveal_strlit("\r\n");
    let line = crate::rtsp::header_line((name, value));
    let t = if value.len() == 0 { name.push(':') } else { name.push(':').push(' ') + value };
    if value.len() == 0 {
        assert(line =~= t + (seq![' '] + "\r\n"@));
        lemma_trim_end_run(t, seq![' '] + "\r\n"@);
    } else {
        assert(line =~= t + "\r\n"@);
        lemma_trim_end_run(t, "\r\n"@);
        assert(t.last() == value.last());
    }
    assert(trim_end(line) == t);
    lemma_find_char(t, ':');
    let i = find_char(t, ':');
    assert(t[name.len() as int] == ':');
    if i < name.len() {
        assert(name[i] == ':');
        assert(name.contains(':'));
    }
    assert(i == name.len());
    assert(t.take(i) =~= name);
    assert(trim(name) == name);
    let v = t.skip(i + 1);
    if value.len() == 0 {
        assert(v =~= value);
    } else {
        assert(v[0] == ' ');
        assert(v.skip(1) =~= value);
        assert(trim_start(v) == trim_start(value));
    }
    assert(trim(v) == value);
}

/// The headers that some lines hold.
pub open spec fn headers_in(r: ResponseView, lines: Seq<Seq<char>>) -> ResponseView
    decreases lines.len(),
{
    if lines.len() == 0 {
        r
    } else {
        with_line(headers_in(r, lines.drop_last()), lines.last())
    }
}

/// Headers as lines.
pub open spec fn lines_of(headers: Seq<(Seq<char>, Seq<char>)>) -> Seq<Seq<char>> {
    headers.map_values(|h: (Seq<char>, Seq<char>)| crate::rtsp::header_line(h))
}

/// Headers with their names in small letters.
pub open spec fn lowered_names(headers: Seq<(Seq<char>, Seq<char>)>) -> Seq<(Seq<char>, Seq<char>)> {
    headers.map_values(|h: (Seq<char>, Seq<char>)| (lower(h.0), h.1))
}

/// Whether a header survives being written as a line.
pub open spec fn plain_header(h: (Seq<char>, Seq<char>)) -> bool {
    is_trimmed(h.0) && !h.0.contains(':') && is_trimmed(h.1)
}

/// A head is read as it was written: all of its headers, in their order, and
/// no line of a header is taken for the end of the head.
pub proof fn lemma_head_round_trip(r: ResponseView, headers: Seq<(Seq<char>, Seq<char>)>)
    requires
        forall|i: int| 0 <= i < headers.len() ==> plain_header(#[trigger] headers[i]),
    ensures
        headers_in(r, lines_of(headers)) == (ResponseView {
            headers: r.headers + lowered_names(headers),
            ..r
        }),
        forall|i: int| 0 <= i < headers.len() ==> !ends_head(Some(#[trigger] lines_of(headers)[i])),
    decreases headers.len(),
{
    if headers.len() == 0 {
        assert(r.headers + lowered_names(headers) =~= r.headers);
    } else {
        let front = headers.drop_last();
        assert forall|i: int| 0 <= i < front.len() implies plain_header(#[trigger] front[i]) by {
            assert(front[i] == headers[i]);
        }
        lemma_head_round_trip(r, front);
        let h = headers.last();
        assert(plain_header(headers[headers.len() - 1]));
        lemma_header_round_trip(h.0, h.1);
        assert(lines_of(headers).drop_last() =~= lines_of(front));
        assert(lowered_names(headers) =~= lowered_names(front).push((lower(h.0), h.1)));
        assert(r.headers + lowered_names(headers) =~= (r.headers + lowered_names(front)).push((lower(h.0), h.1)));
        assert forall|i: int| 0 <= i < headers.len() implies !ends_head(
            Some(#[trigger] lines_of(headers)[i]),
        ) by {
            if i < front.len() {
                assert(lines_of(headers)[i] == lines_of(front)[i]);
            } else {
                assert(lines_of(headers)[i] == crate::rtsp::header_line(h));
            }
        }
    }
}

/// A header that comes again replaces the earlier one.
pub proof fn lemma_last_header_counts(headers: Seq<(Seq<char>, Seq<char>)>, name: Seq<char>, value: Seq<char>)
    ensures
        lookup(headers.push((name, value)), name) == Some(value),
        forall|other: Seq<char>|
            other != name ==> #[trigger] lookup(headers.push((name, value)), other) == lookup(headers, other),
{
    assert(headers.push((name, value)).drop_last() =~= headers);
}

/// The status of a response is the number in the second word of its first
/// line, wherever white space stands around the words; a second word that is
/// no number up to 65535 is no status.
pub proof fn lemma_status_is_second_word(
    before: Seq<char>,
    first: Seq<char>,
    between: Seq<char>,
    second: Seq<char>,
    rest: Seq<char>,
)
    requires
        forall|i: int| 0 <= i < before.len() ==> is_white(#[trigger] before[i]),
        forall|i: int| 0 <= i < first.len() ==> !is_white(#[trigger] first[i]),
        forall|i: int| 0 <= i < between.len() ==> is_white(#[trigger] between[i]),
        forall|i: int| 0 <= i < second.len() ==> !is_white(#[trigger] second[i]),
        first.len() > 0,
        between.len() > 0,
        second.len() > 0,
        rest.len() > 0 ==> is_white(rest[0]),
    ensures
        status_of(before + first + between + second + rest) == unsigned(second, 65_535),
{
    let tail = between + second + rest;
    assert(before + first + between + second + rest =~= before + first + tail);
    assert(is_white(between[0]));
    lemma_first_word(before, first, tail);
    lemma_first_word(between, second, rest);
}

/// A status line is read as it was written, for every status.
pub proof fn lemma_status_round_trip(version: Seq<char>, status: nat, reason: Seq<char>)
    requires
        version.len() > 0,
        forall|i: int| 0 <= i < version.len() ==> !is_white(#[trigger] version[i]),
    ensures
        status_of(version + seq![' '] + decimal(status) + seq![' '] + reason) == (if status <= 65_535 {
            Some(status)
        } else {
            None
        }),
{
    let number = decimal(status);
    lemma_decimal_round_trip(status);
    assert forall|i: int| 0 <= i < number.len() implies !is_white(#[trigger] number[i]) by {
        assert(is_digit(number[i]));
    }
    let none = Seq::<char>::empty();
    lemma_status_is_second_word(none, version, seq![' '], number, seq![' '] + reason);
    assert(none + version + seq![' '] + number + (seq![' '] + reason) =~= version + seq![' '] + number + seq![' ']
        + reason);
    assert(unsigned_digits(number) == number);
}

/// A line that lacks a second word has no status.
pub proof fn lemma_no_status(line: Seq<char>)
    requires
        first_word(first_word(line).1).0.len() == 0,
    ensures
        status_of(line) is None,
{
    lemma_number_is_read(Seq::<char>::empty(), '0', 0, 0, 65_535);
    assert(first_word(first_word(line).1).0 =~= Seq::<char>::empty());
}

/// A header line is cut at its first colon: what stands in front of it is the
/// name, in small letters, what follows is the value, both without the white
/// space around them. A line without a colon is no header.
pub proof fn lemma_header_is_cut(before: Seq<char>, after: Seq<char>)
    requires
        !before.contains(':'),
    ensures
        header_of(before + seq![':'] + after) == Some((lower(trim(before)), trim(trim_end(after)))),
        header_of(before) is None,
{
    let line = before + seq![':'] + after;
    let t = before + seq![':'] + trim_end(after);
    lemma_trim_end(line);
    lemma_trim_end(after);
    let n = trim_end(after).len();
    let m = trim_end(line).len();
    if m > t.len() {
        let k = m - 1 - before.len() - 1;
        assert(line[m - 1] == after[k]);
        assert(is_white(after[k]));
    }
    if m < t.len() {
        assert(is_white(line[t.len() - 1]));
        if n > 0 {
            assert(line[t.len() - 1] == after[n - 1]);
            assert(trim_end(after).last() == after[n - 1]);
        }
    }
    assert(trim_end(line) =~= t);
    lemma_find_char(t, ':');
    let i = find_char(t, ':');
    assert(t[before.len() as int] == ':');
    if i < before.len() {
        assert(before[i] == ':');
    }
    assert(t.take(i) =~= before);
    assert(t.skip(i + 1) =~= trim_end(after));
    lemma_trim_end(before);
    let b = trim_end(before);
    lemma_find_char(b, ':');
    if find_char(b, ':') < b.len() {
        assert(before[find_char(b, ':')] == ':');
    }
}

/// The head of a response ends with a line of nothing but white space, or with
/// the stream.
pub proof fn lemma_head_ends(line: Seq<char>)
    ensures
        ends_head(None),
        ends_head(Some(line)) <==> (forall|i: int| 0 <= i < line.len() ==> is_white(#[trigger] line[i])),
{
    lemma_trim_end(line);
    if forall|i: int| 0 <= i < line.len() ==> is_white(#[trigger] line[i]) {
        let t = trim_end(line);
        if t.len() > 0 {
            assert(is_white(line[t.len() - 1]));
        }
    }
}

/// A line adds its header, if it is one, and changes nothing else.
pub proof fn lemma_line_adds_header(r: ResponseView, line: Seq<char>)
    ensures
        with_line(r, line).status == r.status,
        with_line(r, line).body == r.body,
        with_line(r, line).headers == match header_of(line) {
            Some(h) => r.headers.push(h),
            None => r.headers,
        },
        lookup(Seq::<(Seq<char>, Seq<char>)>::empty(), line) is None,
{
}

/// As many bytes follow the head as its last Content-Length says, and none
/// where it has none or that is no number.
pub proof fn lemma_body_follows(r: ResponseView, n: nat)
    ensures
        lookup(r.headers, "content-length"@) is None ==> body_length(r) == 0,
        lookup(r.headers, "content-length"@) matches Some(v) ==> body_length(r) == (match unsigned(
            v,
            usize::MAX as nat,
        ) {
            Some(k) => k,
            None => 0,
        }),
        n <= usize::MAX && lookup(r.headers, "content-length"@) == Some(decimal(n)) ==> body_length(r) == n,
{
    lemma_decimal_round_trip(n);
}

/// A refusal names the method and the status.
pub proof fn lemma_refusal_text(e: RtspError)
    ensures
        e matches RtspError::Refused { method, status } ==> error_text(e) == method@ + " failed: RTSP status "@
            + decimal(status as nat),
        e is ConnectionClosed ==> error_text(e) == "connection closed by device"@,
        e is BadStatusLine ==> error_text(e) == "bad status line"@,
        e is MissingTransport ==> error_text(e) == "SETUP missing Transport"@,
        e is NoServerPort ==> error_text(e) == "no server_port"@,
        e is NoControlPort ==> error_text(e) == "no control_port"@,
        e is NoTimingPort ==> error_text(e) == "no timing_port"@,
{
}

} // verus!
