//! The DNS wire format, as far as service discovery needs it: questions out,
//! names in.

use crate::bytes::{be16, lemma_be16_bytes, push_be16, push_bytes};
use crate::random::drawn16;
use crate::text::{chars_of, join, lemma_split_of_join, split, split_at_char, string_of, strings, texts};
use vstd::prelude::*;
use vstd::string::StringSliceAdditionalSpecFns;
use vstd::utf8::{decode_utf8, encode_utf8, encode_utf8_decode_utf8, encode_utf8_valid_utf8, valid_utf8};

verus! {

pub const TYPE_A: u16 = 1;

pub const TYPE_PTR: u16 = 12;

pub const TYPE_SRV: u16 = 33;

/// IN, with the unicast-response bit set.
pub const CLASS_IN_QU: u16 = 0x8001;

/// A domain name as a sequence of labels, kept unjoined so that a label that
/// holds a literal '.' (rare, but legal in DNS) is not taken for two.
pub type Labels = Vec<String>;

/// A domain name as a value.
pub type Name = Seq<Seq<char>>;

/// What `String::from_utf8_lossy` makes of bytes that are not valid UTF-8.
pub uninterp spec fn utf8_lossy(bytes: Seq<u8>) -> Seq<char>;

/// `String::from_utf8_lossy` decodes valid UTF-8. Of other bytes its result
/// has a name, which depends on them alone: where it puts replacement
/// characters is not spelled out.
#[verifier::external_body]
fn from_utf8_lossy(bytes: &[u8]) -> (s: String)
    ensures
        valid_utf8(bytes@) ==> s@ == decode_utf8(bytes@),
        !valid_utf8(bytes@) ==> s@ == utf8_lossy(bytes@),
{
    String::from_utf8_lossy(bytes).into_owned()
}

/// The text of a label's bytes.
pub open spec fn label_text(bytes: Seq<u8>) -> Seq<char> {
    if valid_utf8(bytes) {
        decode_utf8(bytes)
    } else {
        utf8_lossy(bytes)
    }
}

// ---------------------------------------------------------------------------
// Questions

/// A label: its length in bytes, of which a byte keeps the low part, and its
/// bytes.
pub open spec fn label_bytes(label: Seq<char>) -> Seq<u8> {
    seq![(encode_utf8(label).len() % 0x100) as u8] + encode_utf8(label)
}

/// The labels of a name, one after the other.
pub open spec fn labels_bytes(labels: Name) -> Seq<u8>
    decreases labels.len(),
{
    if labels.len() == 0 {
        Seq::<u8>::empty()
    } else {
        labels_bytes(labels.drop_last()) + label_bytes(labels.last())
    }
}

/// One question: the labels of the name, the type, and the class that asks for
/// a unicast reply.
pub open spec fn name_question_bytes(name: Name, qtype: u16) -> Seq<u8> {
    labels_bytes(name).push(0u8) + be16(qtype) + be16(CLASS_IN_QU)
}

/// All questions of a query.
pub open spec fn name_questions_bytes(questions: Seq<(Name, u16)>) -> Seq<u8>
    decreases questions.len(),
{
    if questions.len() == 0 {
        Seq::<u8>::empty()
    } else {
        name_questions_bytes(questions.drop_last()) + name_question_bytes(questions.last().0, questions.last().1)
    }
}

/// The head of a standard query with so many questions and nothing else.
pub open spec fn query_header(id: u16, count: nat) -> Seq<u8> {
    be16(id) + be16(0) + be16((count % 0x1_0000) as u16) + be16(0) + be16(0) + be16(0)
}

/// A query for names, label by label.
pub open spec fn names_query_bytes(id: u16, questions: Seq<(Name, u16)>) -> Seq<u8> {
    query_header(id, questions.len()) + name_questions_bytes(questions)
}

/// Questions whose names are cut into labels at their dots.
pub open spec fn cut(questions: Seq<(Seq<char>, u16)>) -> Seq<(Name, u16)> {
    questions.map_values(|q: (Seq<char>, u16)| (split(q.0, '.'), q.1))
}

/// A standard query with the given id, and nothing but questions.
pub open spec fn query_bytes(id: u16, questions: Seq<(Seq<char>, u16)>) -> Seq<u8> {
    names_query_bytes(id, cut(questions))
}

/// Questions as values.
pub open spec fn asked(questions: Seq<(&str, u16)>) -> Seq<(Seq<char>, u16)> {
    questions.map_values(|q: (&str, u16)| (q.0@, q.1))
}

/// Questions as values.
pub open spec fn asked_names(questions: Seq<(&[String], u16)>) -> Seq<(Name, u16)> {
    questions.map_values(|q: (&[String], u16)| (strings(q.0@), q.1))
}

fn push_label(msg: &mut Vec<u8>, label: &str)
    ensures
        final(msg)@ == old(msg)@ + label_bytes(label@),
{
    let bytes: &[u8] = label.as_bytes();
    let n: usize = bytes.len();
    assert(n as u8 == n % 0x100) by (bit_vector);
    msg.push(n as u8);
    push_bytes(msg, bytes);
    assert(msg@ =~= old(msg)@ + label_bytes(label@));
}

fn push_question(msg: &mut Vec<u8>, name: &[String], qtype: u16)
    ensures
        final(msg)@ == old(msg)@ + name_question_bytes(strings(name@), qtype),
{
    let ghost all = strings(name@);
    let mut i: usize = 0;
    assert(msg@ =~= old(msg)@ + labels_bytes(all.take(0)));
    while i < name.len()
        invariant
            i <= name@.len(),
            all == strings(name@),
            msg@ == old(msg)@ + labels_bytes(all.take(i as int)),
        decreases name@.len() - i,
    {
        push_label(msg, name[i].as_str());
        proof {
            assert(all.take(i + 1).drop_last() =~= all.take(i as int));
            assert(all.take(i + 1).last() == name@[i as int]@);
            assert(msg@ =~= old(msg)@ + labels_bytes(all.take(i + 1)));
        }
        i = i + 1;
    }
    assert(all.take(i as int) =~= all);
    msg.push(0);
    push_be16(msg, qtype);
    push_be16(msg, CLASS_IN_QU);
    assert(msg@ =~= old(msg)@ + name_question_bytes(all, qtype));
}

/// The labels of a name that is written with dots between them.
fn labels_of(name: &str) -> (labels: Labels)
    ensures
        strings(labels@) == split(name@, '.'),
{
    let parts: Vec<Vec<char>> = split_at_char(chars_of(name).as_slice(), '.');
    let mut labels: Labels = Vec::new();
    let mut i: usize = 0;
    while i < parts.len()
        invariant
            i <= parts@.len(),
            strings(labels@) == texts(parts@).take(i as int),
        decreases parts@.len() - i,
    {
        let label: String = string_of(parts[i].as_slice());
        let ghost before = strings(labels@);
        labels.push(label);
        assert(strings(labels@) =~= before.push(label@));
        assert(strings(labels@) =~= texts(parts@).take(i + 1));
        i = i + 1;
    }
    assert(strings(labels@) =~= texts(parts@));
    labels
}

/// The message with the head of a query.
fn begin_query(id: u16, count: usize) -> (msg: Vec<u8>)
    ensures
        msg@ == query_header(id, count as nat),
{
    let mut msg: Vec<u8> = Vec::with_capacity(64);
    assert(count as u16 == count % 0x1_0000) by (bit_vector);
    push_be16(&mut msg, id);
    push_be16(&mut msg, 0);  // flags: standard query
    push_be16(&mut msg, count as u16);
    push_be16(&mut msg, 0);  // ancount
    push_be16(&mut msg, 0);  // nscount
    push_be16(&mut msg, 0);  // arcount
    assert(msg@ =~= query_header(id, count as nat));
    msg
}

/// The query with the given id, for names that are given as labels.
pub fn name_query_with_id(id: u16, questions: &[(&[String], u16)]) -> (msg: Vec<u8>)
    ensures
        msg@ == names_query_bytes(id, asked_names(questions@)),
{
    let mut msg: Vec<u8> = begin_query(id, questions.len());
    let ghost head = msg@;
    let ghost all = asked_names(questions@);
    let mut i: usize = 0;
    assert(msg@ =~= head + name_questions_bytes(all.take(0)));
    while i < questions.len()
        invariant
            i <= questions@.len(),
            all == asked_names(questions@),
            msg@ == head + name_questions_bytes(all.take(i as int)),
        decreases questions@.len() - i,
    {
        let q: (&[String], u16) = questions[i];
        push_question(&mut msg, q.0, q.1);
        proof {
            assert(all.take(i + 1).drop_last() =~= all.take(i as int));
            assert(all.take(i + 1).last() == (strings(q.0@), q.1));
            assert(msg@ =~= head + name_questions_bytes(all.take(i + 1)));
        }
        i = i + 1;
    }
    assert(all.take(i as int) =~= all);
    msg
}

/// The query with the given id.
pub fn query_with_id(id: u16, questions: &[(&str, u16)]) -> (msg: Vec<u8>)
    ensures
        msg@ == query_bytes(id, asked(questions@)),
{
    let mut msg: Vec<u8> = begin_query(id, questions.len());
    let ghost head = msg@;
    let ghost all = cut(asked(questions@));
    let mut i: usize = 0;
    assert(msg@ =~= head + name_questions_bytes(all.take(0)));
    while i < questions.len()
        invariant
            i <= questions@.len(),
            all == cut(asked(questions@)),
            msg@ == head + name_questions_bytes(all.take(i as int)),
        decreases questions@.len() - i,
    {
        let q: (&str, u16) = questions[i];
        push_question(&mut msg, labels_of(q.0).as_slice(), q.1);
        proof {
            assert(all.take(i + 1).drop_last() =~= all.take(i as int));
            assert(all.take(i + 1).last() == (split(q.0@, '.'), q.1));
            assert(msg@ =~= head + name_questions_bytes(all.take(i + 1)));
        }
        i = i + 1;
    }
    assert(all.take(i as int) =~= all);
    msg
}

/// Whether `msg` asks `questions`, label by label, under some random id.
pub open spec fn asks(msg: Seq<u8>, questions: Seq<(Name, u16)>) -> bool {
    exists|id: u16| drawn16(id) && msg == #[trigger] names_query_bytes(id, questions)
}

/// Whether `msg` asks `questions`, under some random id.
pub open spec fn is_query(msg: Seq<u8>, questions: Seq<(Seq<char>, u16)>) -> bool {
    exists|id: u16| drawn16(id) && msg == #[trigger] query_bytes(id, questions)
}

/// A query with a random id.
pub fn build_query(questions: &[(&str, u16)]) -> (msg: Vec<u8>)
    ensures
        is_query(msg@, asked(questions@)),
{
    let id: u16 = rand::random();
    query_with_id(id, questions)
}

/// A query with a random id, for names that are given as labels.
pub fn build_name_query(questions: &[(&[String], u16)]) -> (msg: Vec<u8>)
    ensures
        asks(msg@, asked_names(questions@)),
{
    let id: u16 = rand::random();
    name_query_with_id(id, questions)
}

// ---------------------------------------------------------------------------
// Names

/// The name at `buf[at..]`, and where it ends there. A length byte of 0 ends
/// it, a byte from 0xC0 on points to where it goes on, any other one is the
/// length of a label. No more than 64 pointers are followed, `jumps` of them
/// already.
pub open spec fn name_at(buf: Seq<u8>, at: int, jumps: nat) -> Option<(Name, int)>
    decreases 64 - jumps, buf.len() - at,
{
    if !(0 <= at < buf.len()) {
        None
    } else if buf[at] == 0 {
        Some((Seq::<Seq<char>>::empty(), at + 1))
    } else if buf[at] >= 0xC0 {
        if at + 1 < buf.len() && jumps < 64 {
            match name_at(buf, (buf[at] - 0xC0) * 0x100 + buf[at + 1], jumps + 1) {
                Some((rest, _)) => Some((rest, at + 2)),
                None => None,
            }
        } else {
            None
        }
    } else {
        let end = at + 1 + buf[at];
        if end > buf.len() {
            None
        } else {
            match name_at(buf, end, jumps) {
                Some((rest, after)) => Some((seq![label_text(buf.subrange(at + 1, end))] + rest, after)),
                None => None,
            }
        }
    }
}

/// A name ends inside the message, behind where it starts.
pub proof fn lemma_name_ends(buf: Seq<u8>, at: int, jumps: nat)
    ensures
        name_at(buf, at, jumps) matches Some((_, end)) ==> at < end <= buf.len(),
    decreases 64 - jumps, buf.len() - at,
{
    if 0 <= at < buf.len() && 0 < buf[at] < 0xC0 && at + 1 + buf[at] <= buf.len() {
        lemma_name_ends(buf, at + 1 + buf[at], jumps);
    }
}

/// Read a DNS name at `buf[*pos..]`, following compression pointers, and
/// advance `*pos` past the (possibly compressed) name where it stands. Where
/// there is no name, `*pos` stays.
pub fn read_name(buf: &[u8], pos: &mut usize) -> (r: Option<Labels>)
    ensures
        match name_at(buf@, *old(pos) as int, 0) {
            Some((name, end)) => (r matches Some(labels) && strings(labels@) == name) && *final(pos) == end,
            None => r is None && *final(pos) == *old(pos),
        },
{
    let mut labels: Labels = Vec::new();
    let mut cur: usize = *pos;
    let mut after_pointer: Option<usize> = None;
    let mut jumps: u32 = 0;
    let ghost whole = name_at(buf@, *old(pos) as int, 0);
    proof {
        if let Some((rest, _)) = whole {
            assert(strings(labels@) + rest =~= rest);
        }
    }
    loop
        invariant
            jumps <= 64,
            *pos == *old(pos),
            whole == name_at(buf@, *old(pos) as int, 0),
            match name_at(buf@, cur as int, jumps as nat) {
                Some((rest, end)) => whole == Some(
                    (
                        strings(labels@) + rest,
                        match after_pointer {
                            Some(p) => p as int,
                            None => end,
                        },
                    ),
                ),
                None => whole is None,
            },
        decreases 64 - jumps, buf@.len() - cur,
    {
        if cur >= buf.len() {
            return None;
        }
        let len: u8 = buf[cur];
        assert((len & 0xC0 == 0xC0) == (len >= 0xC0)) by (bit_vector);
        assert(len >= 0xC0 ==> len & 0x3F == len - 0xC0) by (bit_vector);
        if len == 0 {
            assert(strings(labels@) + Seq::<Seq<char>>::empty() =~= strings(labels@));
            *pos = match after_pointer {
                Some(p) => p,
                None => cur + 1,
            };
            return Some(labels);
        } else if len & 0xC0 == 0xC0 {
            if cur + 1 >= buf.len() {
                return None;
            }
            let lo: u8 = buf[cur + 1];
            if after_pointer.is_none() {
                after_pointer = Some(cur + 2);
            }
            if jumps >= 64 {
                return None;  // guard against a pointer loop
            }
            jumps = jumps + 1;
            cur = (len & 0x3F) as usize * 0x100 + lo as usize;
        } else {
            let start: usize = cur + 1;
            if len as usize > buf.len() - start {
                return None;
            }
            let end: usize = start + len as usize;
            let label: String = from_utf8_lossy(&buf[start..end]);
            let ghost before = strings(labels@);
            labels.push(label);
            proof {
                assert(strings(labels@) =~= before.push(label@));
                if let Some((rest, _)) = name_at(buf@, end as int, jumps as nat) {
                    assert(strings(labels@) + rest =~= before + (seq![label@] + rest));
                }
            }
            cur = end;
        }
    }
}

// ---------------------------------------------------------------------------
// Writing and reading

proof fn lemma_labels_bytes_front(head: Seq<char>, rest: Name)
    ensures
        labels_bytes(seq![head] + rest) == label_bytes(head) + labels_bytes(rest),
    decreases rest.len(),
{
    let all = seq![head] + rest;
    if rest.len() == 0 {
        assert(all.drop_last() =~= Seq::<Seq<char>>::empty());
        assert(labels_bytes(all.drop_last()) =~= Seq::<u8>::empty());
        assert(labels_bytes(all) =~= label_bytes(head) + labels_bytes(rest));
    } else {
        assert(all.drop_last() =~= seq![head] + rest.drop_last());
        lemma_labels_bytes_front(head, rest.drop_last());
        assert(labels_bytes(all) =~= label_bytes(head) + labels_bytes(rest));
    }
}

/// Whether a label can be told from an end or a pointer on the wire.
pub open spec fn plain_label(label: Seq<char>) -> bool {
    0 < encode_utf8(label).len() < 0xC0
}

/// A name is read back as it was written, wherever it stands in a message.
pub proof fn lemma_name_round_trip(before: Seq<u8>, name: Name, after: Seq<u8>)
    requires
        forall|k: int| 0 <= k < name.len() ==> plain_label(#[trigger] name[k]),
    ensures
        name_at(before + labels_bytes(name).push(0u8) + after, before.len() as int, 0) == Some(
            (
                name,
                (before.len() + labels_bytes(name).len() + 1) as int,
            ),
        ),
    decreases name.len(),
{
    let buf = before + labels_bytes(name).push(0u8) + after;
    let at = before.len() as int;
    if name.len() == 0 {
        assert(buf[at] == 0u8);
        assert(name =~= Seq::<Seq<char>>::empty());
    } else {
        let head = name[0];
        let rest = name.skip(1);
        assert(name =~= seq![head] + rest);
        lemma_labels_bytes_front(head, rest);
        let n = encode_utf8(head).len();
        assert(plain_label(head));
        assert forall|k: int| 0 <= k < rest.len() implies plain_label(#[trigger] rest[k]) by {
            assert(rest[k] == name[k + 1]);
        }
        let further = before + label_bytes(head);
        lemma_name_round_trip(further, rest, after);
        assert(further + labels_bytes(rest).push(0u8) + after =~= buf);
        assert(buf[at] == label_bytes(head)[0]);
        assert(buf[at] == n);
        assert(buf.subrange(at + 1, at + 1 + n) =~= encode_utf8(head));
        encode_utf8_valid_utf8(head);
        encode_utf8_decode_utf8(head);
    }
}

/// A query that asks one question carries its name, at the start of the
/// question.
pub proof fn lemma_query_carries_name(id: u16, name: Seq<char>, qtype: u16)
    requires
        forall|k: int| 0 <= k < split(name, '.').len() ==> plain_label(#[trigger] split(name, '.')[k]),
    ensures
        name_at(query_bytes(id, seq![(name, qtype)]), 12, 0) == Some(
            (
                split(name, '.'),
                (12 + labels_bytes(split(name, '.')).len() + 1) as int,
            ),
        ),
{
    let questions = cut(seq![(name, qtype)]);
    let tail = be16(qtype) + be16(CLASS_IN_QU);
    assert(questions =~= seq![(split(name, '.'), qtype)]);
    assert(questions.drop_last() =~= Seq::<(Name, u16)>::empty());
    assert(name_questions_bytes(questions.drop_last()) =~= Seq::<u8>::empty());
    assert(name_questions_bytes(questions) =~= name_question_bytes(split(name, '.'), qtype));
    assert(query_bytes(id, seq![(name, qtype)]) =~= query_header(id, 1) + labels_bytes(split(name, '.')).push(0u8)
        + tail);
    lemma_name_round_trip(query_header(id, 1), split(name, '.'), tail);
}

// ---------------------------------------------------------------------------
// What is on the wire

/// A label on the wire is a byte with its length and its UTF-8 bytes; the
/// labels of a name follow each other.
pub proof fn lemma_labels_on_wire(labels: Name, last: Seq<char>)
    ensures
        labels_bytes(Seq::<Seq<char>>::empty()) == Seq::<u8>::empty(),
        labels_bytes(labels.push(last)) == labels_bytes(labels) + seq![
            (encode_utf8(last).len() % 256) as u8,
        ] + encode_utf8(last),
{
    assert(labels.push(last).drop_last() =~= labels);
    assert(labels_bytes(labels.push(last)) =~= labels_bytes(labels) + seq![
        (encode_utf8(last).len() % 256) as u8,
    ] + encode_utf8(last));
}

/// The head of a query: its id, no flags, how many questions follow, and three
/// zero counts.
pub proof fn lemma_query_head(id: u16, questions: Seq<(Name, u16)>)
    requires
        questions.len() < 65_536,
    ensures
        ({
            let q = names_query_bytes(id, questions);
            &&& q.len() >= 12
            &&& q[0] * 256 + q[1] == id
            &&& q[2] == 0 && q[3] == 0
            &&& q[4] * 256 + q[5] == questions.len()
            &&& q[6] == 0 && q[7] == 0 && q[8] == 0 && q[9] == 0 && q[10] == 0 && q[11] == 0
        }),
{
    let q = names_query_bytes(id, questions);
    let count = (questions.len() % 0x1_0000) as u16;
    lemma_be16_bytes(id, q, 0);
    lemma_be16_bytes(count, q, 4);
    assert(q[0] == be16(id)[0] && q[1] == be16(id)[1]);
    assert(q[4] == be16(count)[0] && q[5] == be16(count)[1]);
}

/// Behind the head stand the questions in order: each is the labels of its
/// name, a zero, its type, and class 1 with the unicast-response bit.
pub proof fn lemma_question_on_wire(id: u16, questions: Seq<(Name, u16)>, name: Name, qtype: u16)
    ensures
        names_query_bytes(id, Seq::<(Name, u16)>::empty()).len() == 12,
        names_query_bytes(id, questions.push((name, qtype))).skip(12) == names_query_bytes(id, questions).skip(12)
            + labels_bytes(name) + seq![0u8, (qtype / 256) as u8, (qtype % 256) as u8, 0x80u8, 0x01u8],
{
    let more = questions.push((name, qtype));
    assert(more.drop_last() =~= questions);
    assert(names_query_bytes(id, more).skip(12) =~= name_questions_bytes(more));
    assert(names_query_bytes(id, questions).skip(12) =~= name_questions_bytes(questions));
    assert(name_questions_bytes(more) =~= name_questions_bytes(questions) + labels_bytes(name) + seq![
        0u8,
        (qtype / 256) as u8,
        (qtype % 256) as u8,
        0x80u8,
        0x01u8,
    ]);
}

/// A query for a name that is written with dots is the one for its labels.
pub proof fn lemma_dots_separate_labels(id: u16, parts: Seq<Name>, types: Seq<u16>)
    requires
        parts.len() == types.len(),
        forall|k: int| 0 <= k < parts.len() ==> (#[trigger] parts[k]).len() > 0,
        forall|k: int, i: int|
            0 <= k < parts.len() && 0 <= i < parts[k].len() ==> !(#[trigger] parts[k][i]).contains('.'),
    ensures
        query_bytes(id, Seq::new(parts.len(), |k: int| (join(parts[k], '.'), types[k]))) == names_query_bytes(
            id,
            Seq::new(parts.len(), |k: int| (parts[k], types[k])),
        ),
{
    let dotted = Seq::new(parts.len(), |k: int| (join(parts[k], '.'), types[k]));
    let names = Seq::new(parts.len(), |k: int| (parts[k], types[k]));
    assert forall|k: int| 0 <= k < parts.len() implies cut(dotted)[k] == names[k] by {
        lemma_split_of_join(parts[k], '.');
    }
    assert(cut(dotted) =~= names);
}

/// How a name is read, byte by byte. A zero ends it. A byte below 0xC0 is the
/// length of a label, which the rest of the name follows.
pub proof fn lemma_name_is_read(buf: Seq<u8>, at: int, jumps: nat)
    requires
        0 <= at < buf.len(),
    ensures
        buf[at] == 0 ==> name_at(buf, at, jumps) == Some((Seq::<Seq<char>>::empty(), at + 1)),
        0 < buf[at] < 0xC0 && at + 1 + buf[at] > buf.len() ==> name_at(buf, at, jumps) is None,
        0 < buf[at] < 0xC0 && at + 1 + buf[at] <= buf.len() ==> match name_at(buf, at + 1 + buf[at], jumps) {
            Some((rest, end)) => name_at(buf, at, jumps) == Some(
                (seq![label_text(buf.subrange(at + 1, at + 1 + buf[at]))] + rest, end),
            ),
            None => name_at(buf, at, jumps) is None,
        },
{
}

/// A byte from 0xC0 on and the one behind it are a pointer: the name goes on
/// where they point to, and ends behind them. The 65th pointer is not
/// followed.
pub proof fn lemma_pointer_is_followed(buf: Seq<u8>, at: int, jumps: nat)
    requires
        0 <= at,
        at + 1 < buf.len(),
        buf[at] >= 0xC0,
    ensures
        jumps >= 64 ==> name_at(buf, at, jumps) is None,
        jumps < 64 ==> match name_at(buf, (buf[at] - 192) * 256 + buf[at + 1], jumps + 1) {
            Some((rest, _)) => name_at(buf, at, jumps) == Some((rest, at + 2)),
            None => name_at(buf, at, jumps) is None,
        },
{
}

/// There is no name beyond the end of a message, nor half a pointer.
pub proof fn lemma_no_name_beyond(buf: Seq<u8>, at: int, jumps: nat)
    ensures
        at < 0 || at >= buf.len() ==> name_at(buf, at, jumps) is None,
        0 <= at && at + 1 == buf.len() && buf[at] >= 0xC0 ==> name_at(buf, at, jumps) is None,
{
}

/// A compressed name is the same as a written one: labels and a pointer to a
/// name read as the labels and that name.
pub proof fn lemma_compressed_name(buf: Seq<u8>, at: int, label: Seq<char>, target: int, rest: Name, end: int)
    requires
        plain_label(label),
        0 <= at,
        at + 1 + encode_utf8(label).len() + 2 <= buf.len(),
        0 <= target < 0x4000,
        buf[at] == encode_utf8(label).len(),
        buf.subrange(at + 1, at + 1 + encode_utf8(label).len()) == encode_utf8(label),
        buf[at + 1 + encode_utf8(label).len()] == 0xC0 + target / 256,
        buf[at + 2 + encode_utf8(label).len()] == target % 256,
        name_at(buf, target, 1) == Some((rest, end)),
    ensures
        name_at(buf, at, 0) == Some((seq![label] + rest, at + 3 + encode_utf8(label).len())),
{
    let n = encode_utf8(label).len() as int;
    encode_utf8_valid_utf8(label);
    encode_utf8_decode_utf8(label);
    lemma_name_is_read(buf, at, 0);
    lemma_pointer_is_followed(buf, at + 1 + n, 0);
    assert((buf[at + 1 + n] - 192) * 256 + buf[at + 2 + n] == target);
}

/// A message that points to itself holds no name there.
pub proof fn lemma_pointer_loop_ends(buf: Seq<u8>, at: int, jumps: nat)
    requires
        0 <= at,
        at + 1 < buf.len(),
        buf[at] >= 0xC0,
        (buf[at] - 192) * 256 + buf[at + 1] == at,
    ensures
        name_at(buf, at, jumps) is None,
    decreases 64 - jumps,
{
    lemma_pointer_is_followed(buf, at, jumps);
    if jumps < 64 {
        lemma_pointer_loop_ends(buf, at, jumps + 1);
    }
}

/// A label is decoded as UTF-8.
pub proof fn lemma_label_text(label: Seq<char>)
    ensures
        label_text(encode_utf8(label)) == label,
{
    encode_utf8_valid_utf8(label);
    encode_utf8_decode_utf8(label);
}

/// Questions stand for their names and types.
pub proof fn lemma_questions(a: Seq<(&str, u16)>, b: Seq<(&[String], u16)>)
    ensures
        asked(a).len() == a.len(),
        asked_names(b).len() == b.len(),
        forall|i: int| 0 <= i < a.len() ==> #[trigger] asked(a)[i] == (a[i].0@, a[i].1),
        forall|i: int| 0 <= i < b.len() ==> #[trigger] asked_names(b)[i] == (strings(b[i].0@), b[i].1),
{
}

} // verus!
