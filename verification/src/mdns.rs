//! Minimal one-shot mDNS-SD resolver for `_raop._tcp` (RFC 6762/6763), just
//! enough to turn a friendly AirPlay instance name (e.g. "Kontoret") into an
//! address and a port.
//!
//! Queries request a *unicast* reply (the "QU" bit on the question's class)
//! so that an ephemeral UDP port will do for listening. A compliant responder
//! answers a `_raop._tcp.local` PTR query with the PTR plus the matching
//! SRV/A records bundled in as additional data (RFC 6763 section 12), so one
//! round trip is normally enough; for a responder that omits them there is
//! one bounded follow-up query for just that instance's SRV and A.

use crate::bytes::{be16, be16_at, be32, lemma_be16_bytes, read_be16};
use crate::dns::{
    asked_names, asks, build_name_query, build_query, cut, is_query, labels_bytes, lemma_name_ends,
    lemma_name_round_trip, name_at, name_question_bytes, name_questions_bytes, names_query_bytes, plain_label,
    query_bytes, query_header, read_name, Labels, Name, CLASS_IN_QU, TYPE_A, TYPE_PTR, TYPE_SRV,
};
use crate::text::{
    after_first, chars_of, join, join_strings, lemma_after_first, lemma_split_of_join, lower, lowered, rest_after,
    same_chars, strings,
};
use vstd::prelude::*;

verus! {

pub const SERVICE: &'static str = "_raop._tcp.local";

// ---------------------------------------------------------------------------
// A table with names for keys

/// A list of entries, of which no two have the same name.
struct NameMap<V> {
    entries: Vec<(Labels, V)>,
}

impl<V> NameMap<V> {
    spec fn key(self, i: int) -> Name {
        strings(self.entries@[i].0@)
    }

    spec fn has(self, i: int, name: Name) -> bool {
        0 <= i < self.entries@.len() && self.key(i) == name
    }

    spec fn wf(self) -> bool {
        forall|i: int, j: int|
            0 <= i < self.entries@.len() && 0 <= j < self.entries@.len() && #[trigger] self.key(i)
                == #[trigger] self.key(j) ==> i == j
    }

    spec fn view(self) -> Map<Name, V> {
        Map::new(
            |k: Name| exists|i: int| #[trigger] self.has(i, k),
            |k: Name| self.entries@[choose|i: int| #[trigger] self.has(i, k)].1,
        )
    }

    proof fn lemma_entry(self, i: int)
        requires
            self.wf(),
            0 <= i < self.entries@.len(),
        ensures
            self.view().contains_key(self.key(i)),
            self.view()[self.key(i)] == self.entries@[i].1,
    {
        assert(self.has(i, self.key(i)));
        let j = choose|j: int| #[trigger] self.has(j, self.key(i));
        assert(self.key(j) == self.key(i));
    }

    fn new() -> (m: Self)
        ensures
            m.wf(),
            m.view() == Map::<Name, V>::empty(),
    {
        let m = NameMap { entries: Vec::new() };
        assert(m.view() =~= Map::<Name, V>::empty());
        m
    }

    /// Where the entry for `name` is; the number of entries, where there is none.
    fn position(&self, name: &Labels) -> (i: usize)
        requires
            self.wf(),
        ensures
            i <= self.entries@.len(),
            i < self.entries@.len() ==> self.key(i as int) == strings(name@),
            i < self.entries@.len() <==> self.view().contains_key(strings(name@)),
    {
        let mut i: usize = 0;
        while i < self.entries.len()
            invariant
                self.wf(),
                i <= self.entries@.len(),
                forall|j: int| 0 <= j < i ==> #[trigger] self.key(j) != strings(name@),
            decreases self.entries@.len() - i,
        {
            if same_name(&self.entries[i].0, name) {
                proof {
                    self.lemma_entry(i as int);
                }
                return i;
            }
            i = i + 1;
        }
        proof {
            if self.view().contains_key(strings(name@)) {
                let j = choose|j: int| #[trigger] self.has(j, strings(name@));
                assert(self.key(j) == strings(name@));
            }
        }
        i
    }

    fn get(&self, name: &Labels) -> (r: Option<&V>)
        requires
            self.wf(),
        ensures
            r is Some <==> self.view().contains_key(strings(name@)),
            r matches Some(v) ==> *v == self.view()[strings(name@)],
    {
        let i: usize = self.position(name);
        if i < self.entries.len() {
            proof {
                self.lemma_entry(i as int);
            }
            Some(&self.entries[i].1)
        } else {
            None
        }
    }

    fn insert(&mut self, name: Labels, value: V)
        requires
            old(self).wf(),
        ensures
            final(self).wf(),
            final(self).view() == old(self).view().insert(strings(name@), value),
    {
        let i: usize = self.position(&name);
        let ghost k = strings(name@);
        let ghost before = *self;
        if i < self.entries.len() {
            self.entries.set(i, (name, value));
        } else {
            self.entries.push((name, value));
        }
        proof {
            let after = *self;
            assert(after.key(i as int) == k);
            assert forall|j: int| 0 <= j < before.entries@.len() && j != i implies #[trigger] after.key(j)
                == before.key(j) by {}
            assert forall|a: int, b: int|
                0 <= a < after.entries@.len() && 0 <= b < after.entries@.len() && #[trigger] after.key(a)
                    == #[trigger] after.key(b) implies a == b by {
                if a != i && b != i {
                    assert(before.key(a) == before.key(b));
                } else if a != b {
                    let o = if a == i { b } else { a };
                    assert(before.key(o) == k);
                    before.lemma_entry(o);
                }
            }
            assert forall|n: Name| after.view().contains_key(n) <==> before.view().insert(k, value).contains_key(n) by {
                if n == k {
                    after.lemma_entry(i as int);
                } else {
                    if after.view().contains_key(n) {
                        let j = choose|j: int| #[trigger] after.has(j, n);
                        assert(before.key(j) == n);
                        before.lemma_entry(j);
                    }
                    if before.view().contains_key(n) {
                        let j = choose|j: int| #[trigger] before.has(j, n);
                        assert(after.key(j) == n);
                        after.lemma_entry(j);
                    }
                }
            }
            assert forall|n: Name| #[trigger] after.view().contains_key(n) implies after.view()[n]
                == before.view().insert(k, value)[n] by {
                let j = choose|j: int| #[trigger] after.has(j, n);
                after.lemma_entry(j);
                if j != i {
                    assert(before.key(j) == n);
                    before.lemma_entry(j);
                    assert(n != k);
                } else {
                    assert(n == k);
                }
            }
            assert(after.view() =~= before.view().insert(k, value));
        }
    }
}

/// Whether two names are the same, label by label.
fn same_name(a: &Labels, b: &Labels) -> (r: bool)
    ensures
        r == (strings(a@) == strings(b@)),
{
    assert(strings(a@).len() == a@.len() && strings(b@).len() == b@.len());
    if a.len() != b.len() {
        return false;
    }
    let mut i: usize = 0;
    while i < a.len()
        invariant
            i <= a@.len(),
            a@.len() == b@.len(),
            forall|j: int| 0 <= j < i ==> #[trigger] strings(a@)[j] == strings(b@)[j],
        decreases a@.len() - i,
    {
        if a[i] != b[i] {
            assert(strings(a@)[i as int] != strings(b@)[i as int]);
            return false;
        }
        i = i + 1;
    }
    assert(strings(a@) =~= strings(b@));
    true
}

// ---------------------------------------------------------------------------
// Messages

/// A resource record: its owner, its type, and where its data stands.
pub struct Record {
    pub name: Name,
    pub rtype: u16,
    pub at: int,
    pub len: int,
}

/// The record at `buf[pos..]`, and where the next one begins. After the name
/// there are 10 more bytes, of which the first two are the type and the last
/// two the length of the data behind them.
pub open spec fn record_at(buf: Seq<u8>, pos: int) -> Option<(Record, int)> {
    match name_at(buf, pos, 0) {
        Some((name, p)) => {
            let len = be16_at(buf, p + 8) as int;
            if p + 10 <= buf.len() && p + 10 + len <= buf.len() {
                Some((Record { name, rtype: be16_at(buf, p), at: p + 10, len }, p + 10 + len))
            } else {
                None
            }
        },
        None => None,
    }
}

/// Up to `n` records from `pos` on: those in front of the first malformed one.
pub open spec fn records_from(buf: Seq<u8>, pos: int, n: nat) -> Seq<Record>
    decreases n,
{
    if n == 0 {
        Seq::<Record>::empty()
    } else {
        match record_at(buf, pos) {
            Some((record, next)) => seq![record] + records_from(buf, next, (n - 1) as nat),
            None => Seq::<Record>::empty(),
        }
    }
}

/// Where the `n` questions at `pos` end: each is a name and four bytes.
pub open spec fn questions_end(buf: Seq<u8>, pos: int, n: nat) -> Option<int>
    decreases n,
{
    if n == 0 {
        Some(pos)
    } else {
        match name_at(buf, pos, 0) {
            Some((_, p)) => if p + 4 <= buf.len() {
                questions_end(buf, p + 4, (n - 1) as nat)
            } else {
                None
            },
            None => None,
        }
    }
}

/// The records of a message: answers, authorities and additional ones alike.
pub open spec fn message_records(buf: Seq<u8>) -> Seq<Record> {
    if buf.len() < 12 {
        Seq::<Record>::empty()
    } else {
        match questions_end(buf, 12, be16_at(buf, 4) as nat) {
            Some(pos) => records_from(
                buf,
                pos,
                (be16_at(buf, 6) + be16_at(buf, 8) + be16_at(buf, 10)) as nat,
            ),
            None => Seq::<Record>::empty(),
        }
    }
}

// ---------------------------------------------------------------------------
// What has been heard

/// The records heard so far: instance names in the order of their arrival,
/// the port and the host of an instance, the address of a host.
pub struct DbView {
    pub ptr: Seq<Name>,
    pub srv: Map<Name, (u16, Name)>,
    pub a: Map<Name, Seq<u8>>,
}

/// What one record adds. Data that does not hold what its type asks for adds
/// nothing.
pub open spec fn learned(db: DbView, buf: Seq<u8>, r: Record) -> DbView {
    if r.rtype == TYPE_PTR {
        match name_at(buf, r.at, 0) {
            Some((target, _)) => DbView { ptr: db.ptr.push(target), ..db },
            None => db,
        }
    } else if r.rtype == TYPE_SRV && r.len >= 6 {
        match name_at(buf, r.at + 6, 0) {
            Some((target, _)) => DbView { srv: db.srv.insert(r.name, (be16_at(buf, r.at + 4), target)), ..db },
            None => db,
        }
    } else if r.rtype == TYPE_A && r.len == 4 {
        DbView { a: db.a.insert(r.name, buf.subrange(r.at, r.at + 4)), ..db }
    } else {
        db
    }
}

/// What some records add, one after the other.
pub open spec fn learned_all(db: DbView, buf: Seq<u8>, rs: Seq<Record>) -> DbView
    decreases rs.len(),
{
    if rs.len() == 0 {
        db
    } else {
        learned(learned_all(db, buf, rs.drop_last()), buf, rs.last())
    }
}

/// What a message adds.
pub open spec fn ingested(db: DbView, buf: Seq<u8>) -> DbView {
    learned_all(db, buf, message_records(buf))
}

/// The records heard so far.
pub struct RecordDb {
    ptr: Vec<Labels>,
    srv: NameMap<(u16, Labels)>,
    a: NameMap<[u8; 4]>,
}

impl View for RecordDb {
    type V = DbView;

    closed spec fn view(&self) -> DbView {
        DbView {
            ptr: self.ptr@.map_values(|l: Labels| strings(l@)),
            srv: self.srv.view().map_values(|v: (u16, Labels)| (v.0, strings(v.1@))),
            a: self.a.view().map_values(|v: [u8; 4]| v@),
        }
    }
}

impl RecordDb {
    pub closed spec fn wf(&self) -> bool {
        self.srv.wf() && self.a.wf()
    }

    /// Nothing heard yet.
    pub fn new() -> (db: Self)
        ensures
            db.wf(),
            db@ == (DbView { ptr: Seq::empty(), srv: Map::empty(), a: Map::empty() }),
    {
        let db = RecordDb { ptr: Vec::new(), srv: NameMap::new(), a: NameMap::new() };
        assert(db@.ptr =~= Seq::empty());
        assert(db@.srv =~= Map::empty());
        assert(db@.a =~= Map::empty());
        db
    }

    fn add_ptr(&mut self, target: Labels)
        requires
            old(self).wf(),
        ensures
            final(self).wf(),
            final(self)@ == (DbView { ptr: old(self)@.ptr.push(strings(target@)), ..old(self)@ }),
    {
        self.ptr.push(target);
        assert(self@.ptr =~= old(self)@.ptr.push(strings(target@)));
    }

    fn add_srv(&mut self, name: Labels, port: u16, target: Labels)
        requires
            old(self).wf(),
        ensures
            final(self).wf(),
            final(self)@ == (DbView {
                srv: old(self)@.srv.insert(strings(name@), (port, strings(target@))),
                ..old(self)@
            }),
    {
        self.srv.insert(name, (port, target));
        assert(self@.srv =~= old(self)@.srv.insert(strings(name@), (port, strings(target@))));
    }

    fn add_a(&mut self, name: Labels, addr: [u8; 4])
        requires
            old(self).wf(),
        ensures
            final(self).wf(),
            final(self)@ == (DbView { a: old(self)@.a.insert(strings(name@), addr@), ..old(self)@ }),
    {
        self.a.insert(name, addr);
        assert(self@.a =~= old(self)@.a.insert(strings(name@), addr@));
    }

    /// Take in one record, whose data is `buf[at..at + len]`.
    fn learn(&mut self, buf: &[u8], name: Labels, rtype: u16, at: usize, len: usize)
        requires
            old(self).wf(),
            at + len <= buf@.len(),
        ensures
            final(self).wf(),
            final(self)@ == learned(
                old(self)@,
                buf@,
                (Record { name: strings(name@), rtype, at: at as int, len: len as int }),
            ),
    {
        assert(buf.len() == buf@.len());
        if rtype == TYPE_PTR {
            let mut p: usize = at;
            if let Some(target) = read_name(buf, &mut p) {
                self.add_ptr(target);
            }
        } else if rtype == TYPE_SRV && len >= 6 {
            let port: u16 = read_be16(buf, at + 4);
            let mut p: usize = at + 6;
            if let Some(target) = read_name(buf, &mut p) {
                self.add_srv(name, port, target);
            }
        } else if rtype == TYPE_A && len == 4 {
            let addr: [u8; 4] = [buf[at], buf[at + 1], buf[at + 2], buf[at + 3]];
            assert(addr@ =~= buf@.subrange(at as int, at + 4));
            self.add_a(name, addr);
        }
    }

    /// Take in a message. What is malformed, and what follows it, adds
    /// nothing.
    pub fn ingest(&mut self, buf: &[u8])
        requires
            old(self).wf(),
        ensures
            final(self).wf(),
            final(self)@ == ingested(old(self)@, buf@),
    {
        if buf.len() < 12 {
            return;
        }
        let size: usize = buf.len();
        let qdcount: u16 = read_be16(buf, 4);
        let ancount: u16 = read_be16(buf, 6);
        let nscount: u16 = read_be16(buf, 8);
        let arcount: u16 = read_be16(buf, 10);

        let mut pos: usize = 12;
        let mut q: u16 = 0;
        while q < qdcount
            invariant
                q <= qdcount,
                pos <= size == buf@.len(),
                self.wf(),
                *self == *old(self),
                size >= 12,
                qdcount == be16_at(buf@, 4),
                questions_end(buf@, 12, qdcount as nat) == questions_end(buf@, pos as int, (qdcount - q) as nat),
            decreases qdcount - q,
        {
            proof {
                lemma_name_ends(buf@, pos as int, 0);
            }
            if read_name(buf, &mut pos).is_none() || size - pos < 4 {
                assert(message_records(buf@) =~= Seq::<Record>::empty());
                return;
            }
            pos = pos + 4;  // qtype + qclass
            q = q + 1;
        }

        let total: u32 = ancount as u32 + nscount as u32 + arcount as u32;
        let mut i: u32 = 0;
        let ghost mut done: Seq<Record> = Seq::<Record>::empty();
        proof {
            assert(done + message_records(buf@) =~= message_records(buf@));
        }
        while i < total
            invariant
                self.wf(),
                i <= total,
                pos <= size == buf@.len(),
                message_records(buf@) == done + records_from(buf@, pos as int, (total - i) as nat),
                self@ == learned_all(old(self)@, buf@, done),
            decreases total - i,
        {
            proof {
                lemma_name_ends(buf@, pos as int, 0);
            }
            let ghost start = pos as int;
            let name: Labels = match read_name(buf, &mut pos) {
                Some(n) => n,
                None => {
                    assert(message_records(buf@) =~= done);
                    return;
                },
            };
            if size - pos < 10 {
                assert(message_records(buf@) =~= done);
                return;
            }
            let rtype: u16 = read_be16(buf, pos);
            let rdlen: usize = read_be16(buf, pos + 8) as usize;  // behind rclass and ttl
            pos = pos + 10;
            if rdlen > size - pos {
                assert(message_records(buf@) =~= done);
                return;
            }
            let ghost record = Record { name: strings(name@), rtype, at: pos as int, len: rdlen as int };
            self.learn(buf, name, rtype, pos, rdlen);
            pos = pos + rdlen;
            proof {
                let rest = records_from(buf@, pos as int, (total - i - 1) as nat);
                assert(record_at(buf@, start) == Some((record, pos as int)));
                assert(done + (seq![record] + rest) =~= done.push(record) + rest);
                assert(done.push(record).drop_last() =~= done);
                done = done.push(record);
            }
            i = i + 1;
        }
        assert(message_records(buf@) =~= done);
    }
}

// ---------------------------------------------------------------------------
// Looking for a name

/// A speaker that was found.
pub struct Discovered {
    pub addr: [u8; 4],
    pub port: u16,
    pub instance: String,
}

/// A `Discovered` as a value.
pub struct DiscoveredView {
    pub addr: Seq<u8>,
    pub port: u16,
    pub instance: Seq<char>,
}

impl View for Discovered {
    type V = DiscoveredView;

    open spec fn view(&self) -> DiscoveredView {
        DiscoveredView { addr: self.addr@, port: self.port, instance: self.instance@ }
    }
}

/// Whether an instance goes by `name`: its first label, without a device id
/// in front of the first '@', is the same but for the case of ASCII letters.
pub open spec fn goes_by(instance: Name, name: Seq<char>) -> bool {
    instance.len() > 0 && lower(after_first(instance[0], '@')) == lower(name)
}

/// The first of the instances that goes by `name`.
pub open spec fn first_match(ptr: Seq<Name>, name: Seq<char>) -> Option<Name>
    decreases ptr.len(),
{
    if ptr.len() == 0 {
        None
    } else if goes_by(ptr[0], name) {
        Some(ptr[0])
    } else {
        first_match(ptr.skip(1), name)
    }
}

/// The speaker that goes by `name`, if all there is to know of it has been
/// heard.
pub open spec fn found(db: DbView, name: Seq<char>) -> Option<DiscoveredView> {
    match first_match(db.ptr, name) {
        Some(instance) => if db.srv.contains_key(instance) && db.a.contains_key(db.srv[instance].1) {
            Some(
                DiscoveredView {
                    addr: db.a[db.srv[instance].1],
                    port: db.srv[instance].0,
                    instance: join(instance, '.'),
                },
            )
        } else {
            None
        },
        None => None,
    }
}

/// `instance` is e.g. `["AABBCCDDEEFF@Kontoret", "_raop", "_tcp", "local"]`.
/// The friendly name is the first label with any "xx@" device-id prefix
/// stripped.
pub fn friendly_matches(instance: &[String], name: &str) -> (r: bool)
    ensures
        r == goes_by(strings(instance@), name@),
{
    if instance.len() == 0 {
        return false;
    }
    let first: Vec<char> = chars_of(instance[0].as_str());
    assert(strings(instance@)[0] == first@);
    let friendly: Vec<char> = lowered(rest_after(first.as_slice(), '@'));
    let wanted: Vec<char> = lowered(chars_of(name).as_slice());
    same_chars(friendly.as_slice(), wanted.as_slice())
}

impl RecordDb {
    /// Where the first instance is that goes by `name`; the number of
    /// instances, where there is none.
    fn first_index(&self, name: &str) -> (i: usize)
        ensures
            i <= self.ptr@.len(),
            i < self.ptr@.len() ==> first_match(self@.ptr, name@) == Some(strings(self.ptr@[i as int]@)),
            i == self.ptr@.len() ==> first_match(self@.ptr, name@) is None,
    {
        let ghost all = self@.ptr;
        let mut i: usize = 0;
        assert(all.skip(0) =~= all);
        while i < self.ptr.len()
            invariant
                i <= self.ptr@.len(),
                all == self@.ptr,
                all.len() == self.ptr@.len(),
                first_match(all, name@) == first_match(all.skip(i as int), name@),
            decreases self.ptr@.len() - i,
        {
            assert(all.skip(i as int)[0] == strings(self.ptr@[i as int]@));
            if friendly_matches(self.ptr[i].as_slice(), name) {
                return i;
            }
            assert(all.skip(i as int).skip(1) =~= all.skip(i + 1));
            i = i + 1;
        }
        i
    }

    /// The speaker that goes by `name`.
    pub fn find(&self, name: &str) -> (r: Option<Discovered>)
        requires
            self.wf(),
        ensures
            r is Some <==> found(self@, name@) is Some,
            r matches Some(d) ==> found(self@, name@) == Some(d@),
    {
        let i: usize = self.first_index(name);
        if i >= self.ptr.len() {
            return None;
        }
        let instance: &Labels = &self.ptr[i];
        match self.srv.get(instance) {
            Some((port, target)) => match self.a.get(target) {
                Some(addr) => Some(
                    Discovered { addr: *addr, port: *port, instance: join_strings(instance.as_slice(), '.') },
                ),
                None => None,
            },
            None => None,
        }
    }

    /// The full name of the instance that goes by `name`.
    pub fn matching_instance(&self, name: &str) -> (r: Option<String>)
        ensures
            r is Some <==> first_match(self@.ptr, name@) is Some,
            r matches Some(s) ==> s@ == join(first_match(self@.ptr, name@)->0, '.'),
    {
        let i: usize = self.first_index(name);
        if i >= self.ptr.len() {
            return None;
        }
        Some(join_strings(self.ptr[i].as_slice(), '.'))
    }
}

// ---------------------------------------------------------------------------
// The resolver

/// How long the first query is listened for, in milliseconds.
pub const BROWSE_MS: u64 = 3000;

/// How long the follow-up query is listened for, in milliseconds.
pub const FOLLOW_UP_MS: u64 = 500;

/// Which query is out.
#[derive(Clone, Copy, PartialEq, Eq, Structural)]
pub enum Phase {
    /// All instances of the service were asked for.
    Browsing,
    /// The details of one instance were asked for.
    Asking,
}

/// What happens to a resolver.
pub enum Event {
    /// A datagram came in.
    Datagram(Vec<u8>),
    /// The time for the current query is over.
    Expired,
}

/// What a resolver does next.
pub enum Action {
    /// Go on listening.
    Listen,
    /// Send this query and listen for `FOLLOW_UP_MS`.
    Ask(Vec<u8>),
    /// The speaker was found.
    Found(Discovered),
    /// There is no such speaker.
    GiveUp,
}

/// The search for one name.
pub struct Resolver {
    name: String,
    phase: Phase,
    db: RecordDb,
}

/// The questions of the follow-up query for an instance: for just that
/// instance, label by label.
pub open spec fn follow_up(instance: Name) -> Seq<(Name, u16)> {
    seq![(instance, TYPE_SRV), (instance, TYPE_A)]
}

/// What a resolver in the given state does on an event.
pub open spec fn answers(phase: Phase, db: DbView, name: Seq<char>, event: Event, action: Action) -> bool {
    match event {
        Event::Datagram(buf) => match found(ingested(db, buf@), name) {
            Some(d) => action matches Action::Found(f) && f@ == d,
            None => action is Listen,
        },
        Event::Expired => match (phase, first_match(db.ptr, name)) {
            (Phase::Browsing, Some(instance)) => action matches Action::Ask(q) && asks(q@, follow_up(instance)),
            _ => action is GiveUp,
        },
    }
}

impl Resolver {
    pub closed spec fn name(&self) -> Seq<char> {
        self.name@
    }

    pub closed spec fn phase(&self) -> Phase {
        self.phase
    }

    pub closed spec fn db(&self) -> DbView {
        self.db@
    }

    pub closed spec fn wf(&self) -> bool {
        self.db.wf()
    }

    /// Begin a search. The second value is the query to send first.
    pub fn start(name: &str) -> (r: (Self, Vec<u8>))
        ensures
            r.0.wf(),
            r.0.name() == name@,
            r.0.phase() == Phase::Browsing,
            r.0.db() == (DbView { ptr: Seq::empty(), srv: Map::empty(), a: Map::empty() }),
            is_query(r.1@, seq![(SERVICE@, TYPE_PTR)]),
    {
        let questions: [(&str, u16); 1] = [(SERVICE, TYPE_PTR)];
        let q: Vec<u8> = build_query(&questions);
        assert(crate::dns::asked(questions@) =~= seq![(SERVICE@, TYPE_PTR)]);
        (Resolver { name: name.to_owned(), phase: Phase::Browsing, db: RecordDb::new() }, q)
    }

    /// Take in an event.
    pub fn step(&mut self, event: Event) -> (action: Action)
        requires
            old(self).wf(),
        ensures
            final(self).wf(),
            final(self).name() == old(self).name(),
            answers(old(self).phase(), old(self).db(), old(self).name(), event, action),
            final(self).db() == match event {
                Event::Datagram(buf) => ingested(old(self).db(), buf@),
                Event::Expired => old(self).db(),
            },
            final(self).phase() == if action is Ask {
                Phase::Asking
            } else {
                old(self).phase()
            },
    {
        match event {
            Event::Datagram(buf) => {
                self.db.ingest(buf.as_slice());
                match self.db.find(self.name.as_str()) {
                    Some(found) => Action::Found(found),
                    None => Action::Listen,
                }
            },
            Event::Expired => {
                if self.phase == Phase::Asking {
                    return Action::GiveUp;
                }
                let i: usize = self.db.first_index(self.name.as_str());
                if i >= self.db.ptr.len() {
                    return Action::GiveUp;
                }
                let instance: &[String] = self.db.ptr[i].as_slice();
                let questions: [(&[String], u16); 2] = [(instance, TYPE_SRV), (instance, TYPE_A)];
                let q: Vec<u8> = build_name_query(&questions);
                assert(asked_names(questions@) =~= follow_up(strings(instance@)));
                self.phase = Phase::Asking;
                Action::Ask(q)
            },
        }
    }
}

// ---------------------------------------------------------------------------
// What discovery promises

/// A device id in front of the friendly name makes no difference, and nothing
/// else is taken off: a friendly name may hold an '@' itself.
pub proof fn lemma_device_id_is_ignored(id: Seq<char>, friendly: Seq<char>, domain: Name, name: Seq<char>)
    requires
        !id.contains('@'),
    ensures
        goes_by(seq![id.push('@') + friendly] + domain, name) == (lower(friendly) == lower(name)),
{
    lemma_after_first(id, friendly, '@');
}

/// A label without a device id is the friendly name.
pub proof fn lemma_plain_label_is_name(friendly: Seq<char>, domain: Name, name: Seq<char>)
    requires
        !friendly.contains('@'),
    ensures
        goes_by(seq![friendly] + domain, name) == (lower(friendly) == lower(name)),
{
    lemma_after_first(friendly, friendly, '@');
}

/// The case of ASCII letters makes no difference.
pub proof fn lemma_case_is_ignored(instance: Name, name: Seq<char>, other: Seq<char>)
    requires
        lower(name) == lower(other),
    ensures
        goes_by(instance, name) == goes_by(instance, other),
{
}

proof fn lemma_learned_all_adds(db: DbView, buf: Seq<u8>, rs: Seq<Record>)
    ensures
        db.ptr.is_prefix_of(learned_all(db, buf, rs).ptr),
        db.srv.dom().subset_of(learned_all(db, buf, rs).srv.dom()),
        db.a.dom().subset_of(learned_all(db, buf, rs).a.dom()),
    decreases rs.len(),
{
    if rs.len() > 0 {
        lemma_learned_all_adds(db, buf, rs.drop_last());
    }
}

proof fn lemma_first_match_stays(ptr: Seq<Name>, more: Seq<Name>, name: Seq<char>)
    requires
        ptr.is_prefix_of(more),
        first_match(ptr, name) is Some,
    ensures
        first_match(more, name) == first_match(ptr, name),
    decreases ptr.len(),
{
    assert(more[0] == ptr[0]);
    if !goes_by(ptr[0], name) {
        assert(ptr.skip(1).is_prefix_of(more.skip(1)));
        lemma_first_match_stays(ptr.skip(1), more.skip(1), name);
    }
}

/// No message, however malformed, takes away what was heard: instances stay
/// in order, entries stay or are replaced, the instance that a name means
/// stays the same, and a speaker that was found can be found afterwards
/// (unless it was moved to a host of which no address is known).
pub proof fn lemma_nothing_is_forgotten(db: DbView, buf: Seq<u8>, name: Seq<char>)
    ensures
        db.ptr.is_prefix_of(ingested(db, buf).ptr),
        db.srv.dom().subset_of(ingested(db, buf).srv.dom()),
        db.a.dom().subset_of(ingested(db, buf).a.dom()),
        first_match(db.ptr, name) is Some ==> first_match(ingested(db, buf).ptr, name) == first_match(
            db.ptr,
            name,
        ),
        found(db, name) is Some && ingested(db, buf).srv[first_match(db.ptr, name)->0].1
            == db.srv[first_match(db.ptr, name)->0].1 ==> found(ingested(db, buf), name) is Some,
{
    lemma_learned_all_adds(db, buf, message_records(buf));
    if first_match(db.ptr, name) is Some {
        lemma_first_match_stays(db.ptr, ingested(db, buf).ptr, name);
    }
}

/// One round trip is enough for a compliant responder: a reply whose records
/// are the PTR, the SRV of the instance that it names, and the A of the host
/// that this names, resolves the name at once.
pub proof fn lemma_bundled_reply_resolves(buf: Seq<u8>, name: Seq<char>, instance: Name, host: Name)
    requires
        message_records(buf).len() == 3,
        message_records(buf)[0].rtype == TYPE_PTR,
        name_at(buf, message_records(buf)[0].at, 0) matches Some((n, _)) && n == instance,
        message_records(buf)[1].rtype == TYPE_SRV,
        message_records(buf)[1].len >= 6,
        message_records(buf)[1].name == instance,
        name_at(buf, message_records(buf)[1].at + 6, 0) matches Some((n, _)) && n == host,
        message_records(buf)[2].rtype == TYPE_A,
        message_records(buf)[2].len == 4,
        message_records(buf)[2].name == host,
        goes_by(instance, name),
    ensures
        found(
            ingested(DbView { ptr: Seq::empty(), srv: Map::empty(), a: Map::empty() }, buf),
            name,
        ) == Some(
            DiscoveredView {
                addr: buf.subrange(message_records(buf)[2].at, message_records(buf)[2].at + 4),
                port: be16_at(buf, message_records(buf)[1].at + 4),
                instance: join(instance, '.'),
            },
        ),
{
    let rs = message_records(buf);
    reveal_with_fuel(learned_all, 4);
    let db = ingested(DbView { ptr: Seq::empty(), srv: Map::empty(), a: Map::empty() }, buf);
    assert(rs.drop_last().drop_last().drop_last().len() == 0);
    assert(rs.drop_last().last() == rs[1]);
    assert(rs.drop_last().drop_last().last() == rs[0]);
    assert(db.ptr =~= seq![instance]);
}

/// A search ends: the follow-up is asked at most once, after which only a
/// reply can keep it going.
pub proof fn lemma_one_follow_up(db: DbView, name: Seq<char>, action: Action)
    requires
        answers(Phase::Asking, db, name, Event::Expired, action),
    ensures
        action is GiveUp,
{
}

/// The follow-up asks for just the instance that was heard of: its first
/// question, read from the wire, carries that instance, and its second one
/// carries it again. A dot inside a label is no boundary.
pub proof fn lemma_follow_up_names_instance(id: u16, instance: Name)
    requires
        forall|k: int| 0 <= k < instance.len() ==> plain_label(#[trigger] instance[k]),
    ensures
        ({
            let q = names_query_bytes(id, follow_up(instance));
            let len = labels_bytes(instance).len() + 1;
            &&& name_at(q, 12, 0) == Some((instance, (12 + len) as int))
            &&& be16_at(q, (12 + len) as int) == TYPE_SRV
            &&& name_at(q, (16 + len) as int, 0) == Some((instance, (16 + 2 * len) as int))
            &&& be16_at(q, (16 + 2 * len) as int) == TYPE_A
        }),
{
    let qs = follow_up(instance);
    let name = labels_bytes(instance).push(0u8);
    let head = query_header(id, 2);
    let first = name_question_bytes(instance, TYPE_SRV);
    let second = name_question_bytes(instance, TYPE_A);
    assert(qs.drop_last() =~= seq![(instance, TYPE_SRV)]);
    assert(qs.drop_last().drop_last() =~= Seq::<(Name, u16)>::empty());
    reveal_with_fuel(name_questions_bytes, 3);
    let q = names_query_bytes(id, qs);
    assert(q =~= head + first + second);
    assert(q =~= head + name + (be16(TYPE_SRV) + be16(CLASS_IN_QU) + second));
    lemma_name_round_trip(head, instance, be16(TYPE_SRV) + be16(CLASS_IN_QU) + second);
    assert(q =~= (head + first) + name + (be16(TYPE_A) + be16(CLASS_IN_QU)));
    lemma_name_round_trip(head + first, instance, be16(TYPE_A) + be16(CLASS_IN_QU));
}

// ---------------------------------------------------------------------------
// What a message means

/// One record in a message: behind its owner's name stand its type, four more
/// fields of eight bytes, of which the last two are the length of its data,
/// and its data. A record that does not fit into the message is none.
pub proof fn lemma_record_is_read(buf: Seq<u8>, pos: int)
    ensures
        match name_at(buf, pos, 0) {
            Some((owner, p)) => if p + 10 <= buf.len() && p + 10 + (buf[p + 8] * 256 + buf[p + 9]) <= buf.len() {
                let len = buf[p + 8] * 256 + buf[p + 9];
                record_at(buf, pos) matches Some((r, next)) && r.name == owner && r.rtype == buf[p] * 256 + buf[p
                    + 1] && r.at == p + 10 && r.len == len && next == p + 10 + len
            } else {
                record_at(buf, pos) is None
            },
            None => record_at(buf, pos) is None,
        },
{
    if let Some((_, p)) = name_at(buf, pos, 0) {
        lemma_be16_bytes(0, buf, p);
        lemma_be16_bytes(0, buf, p + 8);
    }
}

/// The records of a message stand behind its questions, one behind the other,
/// as many as its three counts say; reading stops at the first that is
/// malformed, and keeps those in front of it.
pub proof fn lemma_records_follow_each_other(buf: Seq<u8>, pos: int, n: nat)
    ensures
        records_from(buf, pos, 0) == Seq::<Record>::empty(),
        match record_at(buf, pos) {
            Some((r, next)) => records_from(buf, pos, n + 1) == seq![r] + records_from(buf, next, n),
            None => records_from(buf, pos, n + 1) == Seq::<Record>::empty(),
        },
        questions_end(buf, pos, 0) == Some(pos),
        match name_at(buf, pos, 0) {
            Some((_, p)) => questions_end(buf, pos, n + 1) == (if p + 4 <= buf.len() {
                questions_end(buf, p + 4, n)
            } else {
                None
            }),
            None => questions_end(buf, pos, n + 1) is None,
        },
        buf.len() < 12 ==> message_records(buf).len() == 0,
        buf.len() >= 12 ==> match questions_end(buf, 12, (buf[4] * 256 + buf[5]) as nat) {
            Some(at) => message_records(buf) == records_from(
                buf,
                at,
                ((buf[6] * 256 + buf[7]) + (buf[8] * 256 + buf[9]) + (buf[10] * 256 + buf[11])) as nat,
            ),
            None => message_records(buf).len() == 0,
        },
{
    if buf.len() >= 12 {
        lemma_be16_bytes(0, buf, 4);
        lemma_be16_bytes(0, buf, 6);
        lemma_be16_bytes(0, buf, 8);
        lemma_be16_bytes(0, buf, 10);
    }
}

/// Only the first label of an instance counts, and an instance without labels
/// goes by no name.
pub proof fn lemma_first_label_counts(first: Seq<char>, domain: Name, other: Name, name: Seq<char>)
    ensures
        goes_by(seq![first] + domain, name) == goes_by(seq![first] + other, name),
        !goes_by(Seq::<Seq<char>>::empty(), name),
{
}

/// A speaker that was found stands for its fields.
pub proof fn lemma_discovered_fields(d: Discovered)
    ensures
        d@.addr == d.addr@,
        d@.port == d.port,
        d@.instance == d.instance@,
{
}

/// The head of a message says how many questions there are, and how many
/// records in its three sections.
pub open spec fn counts(head: Seq<u8>, questions: nat, records: nat) -> bool {
    &&& head.len() == 12
    &&& head[4] * 256 + head[5] == questions
    &&& (head[6] * 256 + head[7]) + (head[8] * 256 + head[9]) + (head[10] * 256 + head[11]) == records
}

/// A record as it is written: owner, type, class, time to live, data.
pub struct Written {
    pub owner: Name,
    pub rtype: u16,
    pub class: u16,
    pub ttl: u32,
    pub data: Seq<u8>,
}

/// The bytes of a written record.
pub open spec fn record_bytes(r: Written) -> Seq<u8> {
    labels_bytes(r.owner).push(0u8) + be16(r.rtype) + be16(r.class) + be32(r.ttl) + be16(r.data.len() as u16) + r.data
}

/// The bytes of written records, one after the other.
pub open spec fn all_record_bytes(rs: Seq<Written>) -> Seq<u8>
    decreases rs.len(),
{
    if rs.len() == 0 {
        Seq::<u8>::empty()
    } else {
        record_bytes(rs[0]) + all_record_bytes(rs.skip(1))
    }
}

/// The bytes of questions, one after the other.
pub open spec fn all_question_bytes(qs: Seq<(Name, u16)>) -> Seq<u8>
    decreases qs.len(),
{
    if qs.len() == 0 {
        Seq::<u8>::empty()
    } else {
        name_question_bytes(qs[0].0, qs[0].1) + all_question_bytes(qs.skip(1))
    }
}

/// Whether a name can be written on the wire.
pub open spec fn plain_name(name: Name) -> bool {
    forall|i: int| 0 <= i < name.len() ==> plain_label(#[trigger] name[i])
}

/// Whether a record can be written on the wire.
pub open spec fn writable(r: Written) -> bool {
    plain_name(r.owner) && r.data.len() < 65_536
}

/// Whether a record that was read from `buf` is the one that was written.
pub open spec fn is_written(buf: Seq<u8>, r: Record, w: Written) -> bool {
    &&& r.name == w.owner
    &&& r.rtype == w.rtype
    &&& r.len == w.data.len()
    &&& 0 <= r.at
    &&& r.at + r.len <= buf.len()
    &&& buf.subrange(r.at, r.at + r.len) == w.data
}

#[verifier::rlimit(40)]
proof fn lemma_one_written(before: Seq<u8>, w: Written, after: Seq<u8>)
    requires
        writable(w),
    ensures
        ({
            let buf = before + record_bytes(w) + after;
            record_at(buf, before.len() as int) matches Some((r, next)) && is_written(buf, r, w) && next
                == before.len() + record_bytes(w).len()
        }),
{
    let buf = before + record_bytes(w) + after;
    let name = labels_bytes(w.owner).push(0u8);
    let n = w.data.len() as u16;
    let fields = be16(w.rtype) + be16(w.class) + be32(w.ttl) + be16(n);
    assert(buf =~= before + name + (fields + w.data + after));
    lemma_name_round_trip(before, w.owner, fields + w.data + after);
    let p = before.len() + name.len() as int;
    lemma_be16_bytes(w.rtype, buf, p);
    lemma_be16_bytes(n, buf, p + 8);
    assert(buf[p] == be16(w.rtype)[0] && buf[p + 1] == be16(w.rtype)[1]);
    assert(buf[p + 8] == be16(n)[0] && buf[p + 9] == be16(n)[1]);
    assert(record_bytes(w).len() == name.len() + 10 + w.data.len());
    assert(buf.subrange(p + 10, p + 10 + n) =~= w.data);
}

#[verifier::rlimit(40)]
proof fn lemma_written_records(before: Seq<u8>, rs: Seq<Written>, after: Seq<u8>)
    requires
        forall|i: int| 0 <= i < rs.len() ==> writable(#[trigger] rs[i]),
    ensures
        ({
            let buf = before + all_record_bytes(rs) + after;
            let read = records_from(buf, before.len() as int, rs.len());
            &&& read.len() == rs.len()
            &&& forall|i: int| 0 <= i < rs.len() ==> is_written(buf, #[trigger] read[i], rs[i])
        }),
    decreases rs.len(),
{
    let buf = before + all_record_bytes(rs) + after;
    if rs.len() > 0 {
        let w = rs[0];
        let rest = rs.skip(1);
        assert forall|i: int| 0 <= i < rest.len() implies writable(#[trigger] rest[i]) by {
            assert(rest[i] == rs[i + 1]);
        }
        assert(writable(w));
        let further = before + record_bytes(w);
        assert(buf =~= before + record_bytes(w) + (all_record_bytes(rest) + after));
        assert(buf =~= further + all_record_bytes(rest) + after);
        lemma_one_written(before, w, all_record_bytes(rest) + after);
        lemma_written_records(further, rest, after);
        let read = records_from(buf, before.len() as int, rs.len());
        let behind = records_from(buf, further.len() as int, rest.len());
        assert(read =~= seq![(record_at(buf, before.len() as int)->0).0] + behind);
        assert forall|i: int| 0 <= i < rs.len() implies is_written(buf, #[trigger] read[i], rs[i]) by {
            if i > 0 {
                assert(read[i] == behind[i - 1]);
                assert(rest[i - 1] == rs[i]);
            }
        }
    }
}

proof fn lemma_written_questions(before: Seq<u8>, qs: Seq<(Name, u16)>, after: Seq<u8>)
    requires
        forall|i: int| 0 <= i < qs.len() ==> plain_name((#[trigger] qs[i]).0),
    ensures
        questions_end(before + all_question_bytes(qs) + after, before.len() as int, qs.len()) == Some(
            (before.len() + all_question_bytes(qs).len()) as int,
        ),
    decreases qs.len(),
{
    let buf = before + all_question_bytes(qs) + after;
    if qs.len() > 0 {
        let (name, qtype) = qs[0];
        let rest = qs.skip(1);
        assert forall|i: int| 0 <= i < rest.len() implies plain_name((#[trigger] rest[i]).0) by {
            assert(rest[i] == qs[i + 1]);
        }
        assert(plain_name(qs[0].0));
        let labels = labels_bytes(name).push(0u8);
        let tail = be16(qtype) + be16(CLASS_IN_QU);
        let further = before + name_question_bytes(name, qtype);
        assert(buf =~= before + labels + (tail + all_question_bytes(rest) + after));
        lemma_name_round_trip(before, name, tail + all_question_bytes(rest) + after);
        assert(buf =~= further + all_question_bytes(rest) + after);
        lemma_written_questions(further, rest, after);
    }
}

/// The records of a well-formed message are all of its records: whatever their
/// types, whatever the questions in front of them, and in whichever of the
/// three sections they are counted, each record that was written is read, in
/// order, with its owner, its type and its data.
pub proof fn lemma_all_records_are_read(head: Seq<u8>, qs: Seq<(Name, u16)>, rs: Seq<Written>, after: Seq<u8>)
    requires
        counts(head, qs.len(), rs.len()),
        forall|i: int| 0 <= i < qs.len() ==> plain_name((#[trigger] qs[i]).0),
        forall|i: int| 0 <= i < rs.len() ==> writable(#[trigger] rs[i]),
    ensures
        ({
            let buf = head + all_question_bytes(qs) + all_record_bytes(rs) + after;
            let read = message_records(buf);
            &&& read.len() == rs.len()
            &&& forall|i: int|
                0 <= i < rs.len() ==> ({
                    let r = #[trigger] read[i];
                    &&& r.name == rs[i].owner
                    &&& r.rtype == rs[i].rtype
                    &&& r.len == rs[i].data.len()
                    &&& buf.subrange(r.at, r.at + r.len) == rs[i].data
                })
        }),
{
    let buf = head + all_question_bytes(qs) + all_record_bytes(rs) + after;
    lemma_written_message(head, qs, rs, after);
    let read = message_records(buf);
    assert forall|i: int| 0 <= i < rs.len() implies ({
        let r = #[trigger] read[i];
        &&& r.name == rs[i].owner
        &&& r.rtype == rs[i].rtype
        &&& r.len == rs[i].data.len()
        &&& buf.subrange(r.at, r.at + r.len) == rs[i].data
    }) by {
        assert(is_written(buf, read[i], rs[i]));
    }
}

#[verifier::rlimit(40)]
proof fn lemma_written_message(head: Seq<u8>, qs: Seq<(Name, u16)>, rs: Seq<Written>, after: Seq<u8>)
    requires
        counts(head, qs.len(), rs.len()),
        forall|i: int| 0 <= i < qs.len() ==> plain_name((#[trigger] qs[i]).0),
        forall|i: int| 0 <= i < rs.len() ==> writable(#[trigger] rs[i]),
    ensures
        ({
            let buf = head + all_question_bytes(qs) + all_record_bytes(rs) + after;
            let read = message_records(buf);
            &&& read.len() == rs.len()
            &&& forall|i: int| 0 <= i < rs.len() ==> is_written(buf, #[trigger] read[i], rs[i])
        }),
{
    let buf = head + all_question_bytes(qs) + all_record_bytes(rs) + after;
    lemma_be16_bytes(0, buf, 4);
    lemma_be16_bytes(0, buf, 6);
    lemma_be16_bytes(0, buf, 8);
    lemma_be16_bytes(0, buf, 10);
    assert(forall|i: int| 0 <= i < 12 ==> buf[i] == head[i]);
    assert(buf =~= head + all_question_bytes(qs) + (all_record_bytes(rs) + after));
    lemma_written_questions(head, qs, all_record_bytes(rs) + after);
    lemma_written_records(head + all_question_bytes(qs), rs, after);
}

/// What one record adds, by its type: a PTR record the instance that it names,
/// an SRV record the port and the host of its owner, an A record the address
/// of its owner. A record of any other type, or whose data does not fit its
/// type, adds nothing.
pub proof fn lemma_record_is_learned(db: DbView, buf: Seq<u8>, r: Record)
    ensures
        ({
            let after = learned(db, buf, r);
            &&& r.rtype != 12 ==> after.ptr == db.ptr
            &&& r.rtype != 33 || r.len < 6 ==> after.srv == db.srv
            &&& r.rtype != 1 || r.len != 4 ==> after.a == db.a
            &&& r.rtype == 12 ==> match name_at(buf, r.at, 0) {
                Some((target, _)) => after.ptr == db.ptr.push(target),
                None => after.ptr == db.ptr,
            }
            &&& r.rtype == 33 && r.len >= 6 ==> match name_at(buf, r.at + 6, 0) {
                Some((target, _)) => after.srv == db.srv.insert(
                    r.name,
                    ((buf[r.at + 4] * 256 + buf[r.at + 5]) as u16, target),
                ),
                None => after.srv == db.srv,
            }
            &&& r.rtype == 1 && r.len == 4 ==> after.a == db.a.insert(r.name, buf.subrange(r.at, r.at + 4))
        }),
{
    lemma_be16_bytes(0, buf, r.at + 4);
}

/// A message adds what its records add, one after the other, to what was
/// heard before.
pub proof fn lemma_message_is_learned(db: DbView, buf: Seq<u8>, rs: Seq<Record>, r: Record)
    ensures
        ingested(db, buf) == learned_all(db, buf, message_records(buf)),
        learned_all(db, buf, Seq::<Record>::empty()) == db,
        learned_all(db, buf, rs.push(r)) == learned(learned_all(db, buf, rs), buf, r),
{
    assert(rs.push(r).drop_last() =~= rs);
}

proof fn lemma_last_srv_counts(db: DbView, buf: Seq<u8>, rs: Seq<Record>, j: int, target: Name)
    requires
        0 <= j < rs.len(),
        rs[j].rtype == 33,
        rs[j].len >= 6,
        name_at(buf, rs[j].at + 6, 0) matches Some((n, _)) && n == target,
        forall|l: int|
            j < l < rs.len() ==> !((#[trigger] rs[l]).rtype == 33 && rs[l].name == rs[j].name),
    ensures
        learned_all(db, buf, rs).srv.contains_key(rs[j].name),
        learned_all(db, buf, rs).srv[rs[j].name] == (
            (buf[rs[j].at + 4] * 256 + buf[rs[j].at + 5]) as u16,
            target,
        ),
    decreases rs.len(),
{
    let front = rs.drop_last();
    lemma_record_is_learned(learned_all(db, buf, front), buf, rs.last());
    if j < rs.len() - 1 {
        assert(!(rs[rs.len() - 1].rtype == 33 && rs[rs.len() - 1].name == rs[j].name));
        assert forall|l: int| j < l < front.len() implies !((#[trigger] front[l]).rtype == 33 && front[l].name
            == front[j].name) by {
            assert(front[l] == rs[l]);
        }
        lemma_last_srv_counts(db, buf, front, j, target);
    }
}

proof fn lemma_last_a_counts(db: DbView, buf: Seq<u8>, rs: Seq<Record>, k: int)
    requires
        0 <= k < rs.len(),
        rs[k].rtype == 1,
        rs[k].len == 4,
        forall|l: int| k < l < rs.len() ==> !((#[trigger] rs[l]).rtype == 1 && rs[l].name == rs[k].name),
    ensures
        learned_all(db, buf, rs).a.contains_key(rs[k].name),
        learned_all(db, buf, rs).a[rs[k].name] == buf.subrange(rs[k].at, rs[k].at + 4),
    decreases rs.len(),
{
    let front = rs.drop_last();
    lemma_record_is_learned(learned_all(db, buf, front), buf, rs.last());
    if k < rs.len() - 1 {
        assert(!(rs[rs.len() - 1].rtype == 1 && rs[rs.len() - 1].name == rs[k].name));
        assert forall|l: int| k < l < front.len() implies !((#[trigger] front[l]).rtype == 1 && front[l].name
            == front[k].name) by {
            assert(front[l] == rs[l]);
        }
        lemma_last_a_counts(db, buf, front, k);
    }
}

/// The first instance that goes by a name is the one that it means: instances
/// that come later do not change it.
pub proof fn lemma_first_instance_counts(ptr: Seq<Name>, last: Name, name: Seq<char>)
    ensures
        first_match(Seq::<Name>::empty(), name) is None,
        first_match(ptr, name) is Some ==> first_match(ptr.push(last), name) == first_match(ptr, name),
        first_match(ptr, name) is None ==> first_match(ptr.push(last), name) == (if goes_by(last, name) {
            Some(last)
        } else {
            None
        }),
    decreases ptr.len(),
{
    let all = ptr.push(last);
    if ptr.len() == 0 {
        assert(all.skip(1) =~= Seq::<Name>::empty());
    } else {
        assert(all[0] == ptr[0]);
        assert(all.skip(1) =~= ptr.skip(1).push(last));
        lemma_first_instance_counts(ptr.skip(1), last, name);
    }
}

proof fn lemma_no_match_yet(db: DbView, buf: Seq<u8>, rs: Seq<Record>, name: Seq<char>)
    requires
        first_match(db.ptr, name) is None,
        forall|l: int|
            0 <= l < rs.len() ==> !((#[trigger] rs[l]).rtype == 12 && (name_at(buf, rs[l].at, 0) matches Some(
                (n, _),
            ) && goes_by(n, name))),
    ensures
        first_match(learned_all(db, buf, rs).ptr, name) is None,
    decreases rs.len(),
{
    if rs.len() > 0 {
        let front = rs.drop_last();
        assert forall|l: int| 0 <= l < front.len() implies !((#[trigger] front[l]).rtype == 12 && (name_at(
            buf,
            front[l].at,
            0,
        ) matches Some((n, _)) && goes_by(n, name))) by {
            assert(front[l] == rs[l]);
        }
        lemma_no_match_yet(db, buf, front, name);
        let before = learned_all(db, buf, front);
        let r = rs[rs.len() - 1];
        assert(!(r.rtype == 12 && (name_at(buf, r.at, 0) matches Some((n, _)) && goes_by(n, name))));
        lemma_record_is_learned(before, buf, r);
        if let Some((n, _)) = name_at(buf, r.at, 0) {
            lemma_first_instance_counts(before.ptr, n, name);
        }
    }
}

proof fn lemma_match_is_heard(db: DbView, buf: Seq<u8>, rs: Seq<Record>, i: int, instance: Name, name: Seq<char>)
    requires
        first_match(db.ptr, name) is None,
        0 <= i < rs.len(),
        rs[i].rtype == 12,
        name_at(buf, rs[i].at, 0) matches Some((n, _)) && n == instance,
        goes_by(instance, name),
        forall|l: int|
            0 <= l < i ==> !((#[trigger] rs[l]).rtype == 12 && (name_at(buf, rs[l].at, 0) matches Some((n, _))
                && goes_by(n, name))),
    ensures
        first_match(learned_all(db, buf, rs).ptr, name) == Some(instance),
    decreases rs.len(),
{
    let front = rs.drop_last();
    let before = learned_all(db, buf, front);
    let r = rs[rs.len() - 1];
    lemma_record_is_learned(before, buf, r);
    if let Some((n, _)) = name_at(buf, r.at, 0) {
        lemma_first_instance_counts(before.ptr, n, name);
    }
    if i == rs.len() - 1 {
        assert forall|l: int| 0 <= l < front.len() implies !((#[trigger] front[l]).rtype == 12 && (name_at(
            buf,
            front[l].at,
            0,
        ) matches Some((n, _)) && goes_by(n, name))) by {
            assert(front[l] == rs[l]);
        }
        lemma_no_match_yet(db, buf, front, name);
    } else {
        assert forall|l: int| 0 <= l < i implies !((#[trigger] front[l]).rtype == 12 && (name_at(
            buf,
            front[l].at,
            0,
        ) matches Some((n, _)) && goes_by(n, name))) by {
            assert(front[l] == rs[l]);
        }
        lemma_match_is_heard(db, buf, front, i, instance, name);
    }
}

/// A reply resolves a name wherever its PTR, SRV and A records stand in it,
/// and whatever other records stand between, in front of and behind them: the
/// port is the one in the SRV record of the first instance that goes by the
/// name, the address the one in the A record of its host. Of records for the
/// same owner the last one counts.
#[verifier::rlimit(40)]
pub proof fn lemma_reply_resolves(
    db: DbView,
    buf: Seq<u8>,
    name: Seq<char>,
    instance: Name,
    host: Name,
    i: int,
    j: int,
    k: int,
)
    requires
        first_match(db.ptr, name) is None,
        0 <= i < message_records(buf).len(),
        0 <= j < message_records(buf).len(),
        0 <= k < message_records(buf).len(),
        goes_by(instance, name),
        message_records(buf)[i].rtype == 12,
        name_at(buf, message_records(buf)[i].at, 0) matches Some((n, _)) && n == instance,
        forall|l: int|
            0 <= l < i ==> !((#[trigger] message_records(buf)[l]).rtype == 12 && (name_at(
                buf,
                message_records(buf)[l].at,
                0,
            ) matches Some((n, _)) && goes_by(n, name))),
        message_records(buf)[j].rtype == 33,
        message_records(buf)[j].len >= 6,
        message_records(buf)[j].name == instance,
        name_at(buf, message_records(buf)[j].at + 6, 0) matches Some((n, _)) && n == host,
        forall|l: int|
            j < l < message_records(buf).len() ==> !((#[trigger] message_records(buf)[l]).rtype == 33
                && message_records(buf)[l].name == instance),
        message_records(buf)[k].rtype == 1,
        message_records(buf)[k].len == 4,
        message_records(buf)[k].name == host,
        forall|l: int|
            k < l < message_records(buf).len() ==> !((#[trigger] message_records(buf)[l]).rtype == 1
                && message_records(buf)[l].name == host),
    ensures
        ({
            let srv = message_records(buf)[j].at;
            let a = message_records(buf)[k].at;
            found(ingested(db, buf), name) == Some(
                DiscoveredView {
                    addr: buf.subrange(a, a + 4),
                    port: (buf[srv + 4] * 256 + buf[srv + 5]) as u16,
                    instance: join(instance, '.'),
                },
            )
        }),
{
    let rs = message_records(buf);
    lemma_match_is_heard(db, buf, rs, i, instance, name);
    lemma_last_srv_counts(db, buf, rs, j, host);
    lemma_last_a_counts(db, buf, rs, k);
}

proof fn lemma_name_in_data(buf: Seq<u8>, at: int, len: int, name: Name, skip: int)
    requires
        plain_name(name),
        0 <= at,
        0 <= skip <= len,
        at + len <= buf.len(),
        buf.subrange(at, at + len).skip(skip) == labels_bytes(name).push(0u8),
    ensures
        name_at(buf, at + skip, 0) matches Some((n, _)) && n == name,
{
    let before = buf.take(at + skip);
    let after = buf.skip(at + len);
    assert(buf.subrange(at + skip, at + len) =~= buf.subrange(at, at + len).skip(skip));
    assert(buf =~= before + labels_bytes(name).push(0u8) + after);
    lemma_name_round_trip(before, name, after);
}

/// The same of a message as it is written, with nothing heard before: a PTR
/// record that names the instance, its SRV record and the A record of its host
/// resolve the name, with any records of any other types (a TXT record, say)
/// among them.
#[verifier::rlimit(40)]
pub proof fn lemma_written_reply_resolves(
    head: Seq<u8>,
    qs: Seq<(Name, u16)>,
    rs: Seq<Written>,
    after: Seq<u8>,
    name: Seq<char>,
    instance: Name,
    host: Name,
    i: int,
    j: int,
    k: int,
)
    requires
        counts(head, qs.len(), rs.len()),
        forall|l: int| 0 <= l < qs.len() ==> plain_name((#[trigger] qs[l]).0),
        forall|l: int| 0 <= l < rs.len() ==> writable(#[trigger] rs[l]),
        plain_name(instance),
        plain_name(host),
        goes_by(instance, name),
        0 <= i < rs.len(),
        0 <= j < rs.len(),
        0 <= k < rs.len(),
        rs[i].rtype == 12,
        rs[i].data == labels_bytes(instance).push(0u8),
        rs[j].rtype == 33,
        rs[j].owner == instance,
        rs[j].data.len() >= 6,
        rs[j].data.skip(6) == labels_bytes(host).push(0u8),
        rs[k].rtype == 1,
        rs[k].owner == host,
        rs[k].data.len() == 4,
        forall|l: int|
            0 <= l < rs.len() && l != i && l != j && l != k ==> (#[trigger] rs[l]).rtype != 12 && rs[l].rtype != 33
                && rs[l].rtype != 1,
    ensures
        ({
            let buf = head + all_question_bytes(qs) + all_record_bytes(rs) + after;
            let nothing = DbView { ptr: Seq::empty(), srv: Map::empty(), a: Map::empty() };
            found(ingested(nothing, buf), name) == Some(
                DiscoveredView {
                    addr: rs[k].data,
                    port: (rs[j].data[4] * 256 + rs[j].data[5]) as u16,
                    instance: join(instance, '.'),
                },
            )
        }),
{
    let buf = head + all_question_bytes(qs) + all_record_bytes(rs) + after;
    let nothing = DbView { ptr: Seq::empty(), srv: Map::empty(), a: Map::empty() };
    lemma_written_message(head, qs, rs, after);
    let read = message_records(buf);
    assert(is_written(buf, read[i], rs[i]));
    assert(is_written(buf, read[j], rs[j]));
    assert(is_written(buf, read[k], rs[k]));
    assert(rs[i].data.skip(0) =~= rs[i].data);
    lemma_name_in_data(buf, read[i].at, read[i].len, instance, 0);
    lemma_name_in_data(buf, read[j].at, read[j].len, host, 6);
    assert forall|l: int| 0 <= l < read.len() && l != i && l != j && l != k implies (#[trigger] read[l]).rtype != 12
        && read[l].rtype != 33 && read[l].rtype != 1 by {
        assert(is_written(buf, read[l], rs[l]));
    }
    lemma_first_instance_counts(Seq::<Name>::empty(), instance, name);
    lemma_reply_resolves(nothing, buf, name, instance, host, i, j, k);
    let at = read[j].at;
    assert(buf[at + 4] == buf.subrange(at, at + read[j].len)[4]);
    assert(buf[at + 5] == buf.subrange(at, at + read[j].len)[5]);
}

/// What is found was heard: an instance that goes by the name, the port and
/// the host that its SRV record gave, and the address that the host's A record
/// gave. Where one of them is missing, nothing is found.
pub proof fn lemma_found_was_heard(db: DbView, name: Seq<char>)
    ensures
        match first_match(db.ptr, name) {
            Some(instance) => {
                let host = db.srv[instance].1;
                &&& goes_by(instance, name)
                &&& db.ptr.contains(instance)
                &&& found(db, name) is Some <==> db.srv.contains_key(instance) && db.a.contains_key(host)
                &&& found(db, name) matches Some(d) ==> d.port == db.srv[instance].0 && d.addr == db.a[host]
                    && d.instance == join(instance, '.')
            },
            None => found(db, name) is None && forall|i: int|
                0 <= i < db.ptr.len() ==> !goes_by(#[trigger] db.ptr[i], name),
        },
{
    lemma_first_match(db.ptr, name);
}

proof fn lemma_first_match(ptr: Seq<Name>, name: Seq<char>)
    ensures
        match first_match(ptr, name) {
            Some(instance) => goes_by(instance, name) && ptr.contains(instance),
            None => forall|i: int| 0 <= i < ptr.len() ==> !goes_by(#[trigger] ptr[i], name),
        },
    decreases ptr.len(),
{
    if ptr.len() > 0 {
        if goes_by(ptr[0], name) {
            assert(ptr.contains(ptr[0]));
        } else {
            let rest = ptr.skip(1);
            lemma_first_match(rest, name);
            match first_match(rest, name) {
                Some(instance) => {
                    let i = choose|i: int| 0 <= i < rest.len() && rest[i] == instance;
                    assert(ptr[i + 1] == instance);
                },
                None => {
                    assert forall|i: int| 0 <= i < ptr.len() implies !goes_by(#[trigger] ptr[i], name) by {
                        if i > 0 {
                            assert(ptr[i] == rest[i - 1]);
                        }
                    }
                },
            }
        }
    }
}

/// What a search does. A reply ends it exactly where it makes the speaker
/// known. When the time is over, it asks once for the details of the instance
/// that it has heard of, and gives up where it has heard of none or has asked
/// before.
pub proof fn lemma_search(phase: Phase, db: DbView, name: Seq<char>, event: Event, action: Action)
    requires
        answers(phase, db, name, event, action),
    ensures
        event matches Event::Datagram(buf) ==> match found(ingested(db, buf@), name) {
            Some(d) => action matches Action::Found(f) && f.addr@ == d.addr && f.port == d.port && f.instance@
                == d.instance,
            None => action is Listen,
        },
        event is Expired && (phase == Phase::Asking || first_match(db.ptr, name) is None) ==> action is GiveUp,
        event is Expired && phase == Phase::Browsing && first_match(db.ptr, name) is Some ==> ({
            let instance = first_match(db.ptr, name)->0;
            let qs = seq![(instance, 33u16), (instance, 1u16)];
            action matches Action::Ask(q) && exists|id: u16| q@ == #[trigger] names_query_bytes(id, qs)
        }),
{
    if event is Expired && phase == Phase::Browsing && first_match(db.ptr, name) is Some {
        let instance = first_match(db.ptr, name)->0;
        let q = action->Ask_0;
        assert(asks(q@, follow_up(instance)));
        let id = choose|id: u16| crate::random::drawn16(id) && q@ == #[trigger] names_query_bytes(
            id,
            follow_up(instance),
        );
        assert(follow_up(instance) =~= seq![(instance, 33u16), (instance, 1u16)]);
        assert(q@ == names_query_bytes(id, seq![(instance, 33u16), (instance, 1u16)]));
    }
}

/// The first query of a search asks for the instances of AirPlay speakers: one
/// question, for the PTR records (type 12) of _raop._tcp.local.
pub proof fn lemma_first_query(q: Seq<u8>)
    requires
        is_query(q, seq![(SERVICE@, TYPE_PTR)]),
    ensures
        ({
            let qs = seq![(seq!["_raop"@, "_tcp"@, "local"@], 12u16)];
            exists|id: u16| q == #[trigger] names_query_bytes(id, qs)
        }),
{
    let parts = seq!["_raop"@, "_tcp"@, "local"@];
    reveal_strlit("_raop");
    reveal_strlit("_tcp");
    reveal_strlit("local");
    reveal_strlit("_raop._tcp.local");
    assert forall|k: int| 0 <= k < parts.len() implies !(#[trigger] parts[k]).contains('.') by {
        assert(k == 0 || k == 1 || k == 2);
    }
    lemma_split_of_join(parts, '.');
    reveal_with_fuel(join, 4);
    assert(parts.drop_last() =~= seq!["_raop"@, "_tcp"@]);
    assert(parts.drop_last().drop_last() =~= seq!["_raop"@]);
    assert(join(parts, '.') =~= SERVICE@);
    let dotted = seq![(SERVICE@, TYPE_PTR)];
    let id = choose|id: u16| crate::random::drawn16(id) && q == #[trigger] query_bytes(id, dotted);
    assert(cut(dotted) =~= seq![(parts, 12u16)]);
    assert(q == names_query_bytes(id, seq![(parts, 12u16)]));
}

} // verus!
