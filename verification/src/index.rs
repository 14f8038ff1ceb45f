//! Event classifier and the append-only event index.
//!
//! A tokenized line's message is tested against an ordered set of
//! recognizers; on the first match one structured event is appended to the
//! matching sequence of the index. Later recognizers are not tried: the
//! connecting rule takes precedence over the disconnecting rule, which takes
//! precedence over the client-configuration rule.

use vstd::prelude::*;
use vstd::string::StrSliceExecFns;
use crate::text::{lit_at, find_lit_from, lemma_find_lit_from, find_char_from, find_char_at,
    lemma_find_char_from, find_sub_from, lit_match_at};
use crate::timestamp::Timestamp;
use crate::parse::LogLine;
use crate::settings::{ClientSettings, extract_client_details, dedup_pairs, parse_blob_pairs};

verus! {

/// A node joining or leaving the topology.
#[derive(Debug)]
pub enum TopologyEvent {
    ConnectingNode(Timestamp, String),
    DisconnectingNode(Timestamp, String),
}

/// A client runtime announcing its configuration.
#[derive(Debug)]
pub enum ClientEvent {
    ClientInit(Timestamp, ClientSettings),
}

/// A connection or refresh failure.
#[derive(Debug)]
pub enum ErrorEvent {
    CarrierRefreshFailed(Timestamp, String, String),
}

/// Mathematical image of one topology event.
pub ghost struct TopoEventV {
    pub connecting: bool,
    pub ts: Timestamp,
    pub host: Seq<char>,
}

/// Mathematical image of one client event.
pub ghost struct ClientEventV {
    pub ts: Timestamp,
    pub settings: Seq<(Seq<char>, Seq<char>)>,
}

/// Mathematical image of one error event.
pub ghost struct ErrorEventV {
    pub ts: Timestamp,
    pub bucket: Seq<char>,
    pub host: Seq<char>,
}

/// Mathematical image of a whole index: three ordered event sequences.
pub ghost struct EventIndexV {
    pub topo: Seq<TopoEventV>,
    pub client: Seq<ClientEventV>,
    pub error: Seq<ErrorEventV>,
}

impl View for TopologyEvent {
    type V = TopoEventV;

    open spec fn view(&self) -> TopoEventV {
        match self {
            TopologyEvent::ConnectingNode(t, h) => TopoEventV {
                connecting: true,
                ts: *t,
                host: h@,
            },
            TopologyEvent::DisconnectingNode(t, h) => TopoEventV {
                connecting: false,
                ts: *t,
                host: h@,
            },
        }
    }
}

impl View for ClientEvent {
    type V = ClientEventV;

    open spec fn view(&self) -> ClientEventV {
        match self {
            ClientEvent::ClientInit(t, s) => ClientEventV { ts: *t, settings: s.pairs() },
        }
    }
}

impl View for ErrorEvent {
    type V = ErrorEventV;

    open spec fn view(&self) -> ErrorEventV {
        match self {
            ErrorEvent::CarrierRefreshFailed(t, b, h) => ErrorEventV {
                ts: *t,
                bucket: b@,
                host: h@,
            },
        }
    }
}

/// The in-memory index: three ordered event sequences, each preserving
/// arrival order, grown only by `feed`.
pub struct EventIndex {
    pub topo_events: Vec<TopologyEvent>,
    pub client_events: Vec<ClientEvent>,
    pub error_events: Vec<ErrorEvent>,
}

impl View for EventIndex {
    type V = EventIndexV;

    open spec fn view(&self) -> EventIndexV {
        EventIndexV {
            topo: self.topo_events@.map_values(|e: TopologyEvent| e@),
            client: self.client_events@.map_values(|e: ClientEvent| e@),
            error: self.error_events@.map_values(|e: ErrorEvent| e@),
        }
    }
}

/// The pattern occurs at `i` and is followed there by at least one
/// character other than `/` (the start of a hostname capture).
pub open spec fn host_match_at(msg: Seq<char>, pat: Seq<char>, i: int) -> bool {
    lit_at(msg, pat, i) && i + pat.len() < msg.len() && msg[i + pat.len()] != '/'
}

/// Leftmost position at or after `from` where the pattern is followed by a
/// non-empty hostname capture.
pub open spec fn find_host_match(msg: Seq<char>, pat: Seq<char>, from: int) -> Option<int>
    recommends
        0 <= from,
    decreases msg.len() + 1 - from,
{
    if from + pat.len() >= msg.len() {
        None
    } else if host_match_at(msg, pat, from) {
        Some(from)
    } else {
        find_host_match(msg, pat, from + 1)
    }
}

/// Where a hostname capture starting at `start` ends: at the first `/`, or
/// at the end of the message.
pub open spec fn capture_end(msg: Seq<char>, start: int) -> int {
    match find_char_from(msg, '/', start) {
        Some(j) => j,
        None => msg.len() as int,
    }
}

/// The hostname captured after the leftmost qualifying occurrence of the
/// pattern: the maximal run of non-`/` characters following it.
pub open spec fn host_capture(msg: Seq<char>, pat: Seq<char>) -> Option<Seq<char>> {
    match find_host_match(msg, pat, 0) {
        Some(i) => Some(msg.subrange(i + pat.len(), capture_end(msg, i + pat.len()))),
        None => None,
    }
}

/// The hostname of a "Connecting Node " message, if it is one.
pub open spec fn connecting_host(msg: Seq<char>) -> Option<Seq<char>> {
    host_capture(msg, "Connecting Node "@)
}

/// The hostname of a "Removing and disconnecting node " message, if it is
/// one.
pub open spec fn disconnecting_host(msg: Seq<char>) -> Option<Seq<char>> {
    host_capture(msg, "Removing and disconnecting node "@)
}

/// Greatest index below `upto` holding character `c`, if any.
pub open spec fn rfind_char(s: Seq<char>, c: char, upto: int) -> Option<int>
    recommends
        upto <= s.len(),
    decreases upto,
{
    if upto <= 0 {
        None
    } else if s[upto - 1] == c {
        Some(upto - 1)
    } else {
        rfind_char(s, c, upto - 1)
    }
}

/// The brace-delimited settings body of a client-configuration message: the
/// text between the marker's opening brace and the last closing brace of
/// the message, when it is non-empty.
pub open spec fn client_blob(msg: Seq<char>) -> Option<Seq<char>> {
    let pat = "CouchbaseEnvironment: {"@;
    match find_lit_from(msg, pat, 0) {
        Option::Some(i) => {
            match rfind_char(msg, '}', msg.len() as int) {
                Option::Some(j) => {
                    if j > i + pat.len() {
                        Some(msg.subrange(i + pat.len(), j))
                    } else {
                        None
                    }
                },
                Option::None => None,
            }
        },
        Option::None => None,
    }
}

/// What one feed step does to the index: the first matching recognizer, in
/// priority order, appends one event; a message matching none leaves the
/// index unchanged.
pub open spec fn feed_spec(idx: EventIndexV, ts: Timestamp, msg: Seq<char>) -> EventIndexV {
    if connecting_host(msg) is Some {
        EventIndexV {
            topo: idx.topo.push(
                TopoEventV { connecting: true, ts, host: connecting_host(msg)->Some_0 },
            ),
            client: idx.client,
            error: idx.error,
        }
    } else if disconnecting_host(msg) is Some {
        EventIndexV {
            topo: idx.topo.push(
                TopoEventV { connecting: false, ts, host: disconnecting_host(msg)->Some_0 },
            ),
            client: idx.client,
            error: idx.error,
        }
    } else if client_blob(msg) is Some {
        EventIndexV {
            topo: idx.topo,
            client: idx.client.push(
                ClientEventV {
                    ts,
                    settings: dedup_pairs(parse_blob_pairs(client_blob(msg)->Some_0)),
                },
            ),
            error: idx.error,
        }
    } else {
        idx
    }
}

/// Find the hostname capture of `pat` in `msg`, if any.
fn find_host_capture(msg: &str, pat: &str) -> (r: Option<String>)
    ensures
        match host_capture(msg@, pat@) {
            Some(h) => r matches Some(s) && s@ == h,
            None => r is None,
        },
{
    let mlen = msg.unicode_len();
    let plen = pat.unicode_len();
    let mut i: usize = 0;
    loop
        invariant
            mlen == msg@.len(),
            plen == pat@.len(),
            i <= mlen,
            find_host_match(msg@, pat@, 0) == find_host_match(msg@, pat@, i as int),
        ensures
            match find_host_match(msg@, pat@, 0) {
                Some(idx) => i == idx && host_match_at(msg@, pat@, i as int) && i + plen < mlen,
                None => i + plen >= mlen,
            },
        decreases mlen - i,
    {
        if mlen - i > plen {
            if lit_match_at(msg, pat, i) {
                if msg.get_char(i + plen) != '/' {
                    break;
                }
            }
            i += 1;
        } else {
            break;
        }
    }
    if mlen - i > plen {
        let start = i + plen;
        let end = match find_char_at(msg, '/', start) {
            Some(j) => {
                proof {
                    lemma_find_char_from(msg@, '/', start as int);
                }
                j
            },
            None => mlen,
        };
        let h = msg.substring_char(start, end).to_owned();
        Some(h)
    } else {
        None
    }
}

/// Find the last occurrence of `c` in `s`.
fn rfind_char_at(s: &str, c: char) -> (r: Option<usize>)
    ensures
        match r {
            Some(j) => rfind_char(s@, c, s@.len() as int) == Some(j as int),
            None => rfind_char(s@, c, s@.len() as int) is None,
        },
{
    let len = s.unicode_len();
    let mut u: usize = len;
    loop
        invariant
            len == s@.len(),
            u <= len,
            rfind_char(s@, c, len as int) == rfind_char(s@, c, u as int),
        decreases u,
    {
        if u > 0 {
            if s.get_char(u - 1) == c {
                return Some(u - 1);
            }
            u -= 1;
        } else {
            return None;
        }
    }
}

/// Find the settings body of a client-configuration message, if any.
fn find_env_capture(msg: &str) -> (r: Option<String>)
    ensures
        match client_blob(msg@) {
            Some(b) => r matches Some(s) && s@ == b,
            None => r is None,
        },
{
    let pat = "CouchbaseEnvironment: {";
    let i = match find_sub_from(msg, pat, 0) {
        None => {
            return None;
        },
        Some(i) => i,
    };
    proof {
        lemma_find_lit_from(msg@, pat@, 0);
    }
    let plen = pat.unicode_len();
    let mlen = msg.unicode_len();
    match rfind_char_at(msg, '}') {
        Some(j) => {
            if j > i + plen {
                proof {
                    lemma_rfind_char_in_range(msg@, '}', msg@.len() as int);
                }
                Some(msg.substring_char(i + plen, j).to_owned())
            } else {
                None
            }
        },
        None => None,
    }
}

proof fn lemma_rfind_char_in_range(s: Seq<char>, c: char, upto: int)
    requires
        upto <= s.len(),
    ensures
        match rfind_char(s, c, upto) {
            Some(j) => 0 <= j < upto && s[j] == c,
            None => true,
        },
    decreases upto,
{
    if upto <= 0 {
    } else if s[upto - 1] == c {
    } else {
        lemma_rfind_char_in_range(s, c, upto - 1);
    }
}

impl EventIndex {
    /// An index holding no events.
    pub fn new() -> (r: EventIndex)
        ensures
            r@.topo == Seq::<TopoEventV>::empty(),
            r@.client == Seq::<ClientEventV>::empty(),
            r@.error == Seq::<ErrorEventV>::empty(),
    {
        let r = EventIndex { topo_events: Vec::new(), client_events: Vec::new(), error_events: Vec::new() };
        proof {
            assert(r@.topo =~= Seq::<TopoEventV>::empty());
            assert(r@.client =~= Seq::<ClientEventV>::empty());
            assert(r@.error =~= Seq::<ErrorEventV>::empty());
        }
        r
    }

    /// Classify one tokenized line and append the resulting event, if any.
    /// The sole mutation entry point: existing events keep their position,
    /// and at most one event is appended per call.
    pub fn feed(&mut self, line: LogLine)
        requires
            old(self).wf(),
            line.timestamp is Some,
            line.message is Some,
        ensures
            final(self)@ == feed_spec(old(self)@, line.timestamp->Some_0, line.message->Some_0@),
            final(self).wf(),
    {
        let ts = line.timestamp.unwrap();
        let msg = line.message.unwrap();

        let cn = find_host_capture(msg.as_str(), "Connecting Node ");
        if let Some(h) = cn {
            self.topo_events.push(TopologyEvent::ConnectingNode(ts, h));
            proof {
                assert(self@.topo =~= old(self)@.topo.push(self.topo_events@.last()@));
            }
            return;
        }
        let dn = find_host_capture(msg.as_str(), "Removing and disconnecting node ");
        if let Some(h) = dn {
            self.topo_events.push(TopologyEvent::DisconnectingNode(ts, h));
            proof {
                assert(self@.topo =~= old(self)@.topo.push(self.topo_events@.last()@));
            }
            return;
        }
        let ci = find_env_capture(msg.as_str());
        if let Some(blob) = ci {
            let settings = extract_client_details(blob.as_str());
            self.client_events.push(ClientEvent::ClientInit(ts, settings));
            proof {
                assert(self@.client =~= old(self)@.client.push(self.client_events@.last()@));
                assert forall|k: int|
                    0 <= k < self.client_events@.len() implies #[trigger] self.client_events@[k].wf() by {
                    if k < old(self).client_events@.len() {
                        assert(old(self).client_events@[k].wf());
                    }
                }
            }
            return;
        }
        proof {
            assert(self@.topo =~= old(self)@.topo);
            assert(self@.client =~= old(self)@.client);
            assert(self@.error =~= old(self)@.error);
        }
    }

    /// Every client event's settings mapping has unique keys.
    pub open spec fn wf(&self) -> bool {
        forall|i: int|
            0 <= i < self.client_events@.len() ==> #[trigger] self.client_events@[i].wf()
    }
}

impl ClientEvent {
    /// The settings snapshot carried has unique keys.
    pub open spec fn wf(&self) -> bool {
        match self {
            ClientEvent::ClientInit(_, s) => s.wf(),
        }
    }
}

/// One feed step never reorders or rewrites what is already indexed: the
/// old sequences are prefixes of the new ones.
pub proof fn lemma_feed_preserves_order(idx: EventIndexV, ts: Timestamp, msg: Seq<char>)
    ensures
        idx.topo.is_prefix_of(feed_spec(idx, ts, msg).topo),
        idx.client.is_prefix_of(feed_spec(idx, ts, msg).client),
        idx.error.is_prefix_of(feed_spec(idx, ts, msg).error),
{
    let r = feed_spec(idx, ts, msg);
    assert(idx.topo.is_prefix_of(r.topo)) by {
        if connecting_host(msg) is Some || disconnecting_host(msg) is Some {
            assert(r.topo.subrange(0, idx.topo.len() as int) =~= idx.topo);
        } else {
            assert(r.topo.subrange(0, idx.topo.len() as int) =~= idx.topo);
        }
    }
    assert(idx.client.is_prefix_of(r.client)) by {
        assert(r.client.subrange(0, idx.client.len() as int) =~= idx.client);
    }
    assert(idx.error.is_prefix_of(r.error)) by {
        assert(r.error.subrange(0, idx.error.len() as int) =~= idx.error);
    }
}

/// At most one event is produced per message, and the recognizers fire in
/// priority order: connecting before disconnecting before client
/// configuration; a message matching none produces nothing.
pub proof fn lemma_classification_exclusive(idx: EventIndexV, ts: Timestamp, msg: Seq<char>)
    ensures
        feed_spec(idx, ts, msg).topo.len() + feed_spec(idx, ts, msg).client.len() + feed_spec(
            idx,
            ts,
            msg,
        ).error.len() <= idx.topo.len() + idx.client.len() + idx.error.len() + 1,
        connecting_host(msg) is Some ==> feed_spec(idx, ts, msg) == (EventIndexV {
            topo: idx.topo.push(
                TopoEventV { connecting: true, ts, host: connecting_host(msg)->Some_0 },
            ),
            client: idx.client,
            error: idx.error,
        }),
        connecting_host(msg) is None && disconnecting_host(msg) is Some ==> feed_spec(
            idx,
            ts,
            msg,
        ) == (EventIndexV {
            topo: idx.topo.push(
                TopoEventV { connecting: false, ts, host: disconnecting_host(msg)->Some_0 },
            ),
            client: idx.client,
            error: idx.error,
        }),
        connecting_host(msg) is None && disconnecting_host(msg) is None && client_blob(msg)
            is Some ==> feed_spec(idx, ts, msg) == (EventIndexV {
            topo: idx.topo,
            client: idx.client.push(
                ClientEventV {
                    ts,
                    settings: dedup_pairs(parse_blob_pairs(client_blob(msg)->Some_0)),
                },
            ),
            error: idx.error,
        }),
        connecting_host(msg) is None && disconnecting_host(msg) is None && client_blob(msg)
            is None ==> feed_spec(idx, ts, msg) == idx,
{
}

} // verus!
