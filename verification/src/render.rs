//! The plain console report: the topology events in stored order, under a
//! fixed two-line header, one line per event with the time of day, a
//! directional marker, and the hostname.

use vstd::prelude::*;
use vstd::string::StringExecFns;
use crate::codec::{digit_char, digit_str};
use crate::timestamp::Timestamp;
use crate::index::{EventIndex, TopologyEvent, TopoEventV};

verus! {

/// Two decimal digits of `n`, zero-padded (`n` taken modulo 100).
pub open spec fn two_digits(n: int) -> Seq<char> {
    seq![digit_char((n / 10) % 10), digit_char(n % 10)]
}

/// The time of day of `t` as `HH:MM:SS`.
pub open spec fn time_of_day_spec(t: Timestamp) -> Seq<char> {
    two_digits(t.hour as int) + seq![':'] + two_digits(t.minute as int) + seq![':'] + two_digits(
        t.second as int,
    )
}

fn push_two_digits(out: &mut String, n: u32)
    ensures
        final(out)@ == old(out)@ + two_digits(n as int),
{
    out.append(digit_str((n / 10) % 10));
    out.append(digit_str(n % 10));
    proof {
        assert(out@ =~= old(out)@ + two_digits(n as int));
    }
}

impl Timestamp {
    /// The time of day as `HH:MM:SS`.
    pub fn time_of_day(&self) -> (r: String)
        ensures
            r@ == time_of_day_spec(*self),
    {
        let mut out = String::new();
        push_two_digits(&mut out, self.hour);
        proof {
            reveal_strlit(":");
            assert(":"@ =~= seq![':']);
        }
        out.append(":");
        push_two_digits(&mut out, self.minute);
        out.append(":");
        push_two_digits(&mut out, self.second);
        proof {
            assert(out@ =~= time_of_day_spec(*self));
        }
        out
    }
}

/// One report line for a topology event: indentation, the time of day, the
/// directional marker, the hostname.
pub open spec fn topo_line_spec(e: TopoEventV) -> Seq<char> {
    "  "@ + time_of_day_spec(e.ts) + seq![' '] + (if e.connecting {
        "node +"@
    } else {
        "node -"@
    }) + seq![' '] + e.host
}

fn topo_line(ev: &TopologyEvent) -> (r: String)
    ensures
        r@ == topo_line_spec(ev@),
{
    let mut out = String::new();
    proof {
        reveal_strlit(" ");
        assert(" "@ =~= seq![' ']);
    }
    out.append("  ");
    match ev {
        TopologyEvent::ConnectingNode(t, h) => {
            let tod = t.time_of_day();
            out.append(tod.as_str());
            out.append(" ");
            out.append("node +");
            out.append(" ");
            out.append(h.as_str());
        },
        TopologyEvent::DisconnectingNode(t, h) => {
            let tod = t.time_of_day();
            out.append(tod.as_str());
            out.append(" ");
            out.append("node -");
            out.append(" ");
            out.append(h.as_str());
        },
    }
    proof {
        assert(out@ =~= topo_line_spec(ev@));
    }
    out
}

/// The console report of an index: a fixed two-line header, then one line
/// per topology event, in stored order.
pub fn render_topology_report(idx: &EventIndex) -> (r: Vec<String>)
    ensures
        r@.len() == 2 + idx@.topo.len(),
        r@[0]@ == "Topology Events"@,
        r@[1]@ == "---------------"@,
        forall|i: int|
            0 <= i < idx@.topo.len() ==> (#[trigger] r@[i + 2])@ == topo_line_spec(idx@.topo[i]),
{
    let mut out: Vec<String> = Vec::new();
    out.push(String::from_str("Topology Events"));
    out.push(String::from_str("---------------"));
    let n = idx.topo_events.len();
    let mut i: usize = 0;
    while i < n
        invariant
            n == idx.topo_events@.len(),
            i <= n,
            out@.len() == 2 + i,
            out@[0]@ == "Topology Events"@,
            out@[1]@ == "---------------"@,
            forall|j: int|
                0 <= j < i ==> (#[trigger] out@[j + 2])@ == topo_line_spec(idx@.topo[j]),
        decreases n - i,
    {
        proof {
            assert(idx@.topo[i as int] == idx.topo_events@[i as int]@);
        }
        let line = topo_line(&idx.topo_events[i]);
        out.push(line);
        i += 1;
    }
    out
}

} // verus!
