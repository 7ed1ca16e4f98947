//! The time discipline between client and server clocks.
use vstd::prelude::*;
use vstd::string::*;

use crate::text;

verus! {

/// How far behind the server a client's time may be.
pub const BACKWARD_GRACE_MS: u64 = 10_000;

/// How far ahead of the server a client's time may be in a request to act, to move
/// between dimensions or to create a character: not at all. A client runs behind the
/// server, so a time ahead is skew, and a row stamped with it would lie in the future.
pub const NO_FORWARD_GRACE_MS: u64 = 0;

/// Round-trip latency that the discipline tolerates.
pub const MAX_RTT_MS: u64 = 3_000;

/// The millisecond count of a timestamp in microseconds since the epoch, cut
/// towards zero and kept as its two's-complement word.
pub open spec fn millis(micros: i64) -> u64 {
    if micros >= 0 {
        (micros as int / 1_000) as u64
    } else {
        let q = (-(micros as int)) / 1_000;
        if q == 0 {
            0
        } else {
            (0x1_0000_0000_0000_0000 - q) as u64
        }
    }
}

/// Wall-clock now in unix milliseconds, from a timestamp in microseconds.
pub fn now_ms(micros: i64) -> (ms: u64)
    ensures
        ms == millis(micros),
{
    if micros >= 0 {
        micros as u64 / 1_000
    } else {
        let q: u64 = ((-(micros as i128)) as u64) / 1_000;
        if q == 0 {
            0
        } else {
            u64::MAX - (q - 1)
        }
    }
}

/// A client time outside the accepted window, with the gap in milliseconds.
#[derive(Clone, Copy, Debug, PartialEq, Eq, Structural)]
pub enum TimeDrift {
    ClientBehind { by: u64 },
    ClientAhead { by: u64 },
}

/// The text of a drift between a server and a client time, as a client parses it.
pub open spec fn drift_text(d: TimeDrift, server_ms: u64, client_ms: u64) -> Seq<char> {
    let head = match d {
        TimeDrift::ClientBehind { by } => "time_drift:client_behind_by="@ + text::decimal(by as nat),
        TimeDrift::ClientAhead { by } => "time_drift:client_ahead_by="@ + text::decimal(by as nat),
    };
    head + " (server="@ + text::decimal(server_ms as nat) + ", client="@ + text::decimal(client_ms as nat)
        + ")"@
}

impl TimeDrift {
    /// The text of a refusal: which clock is off and by how much, then the two times.
    pub fn text(&self, server_ms: u64, client_ms: u64) -> (text: String)
        ensures
            text@ == drift_text(*self, server_ms, client_ms),
    {
        let mut text: String = String::new();
        match self {
            TimeDrift::ClientBehind { by } => {
                text.append("time_drift:client_behind_by=");
                text::append_decimal(&mut text, *by);
            },
            TimeDrift::ClientAhead { by } => {
                text.append("time_drift:client_ahead_by=");
                text::append_decimal(&mut text, *by);
            },
        }
        text.append(" (server=");
        text::append_decimal(&mut text, server_ms);
        text.append(", client=");
        text::append_decimal(&mut text, client_ms);
        text.append(")");
        assert(text@ =~= drift_text(*self, server_ms, client_ms));
        text
    }
}

/// The time that game logic uses for a request: the earlier of the two clocks,
/// unless the client is more than [`BACKWARD_GRACE_MS`] behind or more than
/// `forward_grace` ahead.
pub open spec fn resolved(server: u64, client: u64, forward_grace: u64) -> Result<u64, TimeDrift> {
    if server - client > BACKWARD_GRACE_MS {
        Err(TimeDrift::ClientBehind { by: (server - client) as u64 })
    } else if client - server > forward_grace {
        Err(TimeDrift::ClientAhead { by: (client - server) as u64 })
    } else if client <= server {
        Ok(client)
    } else {
        Ok(server)
    }
}

/// Resolve the time-base of a request.
pub fn resolve(server: u64, client: u64, forward_grace: u64) -> (r: Result<u64, TimeDrift>)
    ensures
        r == resolved(server, client, forward_grace),
{
    let behind: u64 = if server > client {
        server - client
    } else {
        0
    };
    if behind > BACKWARD_GRACE_MS {
        return Err(TimeDrift::ClientBehind { by: behind });
    }
    let ahead: u64 = if client > server {
        client - server
    } else {
        0
    };
    if ahead > forward_grace {
        return Err(TimeDrift::ClientAhead { by: ahead });
    }
    if client <= server {
        Ok(client)
    } else {
        Ok(server)
    }
}

/// An accepted time is never after either clock, and at most the grace behind
/// the server; without forward grace it is the client's own time.
pub proof fn accepted_time_window(server: u64, client: u64, forward_grace: u64, now: u64)
    requires
        resolved(server, client, forward_grace) == Ok::<u64, TimeDrift>(now),
    ensures
        now <= server,
        now <= client,
        server - now <= BACKWARD_GRACE_MS,
        forward_grace == 0 ==> now == client,
{
}

/// The milliseconds of a time since the epoch are its whole thousands of microseconds; a
/// time before the epoch counts back from zero, its part of a millisecond dropped.
pub proof fn milliseconds_are_whole(micros: i64)
    ensures
        micros >= 0 ==> millis(micros) * 1_000 <= micros < millis(micros) * 1_000 + 1_000,
        -1_000 < micros < 0 ==> millis(micros) == 0,
        micros <= -1_000 ==> {
            let back = 0x1_0000_0000_0000_0000 - millis(micros);
            back * 1_000 <= -micros < back * 1_000 + 1_000
        },
{
}

} // verus!
