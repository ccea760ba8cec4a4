//! The application's calls keep a connection sound.

use crate::congestion::fresh;
use crate::reassembly::nothing_held;
use crate::state::State;
use crate::tcb::laws::segments::{lemma_drain_send, lemma_syn_in_flight_sound};
use crate::tcb::laws::sending::{lemma_emit_send, lemma_send_data_sound, same_send};
use crate::tcb::laws::soundness::sound;
use crate::tcb::model::{
    app_recv, app_send, closed, connected, created, data_buffered, data_read, drain, emit, in_state,
    keepalive_set, listening, open_to_all, opening, reset, send_syn, syn_opts, unlistened,
    user_timeout_set, EndpointView, TcbView,
};
use crate::wire::flags;
use vstd::prelude::*;

verus! {

/// A new connection is sound.
pub proof fn law_new_is_sound(
    cap: usize,
    local: EndpointView,
    remote: EndpointView,
    iss: u32,
    initial_rto_ms: u32,
)
    requires
        cap <= 0x4000_0000,
    ensures
        sound(created(cap, local, remote, iss, initial_rto_ms)),
{
}

/// Nothing has been sent or buffered yet and no timer of the send side runs.
pub open spec fn untouched(s: TcbView) -> bool {
    &&& s.state is Closed
    &&& s.snd_una == s.iss && s.snd_nxt == s.iss && s.snd_max == s.iss
    &&& s.send_ring.len() == 0
    &&& !s.fin_sent && !s.cc.in_recovery
    &&& s.tlp_deadline is None && s.rack_deadline is None
}

/// An active open of an untouched connection keeps it sound.
pub proof fn law_connect_keeps_sound(s: TcbView)
    requires
        sound(s),
        untouched(s),
    ensures
        sound(connected(s)),
{
    reveal(opening);
    let t = opening(s);
    assert(sound(t));
    reveal(send_syn);
    let bits = flags::SYN | flags::ECE | flags::CWR;
    lemma_emit_send(t, bits, t.iss, 0, syn_opts(t), Seq::empty());
    lemma_syn_in_flight_sound(emit(t, bits, t.iss, 0, syn_opts(t), Seq::empty()));
}

/// A passive open leaves a sound connection.
pub proof fn law_listen_is_sound(s: TcbView)
    requires
        sound(s),
    ensures
        sound(listening(s)),
{
    reveal(open_to_all);
    reveal(reset);
    reveal(in_state);
}

/// Buffering data keeps a connection sound.
pub proof fn law_send_keeps_sound(s: TcbView, data: Seq<u8>)
    requires
        sound(s),
    ensures
        sound(app_send(s, data).0),
{
    reveal(data_buffered);
}

/// Reading keeps a connection sound.
pub proof fn law_recv_keeps_sound(s: TcbView, room: int)
    requires
        sound(s),
    ensures
        sound(app_recv(s, room).0),
{
    if let Ok(n) = app_recv(s, room).1 {
        if n > 0 {
            reveal(data_read);
            let t = data_read(s, n);
            assert(same_send(s, t));
            lemma_drain_send(t);
            lemma_drain_send(drain(t));
        }
    }
}

/// A graceful close keeps a connection sound. Before the handshake is done it does
/// not: our SYN is still outstanding then, and nothing stands for it any more.
pub proof fn law_close_keeps_sound(s: TcbView)
    requires
        sound(s),
        !(s.state is SynSent || s.state is SynRcvd),
    ensures
        sound(closed(s)),
{
    reveal(in_state);
    reveal(unlistened);
    if s.state is Established {
        lemma_send_data_sound(in_state(s, State::FinWait1));
    } else if s.state is CloseWait {
        lemma_send_data_sound(in_state(s, State::LastAck));
    }
}

/// The settings and the clock keep a connection sound.
pub proof fn law_settings_keep_sound(
    s: TcbView,
    idle_ms: u32,
    intvl_ms: u32,
    count: u8,
    ms: u32,
    now_ms: u64,
)
    requires
        sound(s),
    ensures
        sound(keepalive_set(s, idle_ms, intvl_ms, count)),
        sound(user_timeout_set(s, ms)),
        sound(TcbView { now_ms, ..s }),
{
    reveal(keepalive_set);
    reveal(user_timeout_set);
}

/// A new connection is closed and empty, knows nothing of its peer, and has the settings of
/// every new one: a congestion window of ten segments, a timeout between 200 milliseconds and
/// a minute, no keepalive before two hours of silence and then nine probes 75 seconds apart,
/// and five minutes of patience with what is not acknowledged.
pub proof fn law_new_connection_is_fresh(
    cap: usize,
    local: EndpointView,
    remote: EndpointView,
    iss: u32,
    initial_rto_ms: u32,
)
    requires
        cap <= u32::MAX,
    ensures
        ({
            let s = created(cap, local, remote, iss, initial_rto_ms);
            &&& s.state is Closed && s.error is None && s.tx.len() == 0
            &&& s.local == local && s.remote == remote && s.iss == iss
            &&& s.send_ring.len() == 0 && s.recv_ring.len() == 0
            &&& s.rcv_wnd == cap && s.snd_wnd == 0
            &&& s.local_mss == 1460 && s.peer_mss == 536
            &&& s.snd_wscale == 0 && s.rcv_wscale == 0
            &&& !s.ts_enabled && !s.sack_enabled && !s.ecn_enabled && !s.ce_observed
            &&& s.cc.cwnd == 14_600 && s.cc.ssthresh == cap && !s.cc.in_recovery
            &&& 200 <= initial_rto_ms <= 60_000 ==> s.rto_ms == initial_rto_ms
            &&& 200 <= s.rto_ms <= 60_000
            &&& !s.rtt_first_sample && s.rtt_probe is None
            &&& s.rto_deadline is None && s.keepalive_deadline is None
            &&& s.keepalive_idle_ms == 7_200_000 && s.keepalive_intvl_ms == 75_000
            &&& s.keepalive_count == 9 && s.user_timeout_ms == 300_000
            &&& !s.cookie_secret_set && !s.is_listener
        }),
{
}

/// A listener has forgotten every connection that was there: it is as a new one, but for its
/// address, its settings and its clock.
pub proof fn law_listening_forgets(s: TcbView)
    ensures
        ({
            let t = listening(s);
            &&& t.state is Listen && t.is_listener && t.error is None && t.tx.len() == 0
            &&& t.local == s.local && t.iss == s.iss && t.now_ms == s.now_ms
            &&& t.cookie_secret == s.cookie_secret && t.cookie_secret_set == s.cookie_secret_set
            &&& t.send_ring.len() == 0 && t.recv_ring.len() == 0 && t.reasm == nothing_held()
            &&& t.peer_mss == 536 && t.snd_wscale == 0 && t.rcv_wscale == 0
            &&& !t.ts_enabled && !t.sack_enabled && !t.ecn_enabled && !t.ce_observed
            &&& !t.send_cwr_pending && !t.rtt_first_sample && t.rtt_probe is None
            &&& t.snd_una == s.iss && t.snd_nxt == s.iss && t.snd_max == s.iss && !t.fin_sent
            &&& t.cc == fresh(s.cap as u32) && t.sent.len() == 0 && t.lost.len() == 0
            &&& t.rto_deadline is None && t.persist_deadline is None && t.ack_deadline is None
            &&& t.tlp_deadline is None && t.rack_deadline is None && t.time_wait_deadline is None
            &&& t.keepalive_deadline is None && t.user_timeout_deadline is None
            &&& !t.pending_ack && t.rtx_count == 0 && t.syn_rcvd_retries == 0
        }),
{
    reveal(open_to_all);
    reveal(reset);
    reveal(in_state);
}

} // verus!
