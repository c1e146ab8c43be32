use vstd::prelude::*;

use crate::decimal::is_digit;
use crate::endpoint::{endpoint_text, lemma_endpoint_free_of};
use crate::fields::{
    copy_bytes, free_of, join_fields, lemma_first_field, lemma_split_join, lemma_split_nonempty,
    split_bytes,
    split_fields,
};
use crate::server::{bar, peer_entry, peers_listing, PeerView};

verus! {

/// What a client does with a payload it read from the rendezvous server.
pub enum RendezvousAction {
    /// The server closed the connection: no peer can be reached.
    GiveUp,
    /// Dial the other peer at its public endpoint and, when the payload
    /// names one, at its private endpoint.
    Dial { public: Vec<u8>, private: Option<Vec<u8>> },
}

/// The public and private endpoints a server payload names: its first field
/// and, when there is one, its second, the fields parted by `|`.
pub open spec fn dial_targets(payload: Seq<u8>) -> (Seq<u8>, Option<Seq<u8>>) {
    let f = split_fields(payload, bar());
    (
        f[0],
        if f.len() >= 2 {
            Some(f[1])
        } else {
            None
        },
    )
}

/// Decides what to do with a payload read from the rendezvous server.
pub fn on_server_payload(payload: &[u8]) -> (r: RendezvousAction)
    ensures
        payload@.len() == 0 ==> r is GiveUp,
        payload@.len() > 0 ==> (r matches RendezvousAction::Dial { public, private } && public@
            == dial_targets(payload@).0 && match dial_targets(payload@).1 {
            Some(private_endpoint) => private matches Some(p) && p@ == private_endpoint,
            None => private is None,
        }),
{
    if payload.len() == 0 {
        return RendezvousAction::GiveUp;
    }
    let f = split_bytes(payload, 124u8);
    proof {
        lemma_split_nonempty(payload@, bar());
    }
    assert(f.deep_view()[0] == f[0]@);
    let private = if f.len() >= 2 {
        assert(f.deep_view()[1] == f[1]@);
        Some(copy_bytes(f[1].as_slice()))
    } else {
        None
    };
    RendezvousAction::Dial { public: copy_bytes(f[0].as_slice()), private }
}

/// The next step of one dialing loop.
pub enum DialAction {
    /// The other dialing loop already connected: stop without a connection.
    Abandon,
    /// Try to connect (again).
    Attempt,
    /// The last attempt connected: mark the race as won and keep the stream.
    Claim,
}

/// Decides the next step of a dialing loop, from whether the other loop has
/// already connected and whether this loop's last attempt connected.
pub fn next_dial_action(established: bool, last_attempt_connected: bool) -> (r: DialAction)
    ensures
        last_attempt_connected ==> r is Claim,
        !last_attempt_connected && established ==> r is Abandon,
        !last_attempt_connected && !established ==> r is Attempt,
{
    if last_attempt_connected {
        DialAction::Claim
    } else if established {
        DialAction::Abandon
    } else {
        DialAction::Attempt
    }
}

/// A client that is sent the listing of a single peer dials that peer at the
/// endpoint the server saw it connect from and at the endpoint it reported
/// for itself.
pub proof fn law_listing_gives_dial_targets(p: PeerView)
    requires
        free_of(p.remote_address, bar()),
        free_of(p.local_address, bar()),
    ensures
        peers_listing(seq![p]).len() > 0,
        dial_targets(peers_listing(seq![p])) == (
            endpoint_text(p.remote_address, p.remote_port as nat),
            Some(endpoint_text(p.local_address, p.local_port as nat)),
        ),
{
    let remote = endpoint_text(p.remote_address, p.remote_port as nat);
    let local = endpoint_text(p.local_address, p.local_port as nat);
    assert(!is_digit(bar()));
    lemma_endpoint_free_of(p.remote_address, p.remote_port as nat, bar());
    lemma_endpoint_free_of(p.local_address, p.local_port as nat, bar());
    let parts = seq![remote, local];
    assert forall|i: int| 0 <= i < parts.len() implies free_of(#[trigger] parts[i], bar()) by {
        if i == 0 {
            assert(parts[i] == remote);
        } else {
            assert(parts[i] == local);
        }
    }
    lemma_split_join(parts, bar());
    assert(parts.drop_last() =~= seq![remote]);
    assert(join_fields(seq![remote], bar()) == remote);
    assert(join_fields(parts, bar()) =~= peer_entry(p));
    let entries = seq![p].map_values(|q: PeerView| peer_entry(q));
    assert(entries =~= seq![peer_entry(p)]);
    assert(peers_listing(seq![p]) == peer_entry(p));
    assert(remote.len() > 0);
}


/// For every payload, the public endpoint a client dials is the text before
/// the first `|` (the whole payload when it holds none); a private endpoint is
/// dialed exactly when the payload holds a `|`, and it is the text between the
/// first `|` and the next one (or the end).
pub proof fn law_dial_targets_from_payload(payload: Seq<u8>)
    ensures
        ({
            let public = dial_targets(payload).0;
            let private = dial_targets(payload).1;
            let n = public.len();
            &&& n <= payload.len()
            &&& public == payload.subrange(0, n as int)
            &&& free_of(public, 124u8)
            &&& (n == payload.len() || payload[n as int] == 124u8)
            &&& (private is Some <==> n < payload.len())
            &&& (private matches Some(q) ==> {
                &&& n + 1int + q.len() <= payload.len()
                &&& q == payload.subrange(n + 1int, n + 1int + q.len())
                &&& free_of(q, 124u8)
                &&& (n + 1int + q.len() == payload.len() || payload[n + 1int + q.len()] == 124u8)
            })
        }),
{
    let f = split_fields(payload, 124u8);
    lemma_first_field(payload, 124u8);
    let n = f[0].len();
    assert(payload.take(n as int) =~= payload.subrange(0, n as int));
    if f.len() >= 2 {
        let rest = payload.skip(n + 1int);
        lemma_first_field(rest, 124u8);
        let g = split_fields(rest, 124u8);
        assert(g == f.drop_first());
        assert(g[0] == f[1]);
        let q = f[1];
        assert(rest.take(q.len() as int) =~= payload.subrange(n + 1int, n + 1int + q.len()));
        if q.len() < rest.len() {
            assert(rest[q.len() as int] == payload[n + 1int + q.len()]);
        }
    }
}

} // verus!
