use vstd::prelude::*;

use crate::decimal::{
    all_digits, decimal, digits_value, is_digit, lemma_parse_decimal_roundtrip, parse_unsigned,
    parse_unsigned_bounded, unsigned_digits,
};
use crate::endpoint::{
    colon, encode_endpoint, endpoint_text, lemma_endpoint_fields, lemma_endpoint_free_of,
};
use crate::fields::{
    bytes_eq, copy_bytes, free_of, join_bytes, join_fields, lemma_bytes_deep_view, lemma_split_join,
    push_bytes, split_bytes, split_fields,
};

verus! {

/// A peer known to the rendezvous server: the endpoint it reported for itself
/// (`local_*`), the endpoint the server saw it connect from (`remote_*`) and
/// the optional secret it sent along.
pub struct Peer {
    pub local_address: Vec<u8>,
    pub local_port: u16,
    pub remote_address: Vec<u8>,
    pub remote_port: u16,
    pub secret: Vec<u8>,
}

/// What a `Peer` holds, as plain values.
pub struct PeerView {
    pub local_address: Seq<u8>,
    pub local_port: u16,
    pub remote_address: Seq<u8>,
    pub remote_port: u16,
    pub secret: Seq<u8>,
}

impl DeepView for Peer {
    type V = PeerView;

    open spec fn deep_view(&self) -> PeerView {
        PeerView {
            local_address: self.local_address@,
            local_port: self.local_port,
            remote_address: self.remote_address@,
            remote_port: self.remote_port,
            secret: self.secret@,
        }
    }
}

impl Peer {
    /// A copy of this peer, field by field.
    pub fn duplicate(&self) -> (r: Peer)
        ensures
            r.deep_view() == self.deep_view(),
    {
        Peer {
            local_address: copy_bytes(self.local_address.as_slice()),
            local_port: self.local_port,
            remote_address: copy_bytes(self.remote_address.as_slice()),
            remote_port: self.remote_port,
            secret: copy_bytes(self.secret.as_slice()),
        }
    }
}

/// Whether `p` connected to the server from `address:port`.
pub open spec fn at_endpoint(p: PeerView, address: Seq<u8>, port: u16) -> bool {
    p.remote_address == address && p.remote_port == port
}

/// The peers of `peers`, in order, but those that connected from
/// `address:port`.
pub open spec fn peers_except(peers: Seq<PeerView>, address: Seq<u8>, port: u16) -> Seq<PeerView>
    decreases peers.len(),
{
    if peers.len() == 0 {
        Seq::<PeerView>::empty()
    } else {
        let rest = peers_except(peers.drop_last(), address, port);
        if at_endpoint(peers.last(), address, port) {
            rest
        } else {
            rest.push(peers.last())
        }
    }
}

/// Returns the peers of `peers`, in order, leaving out those that connected
/// from `filter_ip:filter_port`.
pub fn filter_peers(peers: &Vec<Peer>, filter_ip: &[u8], filter_port: u16) -> (r: Vec<Peer>)
    ensures
        r.deep_view() == peers_except(peers.deep_view(), filter_ip@, filter_port),
{
    let mut result: Vec<Peer> = Vec::new();
    let n = peers.len();
    let mut i: usize = 0;
    while i < n
        invariant
            i <= n,
            n == peers.len(),
            result.deep_view() == peers_except(
                peers.deep_view().take(i as int),
                filter_ip@,
                filter_port,
            ),
        decreases n - i,
    {
        let ghost pv = peers.deep_view();
        let ghost before = result.deep_view();
        assert(pv.take(i + 1).drop_last() =~= pv.take(i as int));
        assert(pv.take(i + 1).last() == peers[i as int].deep_view());
        let p = &peers[i];
        if bytes_eq(p.remote_address.as_slice(), filter_ip) && p.remote_port == filter_port {
        } else {
            let copy = p.duplicate();
            result.push(copy);
            assert(result.deep_view() =~= before.push(p.deep_view()));
        }
        i = i + 1;
    }
    assert(peers.deep_view().take(n as int) =~= peers.deep_view());
    result
}

/// The ASCII code of `|`, which parts a peer's public endpoint from its
/// private one.
pub open spec fn bar() -> u8 {
    124u8
}

/// The ASCII code of `,`, which parts the peers of a listing.
pub open spec fn comma() -> u8 {
    44u8
}

/// How one peer is listed: `remote_address:remote_port|local_address:local_port`.
pub open spec fn peer_entry(p: PeerView) -> Seq<u8> {
    endpoint_text(p.remote_address, p.remote_port as nat) + seq![bar()] + endpoint_text(
        p.local_address,
        p.local_port as nat,
    )
}

/// The listing of `peers`: their entries in order, parted by `,`.
pub open spec fn peers_listing(peers: Seq<PeerView>) -> Seq<u8> {
    join_fields(peers.map_values(|p: PeerView| peer_entry(p)), comma())
}

/// Writes the listing of `peers` that the server sends to a client.
pub fn encode_peers(peers: &Vec<Peer>) -> (r: Vec<u8>)
    ensures
        r@ == peers_listing(peers.deep_view()),
{
    let mut keys: Vec<Vec<u8>> = Vec::new();
    let n = peers.len();
    let mut i: usize = 0;
    while i < n
        invariant
            i <= n,
            n == peers.len(),
            keys.deep_view() == peers.deep_view().take(i as int).map_values(
                |p: PeerView| peer_entry(p),
            ),
        decreases n - i,
    {
        let p = &peers[i];
        let mut entry = encode_endpoint(p.remote_address.as_slice(), p.remote_port);
        entry.push(124u8);
        let local = encode_endpoint(p.local_address.as_slice(), p.local_port);
        push_bytes(&mut entry, local.as_slice());
        let ghost before = keys.deep_view();
        proof {
            lemma_bytes_deep_view(entry);
        }
        assert(entry@ =~= peer_entry(p.deep_view()));
        keys.push(entry);
        assert(keys.deep_view() =~= before.push(peer_entry(p.deep_view())));
        assert(peers.deep_view().take(i + 1).map_values(|p: PeerView| peer_entry(p))
            =~= before.push(peer_entry(p.deep_view())));
        i = i + 1;
    }
    assert(peers.deep_view().take(n as int) =~= peers.deep_view());
    join_bytes(&keys, 44u8)
}


/// The fields of a registration a client sends: its local address, its local
/// port and its secret.
pub struct Registration {
    pub local_address: Vec<u8>,
    pub local_port: u16,
    pub secret: Vec<u8>,
}

/// The largest port number.
pub open spec fn port_max() -> nat {
    65535
}

/// What the server reads from a registration `message`, `address:port` or
/// `address:port:secret` (fields after the third are ignored): the address,
/// the port, and the secret (empty when the message holds none). `None` when
/// the message has no second field or that field is no port number.
pub open spec fn registration_fields(message: Seq<u8>) -> Option<(Seq<u8>, u16, Seq<u8>)> {
    let f = split_fields(message, colon());
    if f.len() >= 2 && parse_unsigned(f[1], port_max()) is Some {
        Some(
            (
                f[0],
                parse_unsigned(f[1], port_max())->0 as u16,
                if f.len() >= 3 {
                    f[2]
                } else {
                    Seq::<u8>::empty()
                },
            ),
        )
    } else {
        None
    }
}

/// Reads a registration message.
pub fn parse_registration(message: &[u8]) -> (r: Option<Registration>)
    ensures
        match registration_fields(message@) {
            Some((address, port, secret)) => r matches Some(reg) && reg.local_address@ == address
                && reg.local_port == port && reg.secret@ == secret,
            None => r is None,
        },
{
    let f = split_bytes(message, 58u8);
    if f.len() < 2 {
        return None;
    }
    assert(f.deep_view()[1] == f[1]@);
    assert(f.deep_view()[0] == f[0]@);
    match parse_unsigned_bounded(f[1].as_slice(), 65535u64) {
        None => None,
        Some(port) => {
            let secret = if f.len() >= 3 {
                assert(f.deep_view()[2] == f[2]@);
                copy_bytes(f[2].as_slice())
            } else {
                Vec::new()
            };
            Some(
                Registration {
                    local_address: copy_bytes(f[0].as_slice()),
                    local_port: port as u16,
                    secret,
                },
            )
        },
    }
}

/// A message for the client connected from `key`: the listing `payload`.
pub struct Notice {
    pub key: Vec<u8>,
    pub payload: Vec<u8>,
}

impl DeepView for Notice {
    type V = (Seq<u8>, Seq<u8>);

    open spec fn deep_view(&self) -> (Seq<u8>, Seq<u8>) {
        (self.key@, self.payload@)
    }
}

/// The notice for peer `p` of the registry `all`: the listing of every other
/// peer, addressed to the endpoint `p` connected from. `None` when there is no
/// other peer.
pub open spec fn notice_for(all: Seq<PeerView>, p: PeerView) -> Option<(Seq<u8>, Seq<u8>)> {
    let others = peers_except(all, p.remote_address, p.remote_port);
    if others.len() > 0 {
        Some((endpoint_text(p.remote_address, p.remote_port as nat), peers_listing(others)))
    } else {
        None
    }
}

/// The notices for the peers `ps`, in order, each against the registry `all`.
pub open spec fn notices_for(all: Seq<PeerView>, ps: Seq<PeerView>) -> Seq<(Seq<u8>, Seq<u8>)>
    decreases ps.len(),
{
    if ps.len() == 0 {
        Seq::<(Seq<u8>, Seq<u8>)>::empty()
    } else {
        let rest = notices_for(all, ps.drop_last());
        match notice_for(all, ps.last()) {
            Some(n) => rest.push(n),
            None => rest,
        }
    }
}

/// What the server sends once the registry is `all`: for each peer in turn
/// that is not alone, the listing of the others.
pub open spec fn announcements(all: Seq<PeerView>) -> Seq<(Seq<u8>, Seq<u8>)> {
    notices_for(all, all)
}

/// Computes the notices the server sends to the peers of `peers`.
pub fn broadcast_plan(peers: &Vec<Peer>) -> (r: Vec<Notice>)
    ensures
        r.deep_view() == announcements(peers.deep_view()),
{
    let mut out: Vec<Notice> = Vec::new();
    let n = peers.len();
    let mut i: usize = 0;
    while i < n
        invariant
            i <= n,
            n == peers.len(),
            out.deep_view() == notices_for(peers.deep_view(), peers.deep_view().take(i as int)),
        decreases n - i,
    {
        let ghost pv = peers.deep_view();
        let ghost before = out.deep_view();
        assert(pv.take(i + 1).drop_last() =~= pv.take(i as int));
        assert(pv.take(i + 1).last() == peers[i as int].deep_view());
        let p = &peers[i];
        let filtered = filter_peers(peers, p.remote_address.as_slice(), p.remote_port);
        if filtered.len() > 0 {
            let key = encode_endpoint(p.remote_address.as_slice(), p.remote_port);
            let payload = encode_peers(&filtered);
            let notice = Notice { key, payload };
            out.push(notice);
            assert(out.deep_view() =~= before.push(notice_for(pv, p.deep_view())->0));
        }
        i = i + 1;
    }
    assert(peers.deep_view().take(n as int) =~= peers.deep_view());
    out
}

/// Handles a registration `message` that a client sent from
/// `remote_address:remote_port`: adds the peer it describes to the registry
/// and returns the notices to send. On a message that is no registration the
/// registry is left as it is and `None` is returned.
pub fn handle_registration(
    peers: &mut Vec<Peer>,
    message: &[u8],
    remote_address: &[u8],
    remote_port: u16,
) -> (r: Option<Vec<Notice>>)
    ensures
        match registration_fields(message@) {
            Some((address, port, secret)) => {
                &&& final(peers).deep_view() == old(peers).deep_view().push(
                    PeerView {
                        local_address: address,
                        local_port: port,
                        remote_address: remote_address@,
                        remote_port: remote_port,
                        secret: secret,
                    },
                )
                &&& r matches Some(notices) && notices.deep_view() == announcements(
                    final(peers).deep_view(),
                )
            },
            None => r is None && final(peers).deep_view() == old(peers).deep_view(),
        },
{
    match parse_registration(message) {
        None => None,
        Some(reg) => {
            let peer = Peer {
                local_address: reg.local_address,
                local_port: reg.local_port,
                remote_address: copy_bytes(remote_address),
                remote_port,
                secret: reg.secret,
            };
            let ghost before = peers.deep_view();
            let ghost pv = peer.deep_view();
            peers.push(peer);
            assert(peers.deep_view() =~= before.push(pv));
            Some(broadcast_plan(peers))
        },
    }
}

/// Whether `i` is the position of the first peer of `peers` that connected
/// from `address:port`.
pub open spec fn is_first_at(peers: Seq<PeerView>, address: Seq<u8>, port: u16, i: int) -> bool {
    &&& 0 <= i < peers.len()
    &&& at_endpoint(peers[i], address, port)
    &&& forall|j: int| 0 <= j < i ==> !at_endpoint(#[trigger] peers[j], address, port)
}

/// Handles the loss of the client connected from
/// `remote_address:remote_port`: removes the first peer registered from that
/// endpoint, if any, and returns its position.
pub fn handle_disconnect(peers: &mut Vec<Peer>, remote_address: &[u8], remote_port: u16) -> (r:
    Option<usize>)
    ensures
        match r {
            Some(i) => is_first_at(old(peers).deep_view(), remote_address@, remote_port, i as int)
                && final(peers).deep_view() == old(peers).deep_view().remove(i as int),
            None => (forall|j: int|
                0 <= j < old(peers).deep_view().len() ==> !at_endpoint(
                    #[trigger] old(peers).deep_view()[j],
                    remote_address@,
                    remote_port,
                )) && final(peers).deep_view() == old(peers).deep_view(),
        },
{
    let n = peers.len();
    let mut i: usize = 0;
    while i < n
        invariant
            i <= n,
            n == peers.len(),
            peers.deep_view() == old(peers).deep_view(),
            forall|j: int|
                0 <= j < i ==> !at_endpoint(
                    #[trigger] peers.deep_view()[j],
                    remote_address@,
                    remote_port,
                ),
        decreases n - i,
    {
        if bytes_eq(peers[i].remote_address.as_slice(), remote_address) && peers[i].remote_port
            == remote_port {
            let ghost before = peers.deep_view();
            assert(before[i as int] == peers[i as int].deep_view());
            peers.remove(i);
            assert(peers.deep_view() =~= before.remove(i as int));
            return Some(i);
        }
        assert(peers.deep_view()[i as int] == peers[i as int].deep_view());
        i = i + 1;
    }
    None
}

/// The address the server listens on when none is given: `0.0.0.0`.
pub open spec fn default_ip() -> Seq<u8> {
    seq![48u8, 46u8, 48u8, 46u8, 48u8, 46u8, 48u8]
}

/// The address `ip:port` the server binds to, `ip` being `0.0.0.0` when none
/// is given.
pub fn bind_address(ip: Option<&[u8]>, port: &[u8]) -> (r: Vec<u8>)
    ensures
        r@ == (match ip {
            Some(given) => given@,
            None => default_ip(),
        }) + seq![colon()] + port@,
{
    let mut out: Vec<u8> = Vec::new();
    match ip {
        Some(given) => push_bytes(&mut out, given),
        None => {
            out.push(48u8);
            out.push(46u8);
            out.push(48u8);
            out.push(46u8);
            out.push(48u8);
            out.push(46u8);
            out.push(48u8);
        },
    }
    out.push(58u8);
    push_bytes(&mut out, port);
    proof {
        assert(out@ =~= (match ip {
            Some(given) => given@,
            None => default_ip(),
        }) + seq![colon()] + port@);
    }
    out
}


/// A peer that connected from `address:port` is never kept by the filter.
pub proof fn law_filter_excludes(peers: Seq<PeerView>, address: Seq<u8>, port: u16)
    ensures
        forall|i: int|
            0 <= i < peers_except(peers, address, port).len() ==> !at_endpoint(
                #[trigger] peers_except(peers, address, port)[i],
                address,
                port,
            ),
    decreases peers.len(),
{
    if peers.len() > 0 {
        let rest = peers_except(peers.drop_last(), address, port);
        law_filter_excludes(peers.drop_last(), address, port);
        assert forall|i: int| 0 <= i < peers_except(peers, address, port).len() implies !at_endpoint(
            #[trigger] peers_except(peers, address, port)[i],
            address,
            port,
        ) by {
            if i < rest.len() {
                assert(peers_except(peers, address, port)[i] == rest[i]);
            }
        }
    }
}

/// Every peer that did not connect from `address:port` is kept by the filter,
/// and the filter keeps nothing else.
pub proof fn law_filter_keeps_others(peers: Seq<PeerView>, address: Seq<u8>, port: u16)
    ensures
        forall|i: int|
            0 <= i < peers.len() && !at_endpoint(peers[i], address, port) ==> peers_except(
                peers,
                address,
                port,
            ).contains(#[trigger] peers[i]),
        forall|i: int|
            0 <= i < peers_except(peers, address, port).len() ==> peers.contains(
                #[trigger] peers_except(peers, address, port)[i],
            ),
    decreases peers.len(),
{
    if peers.len() > 0 {
        let init = peers.drop_last();
        law_filter_keeps_others(init, address, port);
        let rest = peers_except(init, address, port);
        assert forall|i: int|
            0 <= i < peers.len() && !at_endpoint(peers[i], address, port) implies peers_except(
            peers,
            address,
            port,
        ).contains(#[trigger] peers[i]) by {
            if i < init.len() {
                assert(init[i] == peers[i]);
                let k = choose|k: int| 0 <= k < rest.len() && rest[k] == init[i];
                assert(peers_except(peers, address, port)[k] == peers[i]);
            } else {
                assert(peers_except(peers, address, port) == rest.push(peers.last()));
                assert(peers_except(peers, address, port)[rest.len() as int] == peers[i]);
            }
        }
        assert forall|i: int| 0 <= i < peers_except(peers, address, port).len() implies peers.contains(
            #[trigger] peers_except(peers, address, port)[i],
        ) by {
            if i < rest.len() {
                assert(peers_except(peers, address, port)[i] == rest[i]);
                let k = choose|k: int| 0 <= k < init.len() && init[k] == rest[i];
                assert(peers[k] == init[k]);
            } else {
                assert(peers_except(peers, address, port)[i] == peers[peers.len() - 1]);
            }
        }
    }
}

/// Whether `notice` goes to `remote_address:remote_port` of the peer at
/// position `j` of `all` and carries the listing of the peers that did not
/// connect from that endpoint, of which there is at least one.
pub open spec fn notice_to_peer(all: Seq<PeerView>, j: int, notice: (Seq<u8>, Seq<u8>)) -> bool {
    &&& 0 <= j < all.len()
    &&& peers_except(all, all[j].remote_address, all[j].remote_port).len() > 0
    &&& notice.0 == all[j].remote_address + seq![58u8] + decimal(all[j].remote_port as nat)
    &&& notice.1 == peers_listing(peers_except(all, all[j].remote_address, all[j].remote_port))
}

proof fn lemma_notice_at(all: Seq<PeerView>, i: int)
    requires
        0 <= i < announcements(all).len(),
    ensures
        exists|j: int| notice_to_peer(all, j, #[trigger] announcements(all)[i]),
{
    lemma_notices_from(all, all);
    let j = choose|j: int|
        0 <= j < all.len() && notice_for(all, all[j]) == Some(#[trigger] notices_for(all, all)[i]);
    assert(endpoint_text(all[j].remote_address, all[j].remote_port as nat) =~= all[j].remote_address
        + seq![58u8] + decimal(all[j].remote_port as nat));
    assert(notice_to_peer(all, j, announcements(all)[i]));
}

/// The position of a peer to whose endpoint the `i`-th notice of `all` goes.
pub open spec fn notice_recipient(all: Seq<PeerView>, i: int) -> int {
    choose|j: int| notice_to_peer(all, j, announcements(all)[i])
}

/// Every notice goes to `remote_address:remote_port` of a registered peer
/// and carries the listing of the peers that did not connect from that
/// endpoint, of which there is at least one.
pub proof fn law_notices_list_the_others(all: Seq<PeerView>)
    ensures
        forall|i: int|
            0 <= i < announcements(all).len() ==> notice_to_peer(
                all,
                notice_recipient(all, i),
                #[trigger] announcements(all)[i],
            ),
{
    assert forall|i: int| 0 <= i < announcements(all).len() implies notice_to_peer(
        all,
        notice_recipient(all, i),
        #[trigger] announcements(all)[i],
    ) by {
        lemma_notice_at(all, i);
    }
}

proof fn lemma_notices_from(all: Seq<PeerView>, ps: Seq<PeerView>)
    ensures
        forall|i: int|
            0 <= i < notices_for(all, ps).len() ==> exists|j: int|
                0 <= j < ps.len() && notice_for(all, ps[j]) == Some(
                    #[trigger] notices_for(all, ps)[i],
                ),
    decreases ps.len(),
{
    if ps.len() > 0 {
        let init = ps.drop_last();
        lemma_notices_from(all, init);
        let rest = notices_for(all, init);
        assert forall|i: int| 0 <= i < notices_for(all, ps).len() implies exists|j: int|
            0 <= j < ps.len() && notice_for(all, ps[j]) == Some(
                #[trigger] notices_for(all, ps)[i],
            ) by {
            if i < rest.len() {
                assert(notices_for(all, ps)[i] == rest[i]);
                let j = choose|j: int|
                    0 <= j < init.len() && notice_for(all, init[j]) == Some(#[trigger] rest[i]);
                assert(ps[j] == init[j]);
            } else {
                assert(notice_for(all, ps[ps.len() - 1]) == Some(notices_for(all, ps)[i]));
            }
        }
    }
}

/// A peer alone in the registry is sent nothing.
pub proof fn law_lone_peer_hears_nothing(a: PeerView)
    ensures
        announcements(seq![a]).len() == 0,
{
    let all = seq![a];
    let e = Seq::<PeerView>::empty();
    assert(all.drop_last() =~= e);
    assert(all.last() == a);
    assert(peers_except(e, a.remote_address, a.remote_port) == e);
    assert(peers_except(all, a.remote_address, a.remote_port).len() == 0);
    assert(notice_for(all, a) is None);
    assert(notices_for(all, e).len() == 0);
    assert(notices_for(all, all).len() == 0);
}

/// Two peers that connected from different endpoints are each sent the
/// listing of the other: what the rendezvous server is for.
pub proof fn law_two_peers_meet(a: PeerView, b: PeerView)
    requires
        !at_endpoint(b, a.remote_address, a.remote_port),
    ensures
        announcements(seq![a, b]) == seq![
            (endpoint_text(a.remote_address, a.remote_port as nat), peers_listing(seq![b])),
            (endpoint_text(b.remote_address, b.remote_port as nat), peers_listing(seq![a])),
        ],
{
    let all = seq![a, b];
    assert(!at_endpoint(a, b.remote_address, b.remote_port));
    let e = Seq::<PeerView>::empty();
    assert(all.drop_last() =~= seq![a]);
    assert(seq![a].drop_last() =~= e);
    assert(seq![a].last() == a);
    assert(all.last() == b);
    assert(peers_except(e, a.remote_address, a.remote_port) == e);
    assert(peers_except(e, b.remote_address, b.remote_port) == e);
    assert(peers_except(seq![a], a.remote_address, a.remote_port) =~= e);
    assert(peers_except(all, a.remote_address, a.remote_port) =~= seq![b]);
    assert(peers_except(seq![a], b.remote_address, b.remote_port) =~= seq![a]);
    assert(peers_except(all, b.remote_address, b.remote_port) =~= seq![a]);
    assert(notices_for(all, e) =~= Seq::<(Seq<u8>, Seq<u8>)>::empty());
    let na = (endpoint_text(a.remote_address, a.remote_port as nat), peers_listing(seq![b]));
    let nb = (endpoint_text(b.remote_address, b.remote_port as nat), peers_listing(seq![a]));
    assert(notice_for(all, a) == Some(na));
    assert(notice_for(all, b) == Some(nb));
    assert(notices_for(all, seq![a]) =~= seq![na]);
    assert(notices_for(all, all) =~= seq![na].push(nb));
    assert(notices_for(all, all) =~= seq![
        (endpoint_text(a.remote_address, a.remote_port as nat), peers_listing(seq![b])),
        (endpoint_text(b.remote_address, b.remote_port as nat), peers_listing(seq![a])),
    ]);
}

/// When no peer of `before` connected from the endpoint of `p`, registering
/// `p` and then losing its connection leaves the registry as it was: the
/// first peer at that endpoint is `p`, and removing it gives `before`.
pub proof fn law_disconnect_undoes_registration(before: Seq<PeerView>, p: PeerView)
    requires
        forall|j: int|
            0 <= j < before.len() ==> !at_endpoint(
                #[trigger] before[j],
                p.remote_address,
                p.remote_port,
            ),
    ensures
        is_first_at(before.push(p), p.remote_address, p.remote_port, before.len() as int),
        before.push(p).remove(before.len() as int) == before,
{
    let after = before.push(p);
    assert forall|j: int| 0 <= j < before.len() implies !at_endpoint(
        #[trigger] after[j],
        p.remote_address,
        p.remote_port,
    ) by {
        assert(after[j] == before[j]);
    }
    assert(after.remove(before.len() as int) =~= before);
}

/// The first position of a peer at an endpoint is unique.
pub proof fn law_first_at_unique(peers: Seq<PeerView>, address: Seq<u8>, port: u16, i: int, k: int)
    requires
        is_first_at(peers, address, port, i),
        is_first_at(peers, address, port, k),
    ensures
        i == k,
{
    if i < k {
        assert(!at_endpoint(peers[i], address, port));
    } else if k < i {
        assert(!at_endpoint(peers[k], address, port));
    }
}

/// The server reads back the endpoint a client registers with: the message
/// `address:port` that a client sends gives that address and port, and no
/// secret.
pub proof fn law_registration_roundtrip(address: Seq<u8>, port: u16)
    requires
        free_of(address, colon()),
    ensures
        registration_fields(endpoint_text(address, port as nat)) == Some(
            (address, port, Seq::<u8>::empty()),
        ),
{
    lemma_endpoint_fields(address, port as nat);
    lemma_parse_decimal_roundtrip(port as nat, port_max());
    let f = split_fields(endpoint_text(address, port as nat), colon());
    assert(f[1] == decimal(port as nat));
}


/// The server reads a registration that carries a secret: the message
/// `<address>:<digits>:<secret>`, address and secret without `:` and the
/// digits spelling a port, gives that address, that port and that secret.
pub proof fn law_registration_with_secret(address: Seq<u8>, digits: Seq<u8>, secret: Seq<u8>)
    requires
        free_of(address, 58u8),
        free_of(secret, 58u8),
        digits.len() > 0,
        all_digits(digits),
        digits_value(digits) <= 65535,
    ensures
        registration_fields(address + seq![58u8] + digits + seq![58u8] + secret) == Some(
            (address, digits_value(digits) as u16, secret),
        ),
{
    let parts = seq![address, digits, secret];
    assert forall|i: int| 0 <= i < parts.len() implies free_of(#[trigger] parts[i], 58u8) by {
        if i == 0 {
            assert(parts[i] == address);
        } else if i == 1 {
            assert(parts[i] == digits);
            assert forall|k: int| 0 <= k < digits.len() implies #[trigger] digits[k] != 58u8 by {
                assert(is_digit(digits[k]));
            }
        } else {
            assert(parts[i] == secret);
        }
    }
    lemma_split_join(parts, 58u8);
    assert(parts.drop_last().drop_last() =~= seq![address]);
    assert(parts.drop_last() =~= seq![address, digits]);
    assert(join_fields(seq![address], 58u8) == address);
    assert(join_fields(seq![address, digits], 58u8) == address + seq![58u8] + digits);
    assert(join_fields(parts, 58u8) == address + seq![58u8] + digits + seq![58u8] + secret);
    assert(digits[0] != 43u8) by {
        assert(is_digit(digits[0]));
    }
    assert(unsigned_digits(digits) == digits);
}

/// The text of the endpoint `address:port`, written out.
proof fn lemma_entry_text(p: PeerView)
    ensures
        peer_entry(p) == p.remote_address + seq![58u8] + decimal(p.remote_port as nat) + seq![124u8]
            + p.local_address + seq![58u8] + decimal(p.local_port as nat),
{
    assert(peer_entry(p) =~= p.remote_address + seq![58u8] + decimal(p.remote_port as nat)
        + seq![124u8] + p.local_address + seq![58u8] + decimal(p.local_port as nat));
}

/// The listing of an empty registry is empty.
pub proof fn law_empty_listing()
    ensures
        peers_listing(Seq::<PeerView>::empty()).len() == 0,
{
    let e = Seq::<PeerView>::empty();
    assert(e.map_values(|p: PeerView| peer_entry(p)).len() == 0);
}

/// The listing of one or more peers, none of whose addresses holds `,`,
/// splits at `,` into one entry per peer, in order: the entry of a peer is
/// `remote_address:remote_port|local_address:local_port`, ports in decimal.
pub proof fn law_listing_entries(peers: Seq<PeerView>)
    requires
        peers.len() >= 1,
        forall|i: int|
            0 <= i < peers.len() ==> free_of(#[trigger] peers[i].remote_address, 44u8) && free_of(
                peers[i].local_address,
                44u8,
            ),
    ensures
        split_fields(peers_listing(peers), 44u8) == Seq::new(
            peers.len(),
            |i: int|
                peers[i].remote_address + seq![58u8] + decimal(peers[i].remote_port as nat)
                    + seq![124u8] + peers[i].local_address + seq![58u8] + decimal(
                    peers[i].local_port as nat,
                ),
        ),
{
    let entries = peers.map_values(|p: PeerView| peer_entry(p));
    assert(!is_digit(44u8));
    assert forall|i: int| 0 <= i < entries.len() implies free_of(#[trigger] entries[i], 44u8) by {
        let p = peers[i];
        assert(free_of(p.remote_address, 44u8));
        lemma_endpoint_free_of(p.remote_address, p.remote_port as nat, 44u8);
        lemma_endpoint_free_of(p.local_address, p.local_port as nat, 44u8);
        let r = endpoint_text(p.remote_address, p.remote_port as nat);
        let l = endpoint_text(p.local_address, p.local_port as nat);
        let e = peer_entry(p);
        assert(entries[i] == e);
        assert forall|k: int| 0 <= k < e.len() implies #[trigger] e[k] != 44u8 by {
            if k < r.len() {
                assert(e[k] == r[k]);
            } else if k == r.len() {
                assert(e[k] == 124u8);
            } else {
                assert(e[k] == l[k - r.len() - 1]);
            }
        }
    }
    lemma_split_join(entries, 44u8);
    assert forall|i: int| 0 <= i < entries.len() implies #[trigger] entries[i] == peers[i].remote_address
        + seq![58u8] + decimal(peers[i].remote_port as nat) + seq![124u8] + peers[i].local_address
        + seq![58u8] + decimal(peers[i].local_port as nat) by {
        lemma_entry_text(peers[i]);
    }
    assert(entries =~= Seq::new(
        peers.len(),
        |i: int|
            peers[i].remote_address + seq![58u8] + decimal(peers[i].remote_port as nat) + seq![124u8]
                + peers[i].local_address + seq![58u8] + decimal(peers[i].local_port as nat),
    ));
}

/// When exactly the peer at position `k` connected from `address:port`, the
/// filter leaves out exactly that peer.
proof fn lemma_except_one(peers: Seq<PeerView>, address: Seq<u8>, port: u16, k: int)
    requires
        0 <= k < peers.len(),
        at_endpoint(peers[k], address, port),
        forall|j: int| 0 <= j < peers.len() && j != k ==> !at_endpoint(#[trigger] peers[j], address, port),
    ensures
        peers_except(peers, address, port) == peers.remove(k),
    decreases peers.len(),
{
    let init = peers.drop_last();
    if k == peers.len() - 1 {
        lemma_except_none(init, address, port);
        assert(peers.remove(k) =~= init);
    } else {
        assert forall|j: int| 0 <= j < init.len() && j != k implies !at_endpoint(
            #[trigger] init[j],
            address,
            port,
        ) by {
            assert(init[j] == peers[j]);
        }
        assert(init[k] == peers[k]);
        lemma_except_one(init, address, port, k);
        assert(!at_endpoint(peers[peers.len() - 1], address, port));
        assert(peers.remove(k) =~= init.remove(k).push(peers.last()));
    }
}

/// When no peer connected from `address:port`, the filter keeps them all.
proof fn lemma_except_none(peers: Seq<PeerView>, address: Seq<u8>, port: u16)
    requires
        forall|j: int| 0 <= j < peers.len() ==> !at_endpoint(#[trigger] peers[j], address, port),
    ensures
        peers_except(peers, address, port) == peers,
    decreases peers.len(),
{
    if peers.len() > 0 {
        let init = peers.drop_last();
        assert forall|j: int| 0 <= j < init.len() implies !at_endpoint(
            #[trigger] init[j],
            address,
            port,
        ) by {
            assert(init[j] == peers[j]);
        }
        lemma_except_none(init, address, port);
        assert(!at_endpoint(peers[peers.len() - 1], address, port));
        assert(init.push(peers.last()) =~= peers);
    }
}

/// Whether the peers of `peers` connected from pairwise different endpoints.
pub open spec fn distinct_endpoints(peers: Seq<PeerView>) -> bool {
    forall|i: int, j: int|
        0 <= i < peers.len() && 0 <= j < peers.len() && i != j ==> !(#[trigger] peers[i].remote_address
            == #[trigger] peers[j].remote_address && peers[i].remote_port == peers[j].remote_port)
}

proof fn lemma_notices_prefix(all: Seq<PeerView>, m: int)
    requires
        all.len() >= 2,
        distinct_endpoints(all),
        0 <= m <= all.len(),
    ensures
        notices_for(all, all.take(m)).len() == m,
        forall|i: int|
            0 <= i < m ==> #[trigger] notices_for(all, all.take(m))[i] == (
                all[i].remote_address + seq![58u8] + decimal(all[i].remote_port as nat),
                peers_listing(all.remove(i)),
            ),
    decreases m,
{
    if m > 0 {
        lemma_notices_prefix(all, m - 1);
        let ps = all.take(m);
        assert(ps.drop_last() =~= all.take(m - 1));
        assert(ps.last() == all[m - 1]);
        let p = all[m - 1];
        assert forall|j: int| 0 <= j < all.len() && j != m - 1 implies !at_endpoint(
            #[trigger] all[j],
            p.remote_address,
            p.remote_port,
        ) by {
            assert(!(all[j].remote_address == all[m - 1].remote_address && all[j].remote_port
                == all[m - 1].remote_port));
        }
        lemma_except_one(all, p.remote_address, p.remote_port, m - 1);
        assert(all.remove(m - 1).len() >= 1);
        assert(notice_for(all, p) == Some(
            (
                p.remote_address + seq![58u8] + decimal(p.remote_port as nat),
                peers_listing(all.remove(m - 1)),
            ),
        ));
    }
}

/// In a registry of two or more peers that connected from pairwise different
/// endpoints, the server sends one notice per peer, in registry order: the
/// notice for the peer at position `i` goes to `remote_address:remote_port`
/// of that peer and carries the listing of all the other peers, in order.
pub proof fn law_each_peer_told_the_others(all: Seq<PeerView>)
    requires
        all.len() >= 2,
        distinct_endpoints(all),
    ensures
        announcements(all).len() == all.len(),
        forall|i: int|
            0 <= i < all.len() ==> #[trigger] notices_for(all, all)[i] == (
                all[i].remote_address + seq![58u8] + decimal(all[i].remote_port as nat),
                peers_listing(all.remove(i)),
            ),
{
    lemma_notices_prefix(all, all.len() as int);
    assert(all.take(all.len() as int) =~= all);
}

} // verus!
