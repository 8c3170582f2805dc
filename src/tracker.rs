//! The tracker side of the orchestrator: the announce URL, the response's
//! peer list, and when to announce next.

use crate::bencode::{dict_take, lookup, BValue};
use crate::downloader::PeerAddress;
use crate::protocol::DownloaderId;
use crate::text::{dec_chars, push_char, push_decimal};
use crate::wire::be32;
use vstd::prelude::*;

verus! {

/// What the tracker client is made with.
pub struct TrackerArgs {
    pub tracker_url: String,
    pub info_hash: [u8; 20],
    pub id: DownloaderId,
    pub port: u16,
}

/// The upper-case hexadecimal digit of `d`.
pub open spec fn hex_digit(d: nat) -> char {
    if d < 10 {
        ((48 + d) as u8) as char
    } else {
        ((65 + d - 10) as u8) as char
    }
}

/// `%HH` for each byte, with upper-case hex digits.
pub open spec fn percent_encoded(bytes: Seq<u8>) -> Seq<char>
    decreases bytes.len(),
{
    if bytes.len() == 0 {
        Seq::empty()
    } else {
        let b = bytes.last() as nat;
        percent_encoded(bytes.drop_last()) + seq!['%', hex_digit(b / 16), hex_digit(b % 16)]
    }
}

/// Each byte as the character with that code (ISO-8859-1).
pub open spec fn latin1(bytes: Seq<u8>) -> Seq<char> {
    Seq::new(bytes.len(), |i: int| bytes[i] as char)
}

/// `&name=value`.
pub open spec fn url_arg(name: Seq<char>, value: Seq<char>) -> Seq<char> {
    seq!['&'] + name + seq!['='] + value
}

/// The announce URL: the tracker URL with the query `info_hash`, `peer_id`,
/// `port`, `uploaded`, `downloaded`, `left`, `compact=1`, and
/// `event=started` until an announce has succeeded.
pub open spec fn announce_url(
    url: Seq<char>,
    info_hash: Seq<u8>,
    id: Seq<u8>,
    port: nat,
    up: nat,
    down: nat,
    left: nat,
    sent_started: bool,
) -> Seq<char> {
    url + "?info_hash="@ + percent_encoded(info_hash) + url_arg("peer_id"@, latin1(id)) + url_arg(
        "port"@,
        dec_chars(port),
    ) + url_arg("uploaded"@, dec_chars(up)) + url_arg("downloaded"@, dec_chars(down)) + url_arg(
        "left"@,
        dec_chars(left),
    ) + url_arg("compact"@, "1"@) + if sent_started {
        Seq::empty()
    } else {
        url_arg("event"@, "started"@)
    }
}

fn hex_char(d: u8) -> (r: char)
    requires
        d < 16,
    ensures
        r == hex_digit(d as nat),
{
    if d < 10 {
        (48 + d) as char
    } else {
        (65 + (d - 10)) as char
    }
}

/// Appends `&name=value`.
pub fn push_url_arg(url: &mut String, name: &str, value: &str)
    ensures
        final(url)@ == old(url)@ + url_arg(name@, value@),
{
    url.append("&");
    url.append(name);
    url.append("=");
    url.append(value);
    proof {
        reveal_strlit("&");
        reveal_strlit("=");
    }
    assert(url@ =~= old(url)@ + url_arg(name@, value@));
}

/// Appends `&name=` and the decimal digits of `n`.
fn push_number_arg(url: &mut String, name: &str, n: u64)
    ensures
        final(url)@ == old(url)@ + url_arg(name@, dec_chars(n as nat)),
{
    push_url_arg(url, name, "");
    proof {
        reveal_strlit("");
    }
    push_decimal(url, n);
    assert(url@ =~= old(url)@ + url_arg(name@, dec_chars(n as nat)));
}

/// The announce URL for the given transfer counts.
pub fn build_request(args: &TrackerArgs, sent_started: bool, down: usize, up: usize, left: usize) -> (r: String)
    ensures
        r@ == announce_url(
            args.tracker_url@,
            args.info_hash@,
            args.id.0@,
            args.port as nat,
            up as nat,
            down as nat,
            left as nat,
            sent_started,
        ),
{
    let mut url = args.tracker_url.clone();
    url.append("?info_hash=");
    let ghost head = url@;
    let mut i: usize = 0;
    while i < 20
        invariant
            i <= 20,
            args.info_hash@.len() == 20,
            url@ == head + percent_encoded(args.info_hash@.subrange(0, i as int)),
        decreases 20 - i,
    {
        let byte = args.info_hash[i];
        push_char(&mut url, '%');
        push_char(&mut url, hex_char(byte / 16));
        push_char(&mut url, hex_char(byte % 16));
        i = i + 1;
        assert(args.info_hash@.subrange(0, i as int).drop_last() =~= args.info_hash@.subrange(0, i - 1));
        assert(url@ =~= head + percent_encoded(args.info_hash@.subrange(0, i as int)));
    }
    assert(args.info_hash@.subrange(0, 20) =~= args.info_hash@);
    push_url_arg(&mut url, "peer_id", "");
    proof {
        reveal_strlit("");
    }
    let ghost head2 = url@;
    let mut k: usize = 0;
    while k < 20
        invariant
            k <= 20,
            args.id.0@.len() == 20,
            url@ == head2 + latin1(args.id.0@.subrange(0, k as int)),
        decreases 20 - k,
    {
        push_char(&mut url, args.id.0[k] as char);
        k = k + 1;
        assert(url@ =~= head2 + latin1(args.id.0@.subrange(0, k as int)));
    }
    assert(args.id.0@.subrange(0, 20) =~= args.id.0@);
    push_number_arg(&mut url, "port", args.port as u64);
    push_number_arg(&mut url, "uploaded", up as u64);
    push_number_arg(&mut url, "downloaded", down as u64);
    push_number_arg(&mut url, "left", left as u64);
    push_url_arg(&mut url, "compact", "1");
    if !sent_started {
        push_url_arg(&mut url, "event", "started");
    }
    assert(url@ =~= announce_url(
        args.tracker_url@,
        args.info_hash@,
        args.id.0@,
        args.port as nat,
        up as nat,
        down as nat,
        left as nat,
        sent_started,
    ));
    url
}

/// A peer as a tracker lists it: packed as an address, or given by the
/// text of its IP address and a port.
#[derive(Debug, Clone, PartialEq, Eq)]
pub enum PeerEntry {
    Address(PeerAddress),
    Named(Vec<u8>, u16),
}

/// What a tracker answered: seconds to the next announce, and peers.
#[derive(Debug)]
pub struct Response {
    pub peers: Vec<PeerEntry>,
    pub interval: u64,
}

#[derive(Debug, Clone, Copy, PartialEq, Eq, Structural)]
pub enum ResponseError {
    NotADict,
    MissingInterval,
    NegativeInterval,
    MissingPeers,
    BadPeerListLength,
    BadPeerListFormat,
    BadPeer,
    MissingPeerIp,
    MissingPeerPort,
    BadPeerPort,
}

pub open spec fn key_interval() -> Seq<u8> {
    seq![105u8, 110u8, 116u8, 101u8, 114u8, 118u8, 97u8, 108u8]
}

pub open spec fn key_peers() -> Seq<u8> {
    seq![112u8, 101u8, 101u8, 114u8, 115u8]
}

pub open spec fn key_ip() -> Seq<u8> {
    seq![105u8, 112u8]
}

pub open spec fn key_port() -> Seq<u8> {
    seq![112u8, 111u8, 114u8, 116u8]
}

/// The IPv6 form of an IPv4 address (`::ffff:a.b.c.d`).
pub open spec fn ipv4_mapped(v4: nat) -> u128 {
    (281470681743360 + v4) as u128
}

/// The peer packed in six bytes: IPv4 address and port, both big-endian.
pub open spec fn packed_peer(s: Seq<u8>) -> PeerAddress {
    PeerAddress { ip: ipv4_mapped(be32(s)), port: ((s[4] as nat) * 256 + (s[5] as nat)) as u16 }
}

/// Reads one packed peer list.
pub fn decode_packed_peers(s: &[u8]) -> (r: Result<Vec<PeerEntry>, ResponseError>)
    ensures
        s@.len() % 6 != 0 ==> r == Err::<Vec<PeerEntry>, ResponseError>(ResponseError::BadPeerListLength),
        s@.len() % 6 == 0 ==> r is Ok,
        r matches Ok(v) ==> v@.len() * 6 == s@.len() && forall|i: int|
            0 <= i < v@.len() ==> #[trigger] v@[i] == PeerEntry::Address(
                packed_peer(s@.subrange(6 * i, 6 * i + 6)),
            ),
{
    if s.len() % 6 != 0 {
        return Err(ResponseError::BadPeerListLength);
    }
    let total = s.len();
    let count = total / 6;
    let mut peers: Vec<PeerEntry> = Vec::new();
    let mut i: usize = 0;
    while i < count
        invariant
            count * 6 == s@.len(),
            s@.len() <= usize::MAX,
            i <= count,
            peers@.len() == i,
            forall|k: int|
                0 <= k < i ==> #[trigger] peers@[k] == PeerEntry::Address(
                    packed_peer(s@.subrange(6 * k, 6 * k + 6)),
                ),
        decreases count - i,
    {
        let base = 6 * i;
        let ip = (s[base] as u128) * 16777216 + (s[base + 1] as u128) * 65536 + (s[base + 2] as u128)
            * 256 + (s[base + 3] as u128);
        let port = (s[base + 4] as u16) * 256 + (s[base + 5] as u16);
        let address = PeerAddress::new(281470681743360 + ip, port);
        proof {
            let w = s@.subrange(6 * i, 6 * i + 6);
            assert(w[0] == s@[base as int] && w[1] == s@[base + 1] && w[2] == s@[base + 2] && w[3]
                == s@[base + 3] && w[4] == s@[base + 4] && w[5] == s@[base + 5]);
        }
        peers.push(PeerEntry::Address(address));
        i = i + 1;
    }
    Ok(peers)
}

/// The error that reading peer dictionary `v` ends with, if any.
pub open spec fn peer_error(v: BValue) -> Option<ResponseError> {
    if !(v is Dict) {
        Some(ResponseError::BadPeer)
    } else {
        let d = v->Dict_0@;
        let ip = lookup(d, key_ip());
        let port = lookup(d, key_port());
        if !(ip is Some && ip->Some_0 is Str) {
            Some(ResponseError::MissingPeerIp)
        } else if !(port is Some && port->Some_0 is Int) {
            Some(ResponseError::MissingPeerPort)
        } else if port->Some_0->Int_0 < 0 || port->Some_0->Int_0 > 65535 {
            Some(ResponseError::BadPeerPort)
        } else {
            None
        }
    }
}

/// The error of the first peer dictionary from `k` on that has one.
pub open spec fn peer_list_error(l: Seq<BValue>, k: int) -> Option<ResponseError>
    decreases l.len() - k,
{
    if k < 0 || k >= l.len() {
        None
    } else if peer_error(l[k]) is Some {
        peer_error(l[k])
    } else {
        peer_list_error(l, k + 1)
    }
}

/// The error that reading peer list `v` ends with, if any.
pub open spec fn peers_error(v: BValue) -> Option<ResponseError> {
    match v {
        BValue::List(l) => peer_list_error(l@, 0),
        BValue::Str(s) => if s@.len() % 6 != 0 {
            Some(ResponseError::BadPeerListLength)
        } else {
            None
        },
        _ => Some(ResponseError::BadPeerListFormat),
    }
}

/// `r` are the peers that list `v` gives.
pub open spec fn peers_of(v: BValue, r: Seq<PeerEntry>) -> bool {
    match v {
        BValue::List(l) => l@.len() == r.len() && forall|i: int|
            0 <= i < r.len() ==> named_peer_of(#[trigger] l@[i], r[i]),
        BValue::Str(s) => r.len() * 6 == s@.len() && forall|i: int|
            0 <= i < r.len() ==> #[trigger] r[i] == PeerEntry::Address(
                packed_peer(s@.subrange(6 * i, 6 * i + 6)),
            ),
        _ => false,
    }
}

/// The error that reading tracker response `v` ends with, if any.
pub open spec fn response_error(v: BValue) -> Option<ResponseError> {
    if !(v is Dict) {
        Some(ResponseError::NotADict)
    } else {
        let d = v->Dict_0@;
        let interval = lookup(d, key_interval());
        if !(interval is Some && interval->Some_0 is Int) {
            Some(ResponseError::MissingInterval)
        } else if interval->Some_0->Int_0 < 0 {
            Some(ResponseError::NegativeInterval)
        } else if lookup(d, key_peers()) is None {
            Some(ResponseError::MissingPeers)
        } else {
            peers_error(lookup(d, key_peers())->Some_0)
        }
    }
}

proof fn lemma_peer_list_skip(l: Seq<BValue>, k: int)
    requires
        0 <= k <= l.len(),
        forall|i: int| 0 <= i < k ==> peer_error(#[trigger] l[i]) is None,
    ensures
        peer_list_error(l, 0) == peer_list_error(l, k),
    decreases k,
{
    if k > 0 {
        lemma_peer_list_skip(l, k - 1);
    }
}

/// `e` is the peer that dictionary `v` describes.
pub open spec fn named_peer_of(v: BValue, e: PeerEntry) -> bool {
    &&& v matches BValue::Dict(d)
    &&& e matches PeerEntry::Named(ip, port)
    &&& lookup(d@, key_ip()) == Some(BValue::Str(ip))
    &&& lookup(d@, key_port()) matches Some(BValue::Int(p))
    &&& p == port
}

/// Reads one peer of a listed peer list: a dictionary with the text of an
/// IP address under `ip` and a port of at most 65535 under `port`.
pub fn decode_peer(value: BValue) -> (r: Result<PeerEntry, ResponseError>)
    ensures
        r is Err <==> peer_error(value) is Some,
        r is Err ==> r == Err::<PeerEntry, ResponseError>(peer_error(value)->Some_0),
        r matches Ok(e) ==> named_peer_of(value, e),
{
    let mut dict = match value.get_dict() {
        Some(d) => d,
        None => {
            return Err(ResponseError::BadPeer);
        },
    };
    let k_ip: [u8; 2] = [105, 112];
    assert(k_ip@ =~= key_ip());
    let ip = match dict_take(&mut dict, &k_ip) {
        Some(BValue::Str(s)) => s,
        _ => {
            return Err(ResponseError::MissingPeerIp);
        },
    };
    let k_port: [u8; 4] = [112, 111, 114, 116];
    assert(k_port@ =~= key_port());
    assert(key_port() != key_ip());
    let port = match dict_take(&mut dict, &k_port) {
        Some(BValue::Int(p)) => {
            if p >= 0 && p <= 65535 {
                p as u16
            } else {
                return Err(ResponseError::BadPeerPort);
            }
        },
        _ => {
            return Err(ResponseError::MissingPeerPort);
        },
    };
    Ok(PeerEntry::Named(ip, port))
}

/// Reads a peer list: a packed string, or a list of peer dictionaries.
pub fn decode_peers(value: BValue) -> (r: Result<Vec<PeerEntry>, ResponseError>)
    ensures
        r is Err <==> peers_error(value) is Some,
        r is Err ==> r == Err::<Vec<PeerEntry>, ResponseError>(peers_error(value)->Some_0),
        r matches Ok(v) ==> peers_of(value, v@),
{
    match value {
        BValue::List(list) => {
            let ghost l0 = list@;
            let mut peers: Vec<PeerEntry> = Vec::new();
            let mut rest = list;
            while rest.len() > 0
                invariant
                    peers@.len() + rest@.len() == l0.len(),
                    rest@ == l0.subrange(peers@.len() as int, l0.len() as int),
                    value is List,
                    l0 == value->List_0@,
                    forall|i: int| 0 <= i < peers@.len() ==> named_peer_of(#[trigger] l0[i], peers@[i]),
                    forall|i: int| 0 <= i < peers@.len() ==> peer_error(#[trigger] l0[i]) is None,
                decreases rest@.len(),
            {
                let item = rest.remove(0);
                let ghost k = peers@.len() as int;
                assert(item == l0[k]);
                let peer = match decode_peer(item) {
                    Ok(p) => p,
                    Err(e) => {
                        proof {
                            lemma_peer_list_skip(l0, k);
                        }
                        return Err(e);
                    },
                };
                peers.push(peer);
                assert(rest@ =~= l0.subrange(peers@.len() as int, l0.len() as int));
            }
            proof {
                lemma_peer_list_skip(l0, l0.len() as int);
            }
            Ok(peers)
        },
        BValue::Str(s) => decode_packed_peers(s.as_slice()),
        _ => Err(ResponseError::BadPeerListFormat),
    }
}

/// Reads a tracker response: a dictionary with a non-negative `interval`
/// and a peer list under `peers`.
pub fn decode_response(value: BValue) -> (r: Result<Response, ResponseError>)
    ensures
        r is Err <==> response_error(value) is Some,
        r is Err ==> r == Err::<Response, ResponseError>(response_error(value)->Some_0),
        r matches Ok(resp) ==> value matches BValue::Dict(d) && lookup(d@, key_interval()) matches Some(
            BValue::Int(i),
        ) && i >= 0 && resp.interval == i && lookup(d@, key_peers()) is Some && peers_of(
            lookup(d@, key_peers())->Some_0,
            resp.peers@,
        ),
{
    let mut dict = match value.get_dict() {
        Some(d) => d,
        None => {
            return Err(ResponseError::NotADict);
        },
    };
    let k_interval: [u8; 8] = [105, 110, 116, 101, 114, 118, 97, 108];
    assert(k_interval@ =~= key_interval());
    let interval = match dict_take(&mut dict, &k_interval) {
        Some(BValue::Int(i)) => {
            if i >= 0 {
                i as u64
            } else {
                return Err(ResponseError::NegativeInterval);
            }
        },
        _ => {
            return Err(ResponseError::MissingInterval);
        },
    };
    let k_peers: [u8; 5] = [112, 101, 101, 114, 115];
    assert(k_peers@ =~= key_peers());
    assert(key_peers() != key_interval());
    let peers = match dict_take(&mut dict, &k_peers) {
        Some(p) => decode_peers(p)?,
        None => {
            return Err(ResponseError::MissingPeers);
        },
    };
    Ok(Response { interval: interval, peers: peers })
}

/// The wait after `failures` failed announces: 10 s, doubling with each
/// failure, in milliseconds (capped at `u64::MAX`).
pub open spec fn backoff_ms(failures: nat) -> nat
    decreases failures,
{
    if failures == 0 {
        10000
    } else {
        let b = 2 * backoff_ms((failures - 1) as nat);
        if b > u64::MAX {
            u64::MAX as nat
        } else {
            b
        }
    }
}

/// When to announce, and what the last successful announce returned.
pub struct TrackerState {
    pub sent_started: bool,
    pub peers: Vec<PeerEntry>,
    pub next_announce_ms: u64,
    pub failures: u32,
}

impl TrackerState {
    /// A tracker that may be asked at once.
    pub fn new(now_ms: u64) -> (r: TrackerState)
        ensures
            !r.sent_started,
            r.peers@.len() == 0,
            r.next_announce_ms == now_ms,
            r.failures == 0,
    {
        TrackerState { sent_started: false, peers: Vec::new(), next_announce_ms: now_ms, failures: 0 }
    }

    pub fn can_send_request(&self, now_ms: u64) -> (r: bool)
        ensures
            r == (now_ms >= self.next_announce_ms),
    {
        now_ms >= self.next_announce_ms
    }

    /// The wait before retrying after the failures so far.
    pub fn retry_after_ms(&self) -> (r: u64)
        ensures
            r == backoff_ms(self.failures as nat),
    {
        let mut wait: u64 = 10000;
        let mut k: u32 = 0;
        while k < self.failures
            invariant
                k <= self.failures,
                wait == backoff_ms(k as nat),
            decreases self.failures - k,
        {
            wait = if wait > u64::MAX / 2 {
                u64::MAX
            } else {
                wait * 2
            };
            k = k + 1;
        }
        wait
    }

    /// An announce goes out at `now_ms`: the next one is due after the
    /// back-off, unless a response sets another time.
    pub fn start_announce(&mut self, now_ms: u64)
        ensures
            final(self).next_announce_ms == min_u64(now_ms as nat + backoff_ms(old(self).failures as nat)),
            final(self).sent_started == old(self).sent_started,
            final(self).failures == old(self).failures,
            final(self).peers == old(self).peers,
    {
        let wait = self.retry_after_ms();
        self.next_announce_ms = now_ms.saturating_add(wait);
    }

    /// The tracker answered: its peers replace the known ones, the next
    /// announce is due after its interval, and failures are forgotten.
    pub fn store_response(&mut self, now_ms: u64, response: Response)
        ensures
            final(self).sent_started,
            final(self).failures == 0,
            final(self).peers == response.peers,
            final(self).next_announce_ms == min_u64(now_ms as nat + response.interval as nat * 1000),
    {
        self.sent_started = true;
        self.failures = 0;
        self.peers = response.peers;
        let wait = if response.interval > u64::MAX / 1000 {
            u64::MAX
        } else {
            response.interval * 1000
        };
        self.next_announce_ms = now_ms.saturating_add(wait);
    }

    /// The announce failed.
    pub fn record_failure(&mut self)
        ensures
            final(self).failures == if old(self).failures < u32::MAX {
                old(self).failures + 1
            } else {
                old(self).failures as int
            },
            final(self).sent_started == old(self).sent_started,
            final(self).peers == old(self).peers,
            final(self).next_announce_ms == old(self).next_announce_ms,
    {
        self.failures = self.failures.saturating_add(1);
    }
}

pub open spec fn min_u64(n: nat) -> u64 {
    if n > u64::MAX {
        u64::MAX
    } else {
        n as u64
    }
}

} // verus!
