//! Talking to trackers: which protocol an announce URL asks for, the
//! percent-encoding of the binary values that go into an announce request,
//! the request itself, and whether one is under way.

use vstd::prelude::*;
use vstd::string::{StrSliceExecFns, StringExecFns};
use crate::registry::PEER_ID;
use crate::swarm::Peer;

verus! {

/// The protocols a tracker can be announced to.
#[derive(Debug, Clone, Copy, PartialEq, Eq, Structural)]
pub enum Announce {
    Http,
    Udp,
    WebSocket,
}

/// Why an announce URL cannot be used.
#[derive(Debug)]
pub enum AnnounceProtocolError {
    /// The URL names a protocol that is not known; the name, in lower case.
    Unknown(String),
}

/// The lower-case form of `s`, as `str::to_lowercase` gives it.
pub uninterp spec fn lowercase(s: Seq<char>) -> Seq<char>;

/// `str::to_lowercase`: the lower-case form of `s`, which depends on `s`
/// alone.
#[verifier::external_body]
fn to_lowercase(s: &str) -> (r: String)
    ensures
        r@ == lowercase(s@),
{
    s.to_lowercase()
}

/// `percent_encoding::percent_encode_byte`: `%` and the two upper-case
/// hexadecimal digits of `byte`.
#[verifier::external_body]
fn percent_encode_byte(byte: u8) -> (r: &'static str)
    ensures
        r@ == percent_byte(byte),
{
    percent_encoding::percent_encode_byte(byte)
}

/// The upper-case hexadecimal digit of `n`, below sixteen.
pub open spec fn hex_digit(n: int) -> char {
    if n < 10 {
        (48 + n) as char
    } else {
        (55 + n) as char
    }
}

/// `%` and the two upper-case hexadecimal digits of `byte`.
pub open spec fn percent_byte(byte: u8) -> Seq<char> {
    seq!['%', hex_digit((byte / 16) as int), hex_digit((byte % 16) as int)]
}

/// Every byte of `data` percent-encoded, in order.
pub open spec fn url_encoded(data: Seq<u8>) -> Seq<char>
    decreases data.len(),
{
    if data.len() == 0 {
        seq![]
    } else {
        url_encoded(data.drop_last()) + percent_byte(data.last())
    }
}

/// Every byte of `data` percent-encoded, as a tracker expects the info hash
/// and the peer id.
pub fn url_encode(data: &[u8]) -> (r: String)
    ensures
        r@ == url_encoded(data@),
{
    let mut r = String::new();
    let mut i: usize = 0;
    assert(data@.take(0) =~= Seq::<u8>::empty());
    while i < data.len()
        invariant
            i <= data@.len(),
            r@ == url_encoded(data@.take(i as int)),
        decreases data@.len() - i,
    {
        assert(data@.take(i + 1).drop_last() =~= data@.take(i as int));
        r.append(percent_encode_byte(data[i]));
        i += 1;
    }
    assert(data@.take(data@.len() as int) =~= data@);
    r
}

/// A `://` starts at `j` in `url`.
pub open spec fn separator_at(url: Seq<char>, j: int) -> bool {
    url.subrange(j, j + 3) == seq![':', '/', '/']
}

/// `k` is where the first `://` of `url` starts.
pub open spec fn scheme_end(url: Seq<char>, k: int) -> bool {
    &&& 0 <= k <= url.len() - 3
    &&& separator_at(url, k)
    &&& forall|j: int| 0 <= j < k ==> !#[trigger] separator_at(url, j)
}

/// What comes before the first `://` of `url`, or all of it.
pub open spec fn scheme(url: Seq<char>) -> Seq<char> {
    if exists|k: int| scheme_end(url, k) {
        url.take(choose|k: int| scheme_end(url, k))
    } else {
        url
    }
}

/// The protocol that the lower-case scheme `p` names.
pub open spec fn protocol_of(p: Seq<char>) -> Option<Announce> {
    if p == seq!['h', 't', 't', 'p'] || p == seq!['h', 't', 't', 'p', 's'] {
        Some(Announce::Http)
    } else if p == seq!['u', 'd', 'p'] {
        Some(Announce::Udp)
    } else if p == seq!['w', 's', 's'] {
        Some(Announce::WebSocket)
    } else {
        None
    }
}

/// Whether `s` holds exactly the characters `w`.
pub(crate) fn is_word(s: &str, w: &str) -> (r: bool)
    ensures
        r == (s@ == w@),
{
    let n = s.unicode_len();
    if n != w.unicode_len() {
        return false;
    }
    let mut i: usize = 0;
    while i < n
        invariant
            n == s@.len(),
            n == w@.len(),
            i <= n,
            forall|j: int| 0 <= j < i ==> s@[j] == w@[j],
        decreases n - i,
    {
        if s.get_char(i) != w.get_char(i) {
            return false;
        }
        i += 1;
    }
    assert(s@ =~= w@);
    true
}

proof fn lemma_scheme_end_unique(url: Seq<char>, k: int)
    requires
        scheme_end(url, k),
    ensures
        (choose|j: int| scheme_end(url, j)) == k,
{
    let j = choose|j: int| scheme_end(url, j);
    if j < k {
        assert(!separator_at(url, j));
    } else if k < j {
        assert(!separator_at(url, k));
    }
}

/// Where the first `://` of `url` starts, if it has one.
fn find_scheme_end(url: &str) -> (r: Option<usize>)
    ensures
        match r {
            Some(k) => scheme_end(url@, k as int),
            None => !exists|k: int| scheme_end(url@, k),
        },
{
    let n = url.unicode_len();
    if n < 3 {
        return None;
    }
    let mut k: usize = 0;
    while k <= n - 3
        invariant
            n == url@.len(),
            n >= 3,
            k <= n - 2,
            forall|j: int| 0 <= j < k ==> !#[trigger] separator_at(url@, j),
        decreases n - k,
    {
        let found = url.get_char(k) == ':' && url.get_char(k + 1) == '/' && url.get_char(k + 2) == '/';
        if found {
            assert(url@.subrange(k as int, k + 3) =~= seq![':', '/', '/']);
            return Some(k);
        }
        proof {
            if separator_at(url@, k as int) {
                assert(url@.subrange(k as int, k + 3)[0] == url@[k as int]);
                assert(url@.subrange(k as int, k + 3)[1] == url@[k + 1]);
                assert(url@.subrange(k as int, k + 3)[2] == url@[k + 2]);
            }
        }
        k += 1;
    }
    None
}

/// The protocol that the announce URL `url` asks for: its scheme, before
/// the first `://` (all of it when there is none), in lower case, is
/// `http` or `https`, `udp`, or `wss`; any other is refused, and named.
pub fn announce_protocol(url: &str) -> (r: Result<Announce, AnnounceProtocolError>)
    ensures
        match r {
            Ok(a) => protocol_of(lowercase(scheme(url@))) == Some(a),
            Err(AnnounceProtocolError::Unknown(p)) => protocol_of(lowercase(scheme(url@))) is None && p@
                == lowercase(scheme(url@)),
        },
{
    let end = find_scheme_end(url);
    let head = match end {
        Some(k) => {
            proof {
                lemma_scheme_end_unique(url@, k as int);
            }
            url.substring_char(0, k)
        },
        None => url,
    };
    assert(head@ =~= scheme(url@));
    let proto = to_lowercase(head);
    proof {
        reveal_strlit("http");
        reveal_strlit("https");
        reveal_strlit("udp");
        reveal_strlit("wss");
        assert("http"@ =~= seq!['h', 't', 't', 'p']);
        assert("https"@ =~= seq!['h', 't', 't', 'p', 's']);
        assert("udp"@ =~= seq!['u', 'd', 'p']);
        assert("wss"@ =~= seq!['w', 's', 's']);
    }
    if is_word(proto.as_str(), "http") || is_word(proto.as_str(), "https") {
        Ok(Announce::Http)
    } else if is_word(proto.as_str(), "udp") {
        Ok(Announce::Udp)
    } else if is_word(proto.as_str(), "wss") {
        Ok(Announce::WebSocket)
    } else {
        Err(AnnounceProtocolError::Unknown(proto))
    }
}

/// Where the announcing of a torrent to its tracker stands.
#[derive(Debug, Clone)]
pub enum AnnounceState {
    /// No announce is under way.
    Idle,
    /// A request to the tracker is under way.
    Request,
    /// The last announce failed, for the reason given.
    Error(String),
}

/// The decimal digits of `n`, without sign or leading zeros.
pub open spec fn decimal(n: nat) -> Seq<char>
    decreases n,
{
    if n < 10 {
        seq![(48 + n) as char]
    } else {
        decimal(n / 10).push((48 + n % 10) as char)
    }
}

/// The decimal digit `d`, below ten.
fn digit_str(d: u64) -> (r: &'static str)
    requires
        d < 10,
    ensures
        r@ == seq![(48 + d) as char],
{
    match d {
        0 => {
            proof {
                reveal_strlit("0");
            }
            "0"
        },
        1 => {
            proof {
                reveal_strlit("1");
            }
            "1"
        },
        2 => {
            proof {
                reveal_strlit("2");
            }
            "2"
        },
        3 => {
            proof {
                reveal_strlit("3");
            }
            "3"
        },
        4 => {
            proof {
                reveal_strlit("4");
            }
            "4"
        },
        5 => {
            proof {
                reveal_strlit("5");
            }
            "5"
        },
        6 => {
            proof {
                reveal_strlit("6");
            }
            "6"
        },
        7 => {
            proof {
                reveal_strlit("7");
            }
            "7"
        },
        8 => {
            proof {
                reveal_strlit("8");
            }
            "8"
        },
        _ => {
            proof {
                reveal_strlit("9");
            }
            "9"
        },
    }
}

/// The decimal digits of `n`, as `Display` prints an integer.
fn decimal_string(n: u64) -> (r: String)
    ensures
        r@ == decimal(n as nat),
    decreases n,
{
    if n < 10 {
        String::from_str(digit_str(n))
    } else {
        let mut s = decimal_string(n / 10);
        s.append(digit_str(n % 10));
        proof {
            assert(s@ =~= decimal((n / 10) as nat).push((48 + n % 10) as char));
        }
        s
    }
}

/// The announce request for the tracker at `url`, for the torrent with info
/// hash `hash` that still misses `left` bytes: the info hash, this client's
/// id and the bytes left, then the port to connect to and whether a compact
/// answer is asked for, where they are given.
pub open spec fn announce_request(
    url: Seq<char>,
    hash: Seq<u8>,
    left: nat,
    port: Option<u16>,
    compact: Option<bool>,
) -> Seq<char> {
    url + "?info_hash="@ + url_encoded(hash) + "&peer_id="@ + url_encoded(PEER_ID@) + "&left="@ + decimal(left)
        + match port {
        Some(p) => "&port="@ + decimal(p as nat),
        None => Seq::<char>::empty(),
    } + match compact {
        Some(c) => "&compact="@ + if c {
            "1"@
        } else {
            "0"@
        },
        None => Seq::<char>::empty(),
    }
}

/// Starts announcing a torrent to the tracker at `announce_url`: only a
/// torrent with no announce under way starts one, which is then under way,
/// and gets the request to send (see `announce_request`); otherwise nothing
/// changes and there is nothing to send.
pub fn command_start_announce_process(
    state: &mut AnnounceState,
    announce_url: &str,
    hash_id: &[u8; 20],
    left: usize,
    port: Option<u16>,
    compact: Option<bool>,
) -> (r: Option<String>)
    ensures
        r is Some <==> *old(state) is Idle,
        r is Some ==> *final(state) is Request,
        r is None ==> *final(state) == *old(state),
        r matches Some(url) ==> url@ == announce_request(announce_url@, hash_id@, left as nat, port, compact),
{
    match state {
        AnnounceState::Idle => {},
        _ => {
            return None;
        },
    }
    *state = AnnounceState::Request;
    let mut url = String::from_str(announce_url);
    url.append("?info_hash=");
    let encoded_hash = url_encode(hash_id);
    url.append(encoded_hash.as_str());
    url.append("&peer_id=");
    let encoded_id = url_encode(&PEER_ID);
    url.append(encoded_id.as_str());
    url.append("&left=");
    let digits = decimal_string(left as u64);
    url.append(digits.as_str());
    let ghost fixed = url@;
    match port {
        Some(p) => {
            url.append("&port=");
            let digits = decimal_string(p as u64);
            url.append(digits.as_str());
        },
        None => {},
    }
    let ghost with_port = url@;
    match compact {
        Some(c) => {
            url.append("&compact=");
            url.append(if c { "1" } else { "0" });
        },
        None => {},
    }
    proof {
        assert(with_port =~= fixed + match port {
            Some(p) => "&port="@ + decimal(p as nat),
            None => Seq::<char>::empty(),
        });
        assert(url@ =~= with_port + match compact {
            Some(c) => "&compact="@ + if c {
                "1"@
            } else {
                "0"@
            },
            None => Seq::<char>::empty(),
        });
    }
    Some(url)
}

/// The announce that was under way ends: on success the torrent is idle
/// again, on failure the state keeps the reason.
pub fn announce_finished(state: &mut AnnounceState, outcome: Result<(), String>)
    ensures
        match outcome {
            Ok(()) => *final(state) is Idle,
            Err(reason) => *final(state) == AnnounceState::Error(reason),
        },
{
    match outcome {
        Ok(()) => {
            *state = AnnounceState::Idle;
        },
        Err(reason) => {
            *state = AnnounceState::Error(reason);
        },
    }
}

/// A peer of a torrent as announces see it: its address, how often a
/// tracker announced it, and whether no connection to it is open or under
/// way.
#[derive(Debug, Clone, Copy, PartialEq, Eq, Structural)]
pub struct AnnouncedPeer {
    pub peer: Peer,
    pub announcement_count: usize,
    pub idle: bool,
}

/// Why a tracker's answer is not processed.
#[derive(Debug)]
pub enum ProcessAnnounceError {
    /// The announce failed, for the reason given.
    Failure(String),
    /// An announce is still under way.
    WrongState,
}

/// The first of the first `n` peers with address `a`, or -1.
pub open spec fn first_with_address(peers: Seq<AnnouncedPeer>, a: Peer, n: int) -> int
    decreases n,
{
    if n <= 0 {
        -1
    } else {
        let earlier = first_with_address(peers, a, n - 1);
        if earlier >= 0 {
            earlier
        } else if peers[n - 1].peer == a {
            n - 1
        } else {
            -1
        }
    }
}

/// The peers, and the positions of those to connect to, after the
/// addresses `announced` were taken in turn: a known address counts one
/// more announcement (the count wraps around), and its peer is connected to
/// again when idle; a new address becomes a new idle peer, announced no
/// time yet, which is connected to.
pub open spec fn after_announce(peers: Seq<AnnouncedPeer>, announced: Seq<Peer>) -> (Seq<AnnouncedPeer>, Seq<usize>)
    decreases announced.len(),
{
    if announced.len() == 0 {
        (peers, seq![])
    } else {
        let (ps, connect) = after_announce(peers, announced.drop_last());
        let a = announced.last();
        let j = first_with_address(ps, a, ps.len() as int);
        if j >= 0 {
            let p = ps[j];
            let count = if p.announcement_count == usize::MAX {
                0
            } else {
                (p.announcement_count + 1) as usize
            };
            (
                ps.update(j, AnnouncedPeer { announcement_count: count, ..p }),
                if p.idle {
                    connect.push(j as usize)
                } else {
                    connect
                },
            )
        } else {
            (
                ps.push(AnnouncedPeer { peer: a, announcement_count: 0, idle: true }),
                connect.push(ps.len() as usize),
            )
        }
    }
}

/// Where the first peer with address `a` stands in `peers`, if any.
fn find_address(peers: &Vec<AnnouncedPeer>, a: Peer) -> (r: Option<usize>)
    ensures
        match r {
            Some(j) => j < peers@.len() && j as int == first_with_address(peers@, a, peers@.len() as int),
            None => first_with_address(peers@, a, peers@.len() as int) == -1,
        },
{
    proof {
        lemma_first_with_address_bounds(peers@, a, peers@.len() as int);
    }
    let mut j: usize = 0;
    while j < peers.len()
        invariant
            j <= peers@.len(),
            first_with_address(peers@, a, j as int) == -1,
        decreases peers@.len() - j,
    {
        if peers[j].peer == a {
            proof {
                lemma_first_with_address_found(peers@, a, j as int, peers@.len() as int);
            }
            return Some(j);
        }
        j += 1;
    }
    None
}

proof fn lemma_first_with_address_bounds(peers: Seq<AnnouncedPeer>, a: Peer, n: int)
    requires
        0 <= n <= peers.len(),
    ensures
        -1 <= first_with_address(peers, a, n) < n,
        first_with_address(peers, a, n) >= 0 ==> peers[first_with_address(peers, a, n)].peer == a,
    decreases n,
{
    if n > 0 {
        lemma_first_with_address_bounds(peers, a, n - 1);
    }
}

proof fn lemma_first_with_address_found(peers: Seq<AnnouncedPeer>, a: Peer, j: int, n: int)
    requires
        0 <= j < n <= peers.len(),
        first_with_address(peers, a, j) == -1,
        peers[j].peer == a,
    ensures
        first_with_address(peers, a, n) == j,
    decreases n,
{
    if n > j + 1 {
        lemma_first_with_address_found(peers, a, j, n - 1);
    }
}

/// A tracker answered with the addresses `announced`: only a torrent with
/// no announce under way takes the answer (a failed announce gives its
/// reason, one under way `WrongState`, and nothing changes); the peers are
/// then updated and the positions of those to connect to are returned, in
/// order (see `after_announce`).
pub fn command_process_announce(
    announce_state: &AnnounceState,
    peers: &mut Vec<AnnouncedPeer>,
    announced: &[Peer],
) -> (r: Result<Vec<usize>, ProcessAnnounceError>)
    requires
        old(peers)@.len() + announced@.len() <= usize::MAX,
    ensures
        match *announce_state {
            AnnounceState::Idle => r matches Ok(connect) && (final(peers)@, connect@) == after_announce(
                old(peers)@,
                announced@,
            ),
            AnnounceState::Error(reason) => r matches Err(ProcessAnnounceError::Failure(e)) && e@ == reason@
                && final(peers)@ == old(peers)@,
            AnnounceState::Request => r matches Err(ProcessAnnounceError::WrongState) && final(peers)@ == old(
                peers,
            )@,
        },
{
    match announce_state {
        AnnounceState::Idle => {},
        AnnounceState::Error(reason) => {
            return Err(ProcessAnnounceError::Failure(reason.clone()));
        },
        AnnounceState::Request => {
            return Err(ProcessAnnounceError::WrongState);
        },
    }
    let ghost start = peers@;
    let mut connect: Vec<usize> = Vec::new();
    let mut i: usize = 0;
    assert(announced@.take(0) =~= Seq::<Peer>::empty());
    while i < announced.len()
        invariant
            i <= announced@.len(),
            start.len() + announced@.len() <= usize::MAX,
            (peers@, connect@) == after_announce(start, announced@.take(i as int)),
            peers@.len() <= start.len() + i,
        decreases announced@.len() - i,
    {
        let a = announced[i];
        assert(announced@.take(i + 1).drop_last() =~= announced@.take(i as int));
        assert(announced@.take(i + 1).last() == a);
        match find_address(peers, a) {
            Some(j) => {
                let p = peers[j];
                let count = if p.announcement_count == usize::MAX {
                    0
                } else {
                    p.announcement_count + 1
                };
                peers.set(j, AnnouncedPeer { announcement_count: count, ..p });
                if p.idle {
                    connect.push(j);
                }
            },
            None => {
                let n = peers.len();
                peers.push(AnnouncedPeer { peer: a, announcement_count: 0, idle: true });
                connect.push(n);
            },
        }
        i += 1;
    }
    assert(announced@.take(i as int) =~= announced@);
    Ok(connect)
}

/// Percent-encoding makes three characters of every byte.
pub proof fn lemma_url_encoded_len(data: Seq<u8>)
    ensures
        url_encoded(data).len() == 3 * data.len(),
    decreases data.len(),
{
    if data.len() > 0 {
        lemma_url_encoded_len(data.drop_last());
    }
}

} // verus!
