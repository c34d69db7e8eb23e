//! The discovery client's state machine: folding a reply datagram into a
//! peer record, resolving display nicknames against a local override
//! table, collecting records per sender address, and sorting the final
//! report by MAC address.

use vstd::prelude::*;
use crate::app_common::{CliArgError, CliArgErrorView, ConfigError, ConfigErrorView, Params};
use crate::message::{mac_opt_view, views_of, Message, MessageView};
use crate::text::{lemma_ascii_valid_utf8, lemma_dec_ascii_is_ascii, lemma_ipv4_ascii_is_ascii, lemma_mac_ascii_is_ascii, parse_ipv4, parse_mac, parse_u64, push_dec, push_ipv4, push_mac_ascii, spec_dec_ascii, spec_ipv4_ascii, spec_mac_ascii, spec_parse_ipv4, spec_parse_mac, spec_parse_u64, str_is, string_from_utf8, strings_view};
use vstd::utf8::{encode_utf8, encode_utf8_valid_utf8, valid_utf8, valid_utf8_concat};
use crate::tlv::bytes_eq;
use vstd::string::StringExecFns;

verus! {

/// The local nickname override table, keyed by MAC address. The earliest
/// entry for a key wins, and `insert` overwrites in place, so the table
/// behaves as a map.
pub struct NicknameTable {
    entries: Vec<([u8; 6], String)>,
}

/// First-match lookup in an association list of MAC keyed nicknames.
spec fn nick_lookup(s: Seq<([u8; 6], String)>, k: Seq<u8>) -> Option<Seq<char>>
    decreases s.len(),
{
    if s.len() == 0 {
        None
    } else if s[0].0@ == k {
        Some(s[0].1@)
    } else {
        nick_lookup(s.drop_first(), k)
    }
}

impl View for NicknameTable {
    type V = Map<Seq<u8>, Seq<char>>;

    closed spec fn view(&self) -> Map<Seq<u8>, Seq<char>> {
        Map::new(
            |k: Seq<u8>| nick_lookup(self.entries@, k) is Some,
            |k: Seq<u8>| nick_lookup(self.entries@, k)->0,
        )
    }
}

/// Updating the entry that the first match finds sets that key and leaves
/// every other key's lookup unchanged.
proof fn lemma_nick_lookup_update(s: Seq<([u8; 6], String)>, j: int, e: ([u8; 6], String))
    requires
        0 <= j < s.len(),
        forall|l: int| 0 <= l < j ==> s[l].0@ != e.0@,
        s[j].0@ == e.0@,
    ensures
        nick_lookup(s.update(j, e), e.0@) == Some(e.1@),
        forall|k: Seq<u8>| k != e.0@ ==> nick_lookup(s.update(j, e), k) == nick_lookup(s, k),
    decreases s.len(),
{
    let s2 = s.update(j, e);
    if j == 0 {
        assert(s2[0] == e);
        assert(s2.drop_first() =~= s.drop_first());
        assert forall|k: Seq<u8>| k != e.0@ implies nick_lookup(s2, k) == nick_lookup(s, k) by {
            assert(nick_lookup(s2.drop_first(), k) == nick_lookup(s.drop_first(), k));
        }
    } else {
        assert(s2[0] == s[0]);
        assert(s2.drop_first() =~= s.drop_first().update(j - 1, e));
        lemma_nick_lookup_update(s.drop_first(), j - 1, e);
        assert forall|k: Seq<u8>| k != e.0@ implies nick_lookup(s2, k) == nick_lookup(s, k) by {
            assert(nick_lookup(s2.drop_first(), k) == nick_lookup(s.drop_first(), k));
        }
    }
}

/// Appending an entry for a key that has no match sets that key and leaves
/// every other key's lookup unchanged.
proof fn lemma_nick_lookup_push(s: Seq<([u8; 6], String)>, e: ([u8; 6], String))
    requires
        nick_lookup(s, e.0@) is None,
    ensures
        nick_lookup(s.push(e), e.0@) == Some(e.1@),
        forall|k: Seq<u8>| k != e.0@ ==> nick_lookup(s.push(e), k) == nick_lookup(s, k),
    decreases s.len(),
{
    let s2 = s.push(e);
    if s.len() == 0 {
        assert(s2[0] == e);
        assert(s2.drop_first() =~= Seq::<([u8; 6], String)>::empty());
        assert forall|k: Seq<u8>| k != e.0@ implies nick_lookup(s2, k) == nick_lookup(s, k) by {
            assert(nick_lookup(s2.drop_first(), k) is None);
        }
    } else {
        assert(s2[0] == s[0]);
        assert(s2.drop_first() =~= s.drop_first().push(e));
        lemma_nick_lookup_push(s.drop_first(), e);
        assert forall|k: Seq<u8>| k != e.0@ implies nick_lookup(s2, k) == nick_lookup(s, k) by {
            assert(nick_lookup(s2.drop_first(), k) == nick_lookup(s.drop_first(), k));
        }
    }
}

impl NicknameTable {
    pub fn new() -> (t: NicknameTable)
        ensures
            t@ == Map::<Seq<u8>, Seq<char>>::empty(),
    {
        let t = NicknameTable { entries: Vec::new() };
        proof {
            assert(t@ =~= Map::<Seq<u8>, Seq<char>>::empty());
        }
        t
    }

    /// Sets the nickname for a MAC address, replacing any earlier one.
    pub fn insert(&mut self, mac: [u8; 6], nickname: String)
        ensures
            final(self)@ == old(self)@.insert(mac@, nickname@),
    {
        let ghost orig = self.entries@;
        let n = self.entries.len();
        let mut i: usize = 0;
        while i < n
            invariant
                i <= n,
                n == self.entries@.len(),
                self.entries@ == orig,
                orig == old(self).entries@,
                forall|l: int| 0 <= l < i ==> orig[l].0@ != mac@,
            decreases n - i,
        {
            if bytes_eq(self.entries[i].0.as_slice(), mac.as_slice()) {
                self.entries[i] = (mac, nickname);
                proof {
                    lemma_nick_lookup_update(orig, i as int, (mac, nickname));
                    assert(self.entries@ == orig.update(i as int, (mac, nickname)));
                    assert(nick_lookup(self.entries@, mac@) == Some(nickname@));
                    assert(forall|k: Seq<u8>|
                        k != mac@ ==> nick_lookup(self.entries@, k) == nick_lookup(orig, k));
                    assert(self@ =~= old(self)@.insert(mac@, nickname@));
                }
                return ;
            }
            i = i + 1;
        }
        proof {
            lemma_lookup_none_when_no_key(orig, mac@);
        }
        self.entries.push((mac, nickname));
        proof {
            lemma_nick_lookup_push(orig, (mac, nickname));
            assert(self.entries@ == orig.push((mac, nickname)));
            assert(nick_lookup(self.entries@, mac@) == Some(nickname@));
            assert(forall|k: Seq<u8>|
                k != mac@ ==> nick_lookup(self.entries@, k) == nick_lookup(orig, k));
            assert(self@ =~= old(self)@.insert(mac@, nickname@));
        }
    }

    /// Looks up the nickname for a MAC address, cloning it out.
    pub fn get(&self, mac: &[u8; 6]) -> (r: Option<String>)
        ensures
            match r {
                Some(s) => self@.dom().contains(mac@) && s@ == self@[mac@],
                None => !self@.dom().contains(mac@),
            },
    {
        let n = self.entries.len();
        let mut i: usize = 0;
        proof {
            assert(self.entries@.skip(0) =~= self.entries@);
        }
        while i < n
            invariant
                i <= n,
                n == self.entries@.len(),
                nick_lookup(self.entries@, mac@) == nick_lookup(
                    self.entries@.skip(i as int),
                    mac@,
                ),
                forall|l: int| 0 <= l < i ==> self.entries@[l].0@ != mac@,
            decreases n - i,
        {
            proof {
                assert(self.entries@.skip(i as int)[0] == self.entries@[i as int]);
                assert(self.entries@.skip(i as int).drop_first() =~= self.entries@.skip(
                    i as int + 1,
                ));
            }
            if bytes_eq(self.entries[i].0.as_slice(), mac.as_slice()) {
                return Some(self.entries[i].1.clone());
            }
            i = i + 1;
        }
        proof {
            assert(self.entries@.skip(n as int) =~= Seq::<([u8; 6], String)>::empty());
        }
        None
    }
}

/// A key with no lookup result occurs in no entry.
proof fn lemma_lookup_none_when_no_key(s: Seq<([u8; 6], String)>, k: Seq<u8>)
    requires
        forall|l: int| 0 <= l < s.len() ==> s[l].0@ != k,
    ensures
        nick_lookup(s, k) is None,
    decreases s.len(),
{
    if s.len() > 0 {
        assert(forall|l: int|
            0 <= l < s.drop_first().len() ==> s.drop_first()[l].0@ != k);
        lemma_lookup_none_when_no_key(s.drop_first(), k);
    }
}

pub open spec fn opt_str_view(s: Option<String>) -> Option<Seq<char>> {
    match s {
        Some(x) => Some(x@),
        None => None,
    }
}

/// The nickname resolution rule: a non-empty announced nickname always
/// wins; an absent or empty announcement falls back to the local override
/// for the peer's MAC, if both exist.
pub open spec fn spec_resolve(
    overrides: Map<Seq<u8>, Seq<char>>,
    mac: Option<Seq<u8>>,
    announced: Option<Seq<char>>,
) -> Option<Seq<char>> {
    if announced matches Some(n) && n.len() > 0 {
        announced
    } else {
        match mac {
            Some(m) => if overrides.dom().contains(m) {
                Some(overrides[m])
            } else {
                None
            },
            None => None,
        }
    }
}

/// Resolves a peer's display nickname: its own announcement takes
/// priority; the local override table only fills gaps (an absent or empty
/// announcement), and never overrides what the peer said.
pub fn get_peer_nickname(
    nicknames: &NicknameTable,
    mac: Option<[u8; 6]>,
    peer_nickname: Option<String>,
) -> (r: Option<String>)
    ensures
        opt_str_view(r) == spec_resolve(nicknames@, mac_opt_view(mac), opt_str_view(
            peer_nickname,
        )),
{
    let announced_nonempty = match &peer_nickname {
        Some(s) => !s.as_str().is_empty(),
        None => false,
    };
    if announced_nonempty {
        return peer_nickname;
    }
    match mac {
        Some(m) => nicknames.get(&m),
        None => None,
    }
}

/// A peer's socket address: the IPv4 address as its 32-bit big-endian
/// value, plus the port.
#[derive(PartialEq, Eq, Structural, Clone, Copy, Debug)]
pub struct PeerAddr {
    pub ip: u32,
    pub port: u16,
}

/// What was learned about one peer during a collection window.
#[derive(Debug)]
pub struct PeerRecord {
    pub mac: Option<[u8; 6]>,
    pub nickname: Option<String>,
}

/// Ghost form of a peer record.
pub struct PeerRecordView {
    pub mac: Option<Seq<u8>>,
    pub nickname: Option<Seq<char>>,
}

impl View for PeerRecord {
    type V = PeerRecordView;

    open spec fn view(&self) -> PeerRecordView {
        PeerRecordView { mac: mac_opt_view(self.mac), nickname: opt_str_view(self.nickname) }
    }
}

/// The record a reply datagram leaves behind: the last `Response1` sets
/// the MAC, the last `Response2` sets the announced nickname, and other
/// messages change nothing.
pub open spec fn spec_fold_record(ms: Seq<MessageView>) -> PeerRecordView
    decreases ms.len(),
{
    if ms.len() == 0 {
        PeerRecordView { mac: None, nickname: None }
    } else {
        let prev = spec_fold_record(ms.drop_last());
        match ms.last() {
            MessageView::Response1(m) => PeerRecordView { mac: m, nickname: prev.nickname },
            MessageView::Response2 { nickname, .. } => PeerRecordView {
                mac: prev.mac,
                nickname: Some(nickname),
            },
            _ => prev,
        }
    }
}

/// Extracts the MAC and announced nickname from a reply datagram's
/// messages, last write winning per field.
pub fn collect_response(msgs: &Vec<Message>) -> (r: PeerRecord)
    ensures
        r@ == spec_fold_record(views_of(msgs@)),
{
    let mut rec = PeerRecord { mac: None, nickname: None };
    let n = msgs.len();
    let mut i: usize = 0;
    proof {
        assert(views_of(msgs@).take(0) =~= Seq::<MessageView>::empty());
    }
    while i < n
        invariant
            i <= n,
            n == msgs@.len(),
            rec@ == spec_fold_record(views_of(msgs@).take(i as int)),
        decreases n - i,
    {
        proof {
            let v = views_of(msgs@);
            assert(v.take(i as int + 1).drop_last() =~= v.take(i as int));
            assert(v.take(i as int + 1).last() == v[i as int]);
            assert(v[i as int] == msgs@[i as int]@);
        }
        match &msgs[i] {
            Message::Response1(x) => {
                rec.mac = *x;
            },
            Message::Response2(x) => {
                rec.nickname = Some(x.nickname.clone());
            },
            _ => {},
        }
        i = i + 1;
    }
    proof {
        assert(views_of(msgs@).take(n as int) =~= views_of(msgs@));
    }
    rec
}

/// Records collected during one window, keyed by sender address; an
/// address that replies again overwrites its own earlier record.
pub struct PeerTable {
    entries: Vec<(PeerAddr, PeerRecord)>,
}

/// First-match lookup in the peer record list.
spec fn peer_lookup(s: Seq<(PeerAddr, PeerRecord)>, k: PeerAddr) -> Option<PeerRecordView>
    decreases s.len(),
{
    if s.len() == 0 {
        None
    } else if s[0].0 == k {
        Some(s[0].1@)
    } else {
        peer_lookup(s.drop_first(), k)
    }
}

impl View for PeerTable {
    type V = Map<PeerAddr, PeerRecordView>;

    closed spec fn view(&self) -> Map<PeerAddr, PeerRecordView> {
        Map::new(
            |k: PeerAddr| peer_lookup(self.entries@, k) is Some,
            |k: PeerAddr| peer_lookup(self.entries@, k)->0,
        )
    }
}

proof fn lemma_peer_lookup_update(s: Seq<(PeerAddr, PeerRecord)>, j: int, e: (PeerAddr, PeerRecord))
    requires
        0 <= j < s.len(),
        forall|l: int| 0 <= l < j ==> s[l].0 != e.0,
        s[j].0 == e.0,
    ensures
        peer_lookup(s.update(j, e), e.0) == Some(e.1@),
        forall|k: PeerAddr| k != e.0 ==> peer_lookup(s.update(j, e), k) == peer_lookup(s, k),
    decreases s.len(),
{
    let s2 = s.update(j, e);
    if j == 0 {
        assert(s2[0] == e);
        assert(s2.drop_first() =~= s.drop_first());
        assert forall|k: PeerAddr| k != e.0 implies peer_lookup(s2, k) == peer_lookup(s, k) by {
            assert(peer_lookup(s2.drop_first(), k) == peer_lookup(s.drop_first(), k));
        }
    } else {
        assert(s2[0] == s[0]);
        assert(s2.drop_first() =~= s.drop_first().update(j - 1, e));
        lemma_peer_lookup_update(s.drop_first(), j - 1, e);
        assert forall|k: PeerAddr| k != e.0 implies peer_lookup(s2, k) == peer_lookup(s, k) by {
            assert(peer_lookup(s2.drop_first(), k) == peer_lookup(s.drop_first(), k));
        }
    }
}

proof fn lemma_peer_lookup_push(s: Seq<(PeerAddr, PeerRecord)>, e: (PeerAddr, PeerRecord))
    requires
        peer_lookup(s, e.0) is None,
    ensures
        peer_lookup(s.push(e), e.0) == Some(e.1@),
        forall|k: PeerAddr| k != e.0 ==> peer_lookup(s.push(e), k) == peer_lookup(s, k),
    decreases s.len(),
{
    let s2 = s.push(e);
    if s.len() == 0 {
        assert(s2[0] == e);
        assert(s2.drop_first() =~= Seq::<(PeerAddr, PeerRecord)>::empty());
        assert forall|k: PeerAddr| k != e.0 implies peer_lookup(s2, k) == peer_lookup(s, k) by {
            assert(peer_lookup(s2.drop_first(), k) is None);
        }
    } else {
        assert(s2[0] == s[0]);
        assert(s2.drop_first() =~= s.drop_first().push(e));
        lemma_peer_lookup_push(s.drop_first(), e);
        assert forall|k: PeerAddr| k != e.0 implies peer_lookup(s2, k) == peer_lookup(s, k) by {
            assert(peer_lookup(s2.drop_first(), k) == peer_lookup(s.drop_first(), k));
        }
    }
}

/// An address with no lookup result occurs in no entry.
proof fn lemma_peer_lookup_none_when_no_key(s: Seq<(PeerAddr, PeerRecord)>, k: PeerAddr)
    requires
        forall|l: int| 0 <= l < s.len() ==> s[l].0 != k,
    ensures
        peer_lookup(s, k) is None,
    decreases s.len(),
{
    if s.len() > 0 {
        lemma_peer_lookup_none_when_no_key(s.drop_first(), k);
    }
}

/// Under distinct keys, every entry is what lookup finds for its key.
proof fn lemma_peer_lookup_at_index(s: Seq<(PeerAddr, PeerRecord)>, i: int)
    requires
        forall|a: int, b: int| 0 <= a < b < s.len() ==> s[a].0 != s[b].0,
        0 <= i < s.len(),
    ensures
        peer_lookup(s, s[i].0) == Some(s[i].1@),
    decreases s.len(),
{
    if i > 0 {
        assert(s[0].0 != s[i].0);
        assert(s.drop_first()[i - 1] == s[i]);
        lemma_peer_lookup_at_index(s.drop_first(), i - 1);
    }
}

impl PeerTable {
    /// Distinct sender addresses: each address owns one record.
    pub closed spec fn wf(&self) -> bool {
        forall|a: int, b: int|
            0 <= a < b < self.entries@.len() ==> self.entries@[a].0 != self.entries@[b].0
    }

    pub fn new() -> (t: PeerTable)
        ensures
            t@ == Map::<PeerAddr, PeerRecordView>::empty(),
            t.wf(),
    {
        let t = PeerTable { entries: Vec::new() };
        proof {
            assert(t@ =~= Map::<PeerAddr, PeerRecordView>::empty());
        }
        t
    }

    /// Stores the record for a sender address, overwriting its earlier one.
    pub fn upsert(&mut self, addr: PeerAddr, rec: PeerRecord)
        requires
            old(self).wf(),
        ensures
            final(self).wf(),
            final(self)@ == old(self)@.insert(addr, rec@),
    {
        let ghost orig = self.entries@;
        let n = self.entries.len();
        let mut i: usize = 0;
        while i < n
            invariant
                i <= n,
                n == self.entries@.len(),
                self.entries@ == orig,
                orig == old(self).entries@,
                old(self).wf(),
                forall|l: int| 0 <= l < i ==> orig[l].0 != addr,
            decreases n - i,
        {
            let hit = self.entries[i].0 == addr;
            if hit {
                self.entries[i] = (addr, rec);
                proof {
                    lemma_peer_lookup_update(orig, i as int, (addr, rec));
                    assert(self@ =~= old(self)@.insert(addr, rec@));
                    assert forall|a: int, b: int|
                        0 <= a < b < self.entries@.len() implies self.entries@[a].0
                        != self.entries@[b].0 by {
                        assert(orig[i as int].0 == addr);
                    }
                }
                return ;
            }
            i = i + 1;
        }
        proof {
            lemma_peer_lookup_none_when_no_key(orig, addr);
        }
        self.entries.push((addr, rec));
        proof {
            lemma_peer_lookup_push(orig, (addr, rec));
            assert(self@ =~= old(self)@.insert(addr, rec@));
        }
    }
}

/// The resolved record that one reply datagram leaves for its sender.
pub open spec fn spec_received_record(
    overrides: Map<Seq<u8>, Seq<char>>,
    ms: Seq<MessageView>,
) -> PeerRecordView {
    let f = spec_fold_record(ms);
    PeerRecordView { mac: f.mac, nickname: spec_resolve(overrides, f.mac, f.nickname) }
}

/// Folds one reply datagram into the peer table: the sender's record is
/// rebuilt from the datagram, its nickname resolved against the local
/// overrides, and whatever the address held before is overwritten.
pub fn record_datagram(
    peers: &mut PeerTable,
    nicknames: &NicknameTable,
    addr: PeerAddr,
    msgs: &Vec<Message>,
)
    requires
        old(peers).wf(),
    ensures
        final(peers).wf(),
        final(peers)@ == old(peers)@.insert(
            addr,
            spec_received_record(nicknames@, views_of(msgs@)),
        ),
{
    let rec = collect_response(msgs);
    let mac = rec.mac;
    let nickname = get_peer_nickname(nicknames, mac, rec.nickname);
    let resolved = PeerRecord { mac, nickname };
    peers.upsert(addr, resolved);
}

/// Whether one reply datagram resolves to exactly the wanted nickname;
/// the find-nick variant stops collecting as soon as this holds.
pub fn datagram_matches_nick(
    nicknames: &NicknameTable,
    msgs: &Vec<Message>,
    needle: &String,
) -> (r: bool)
    ensures
        r == (spec_received_record(nicknames@, views_of(msgs@)).nickname == Some(needle@)),
{
    let rec = collect_response(msgs);
    let resolved = get_peer_nickname(nicknames, rec.mac, rec.nickname);
    match resolved {
        Some(s) => s == *needle,
        None => false,
    }
}

/// Lexicographic order on byte strings; a prefix sorts before its
/// extensions.
pub open spec fn lex_le(x: Seq<u8>, y: Seq<u8>) -> bool
    decreases x.len(),
{
    if x.len() == 0 {
        true
    } else if y.len() == 0 {
        false
    } else if x[0] < y[0] {
        true
    } else if x[0] > y[0] {
        false
    } else {
        lex_le(x.skip(1), y.skip(1))
    }
}

/// The report order on optional MACs: an unknown MAC sorts before any
/// known one; known MACs order lexicographically, ascending.
pub open spec fn mac_opt_le(a: Option<Seq<u8>>, b: Option<Seq<u8>>) -> bool {
    match (a, b) {
        (None, _) => true,
        (Some(_), None) => false,
        (Some(x), Some(y)) => lex_le(x, y),
    }
}

proof fn lemma_lex_le_total(x: Seq<u8>, y: Seq<u8>)
    ensures
        lex_le(x, y) || lex_le(y, x),
    decreases x.len(),
{
    if x.len() > 0 && y.len() > 0 && x[0] == y[0] {
        lemma_lex_le_total(x.skip(1), y.skip(1));
    }
}

proof fn lemma_lex_le_trans(x: Seq<u8>, y: Seq<u8>, z: Seq<u8>)
    requires
        lex_le(x, y),
        lex_le(y, z),
    ensures
        lex_le(x, z),
    decreases x.len(),
{
    if x.len() > 0 && y.len() > 0 && z.len() > 0 && x[0] == y[0] && y[0] == z[0] {
        lemma_lex_le_trans(x.skip(1), y.skip(1), z.skip(1));
    }
}

proof fn lemma_mac_opt_le_total(a: Option<Seq<u8>>, b: Option<Seq<u8>>)
    ensures
        mac_opt_le(a, b) || mac_opt_le(b, a),
{
    if a is Some && b is Some {
        lemma_lex_le_total(a->0, b->0);
    }
}

proof fn lemma_mac_opt_le_trans(a: Option<Seq<u8>>, b: Option<Seq<u8>>, c: Option<Seq<u8>>)
    requires
        mac_opt_le(a, b),
        mac_opt_le(b, c),
    ensures
        mac_opt_le(a, c),
{
    if a is Some && b is Some && c is Some {
        lemma_lex_le_trans(a->0, b->0, c->0);
    }
}

fn lex_le_exec(x: &[u8], y: &[u8]) -> (r: bool)
    ensures
        r == lex_le(x@, y@),
{
    let nx = x.len();
    let ny = y.len();
    let mut i: usize = 0;
    proof {
        assert(x@.skip(0) =~= x@);
        assert(y@.skip(0) =~= y@);
    }
    while i < nx
        invariant
            i <= nx,
            i <= ny,
            nx == x@.len(),
            ny == y@.len(),
            lex_le(x@, y@) == lex_le(x@.skip(i as int), y@.skip(i as int)),
        decreases nx - i,
    {
        proof {
            assert(x@.skip(i as int).len() > 0);
        }
        if i >= ny {
            return false;
        }
        proof {
            assert(x@.skip(i as int)[0] == x@[i as int]);
            assert(y@.skip(i as int)[0] == y@[i as int]);
            assert(x@.skip(i as int).skip(1) =~= x@.skip(i as int + 1));
            assert(y@.skip(i as int).skip(1) =~= y@.skip(i as int + 1));
        }
        if x[i] < y[i] {
            return true;
        }
        if x[i] > y[i] {
            return false;
        }
        i = i + 1;
    }
    proof {
        assert(x@.skip(nx as int).len() == 0);
    }
    true
}

/// The report order, executable.
fn mac_le_exec(a: &Option<[u8; 6]>, b: &Option<[u8; 6]>) -> (r: bool)
    ensures
        r == mac_opt_le(mac_opt_view(*a), mac_opt_view(*b)),
{
    match (a, b) {
        (None, _) => true,
        (Some(_), None) => false,
        (Some(x), Some(y)) => lex_le_exec(x.as_slice(), y.as_slice()),
    }
}

/// First position whose record's MAC does not sort at or before `mac`;
/// inserting at that position keeps a sorted report sorted.
fn find_pos(out: &Vec<(PeerAddr, PeerRecord)>, mac: &Option<[u8; 6]>) -> (p: usize)
    ensures
        p <= out@.len(),
        forall|j: int| 0 <= j < p ==> mac_opt_le(#[trigger] out@[j].1@.mac, mac_opt_view(*mac)),
        p < out@.len() ==> !mac_opt_le(out@[p as int].1@.mac, mac_opt_view(*mac)),
{
    let n = out.len();
    let mut p: usize = 0;
    while p < n
        invariant
            p <= n,
            n == out@.len(),
            forall|j: int| 0 <= j < p ==> mac_opt_le(#[trigger] out@[j].1@.mac, mac_opt_view(*mac)),
        decreases n - p,
    {
        if !mac_le_exec(&out[p].1.mac, mac) {
            return p;
        }
        p = p + 1;
    }
    p
}

/// `lookup` only succeeds on a key that some entry carries.
proof fn lemma_peer_lookup_some_has_index(s: Seq<(PeerAddr, PeerRecord)>, k: PeerAddr)
    requires
        peer_lookup(s, k) is Some,
    ensures
        exists|i: int| 0 <= i < s.len() && #[trigger] s[i].0 == k,
    decreases s.len(),
{
    if s.len() > 0 && s[0].0 != k {
        lemma_peer_lookup_some_has_index(s.drop_first(), k);
        let i = choose|i: int| 0 <= i < s.drop_first().len() && #[trigger] s.drop_first()[i].0
            == k;
        assert(s[i + 1].0 == k);
    }
}

/// One insertion step of the report sort, membership half: after placing
/// the next drained entry, the report is a permutation of the drained
/// region, and its keys stay distinct.
#[verifier::spinoff_prover]
proof fn lemma_report_insert_membership(
    orig: Seq<(PeerAddr, PeerRecord)>,
    m0: int,
    out0: Seq<(PeerAddr, PeerRecord)>,
    out1: Seq<(PeerAddr, PeerRecord)>,
    e: (PeerAddr, PeerRecord),
    p: int,
)
    requires
        1 <= m0 <= orig.len(),
        e == orig[m0 - 1],
        0 <= p <= out0.len(),
        out1 == out0.insert(p, e),
        forall|a: int, b: int| 0 <= a < b < orig.len() ==> orig[a].0 != orig[b].0,
        out0.to_multiset() == orig.skip(m0).to_multiset(),
        forall|i: int, j: int| 0 <= i < j < out0.len() ==> out0[i].0 != out0[j].0,
    ensures
        out1.to_multiset() == orig.skip(m0 - 1).to_multiset(),
        forall|i: int, j: int| 0 <= i < j < out1.len() ==> out1[i].0 != out1[j].0,
{
    broadcast use vstd::seq_lib::group_to_multiset_ensures;
    broadcast use vstd::multiset::group_multiset_axioms;

    vstd::seq_lib::to_multiset_insert(out0, p, e);
    let tail = orig.skip(m0 - 1);
    assert(tail[0] == e);
    assert(tail.remove(0) =~= orig.skip(m0));
    vstd::seq_lib::to_multiset_remove(tail, 0);
    assert(orig.skip(m0).to_multiset() == tail.to_multiset().remove(e));
    assert(tail.contains(e));
    assert(tail.to_multiset().count(e) > 0);
    assert(out1.to_multiset() =~= tail.to_multiset());
    // the new element's key differs from every key already placed
    assert forall|j: int| 0 <= j < out0.len() implies out0[j].0 != e.0 by {
        assert(out0.contains(out0[j]));
        assert(out0.to_multiset().count(out0[j]) > 0);
        assert(orig.skip(m0).contains(out0[j]));
        let idx = choose|idx: int|
            0 <= idx < orig.skip(m0).len() && orig.skip(m0)[idx] == out0[j];
        assert(orig[m0 + idx] == out0[j]);
        assert(orig[m0 - 1].0 != orig[m0 + idx].0);
    }
    // distinct keys survive the insertion
    assert forall|i: int, j: int| 0 <= i < j < out1.len() implies out1[i].0 != out1[j].0 by {
        if i < p && j < p {
            assert(out1[i] == out0[i] && out1[j] == out0[j]);
        } else if i < p && j == p {
            assert(out1[i] == out0[i] && out1[j] == e);
        } else if i < p && j > p {
            assert(out1[i] == out0[i] && out1[j] == out0[j - 1]);
        } else if i == p {
            assert(out1[i] == e && out1[j] == out0[j - 1]);
        } else {
            assert(out1[i] == out0[i - 1] && out1[j] == out0[j - 1]);
        }
    }
}

/// One insertion step of the report sort, order half: placing the entry
/// at the position `find_pos` chose keeps the report sorted.
#[verifier::spinoff_prover]
proof fn lemma_report_insert_sorted(
    out0: Seq<(PeerAddr, PeerRecord)>,
    out1: Seq<(PeerAddr, PeerRecord)>,
    e: (PeerAddr, PeerRecord),
    p: int,
)
    requires
        0 <= p <= out0.len(),
        out1 == out0.insert(p, e),
        forall|i: int, j: int|
            0 <= i <= j < out0.len() ==> mac_opt_le(out0[i].1@.mac, out0[j].1@.mac),
        forall|j: int| 0 <= j < p ==> mac_opt_le(#[trigger] out0[j].1@.mac, e.1@.mac),
        p < out0.len() ==> !mac_opt_le(out0[p].1@.mac, e.1@.mac),
    ensures
        forall|i: int, j: int|
            0 <= i <= j < out1.len() ==> mac_opt_le(out1[i].1@.mac, out1[j].1@.mac),
{
    assert forall|l: int| p <= l < out0.len() implies mac_opt_le(
        e.1@.mac,
        #[trigger] out0[l].1@.mac,
    ) by {
        lemma_mac_opt_le_total(out0[p].1@.mac, e.1@.mac);
        lemma_mac_opt_le_trans(e.1@.mac, out0[p].1@.mac, out0[l].1@.mac);
    }
    lemma_mac_opt_le_total(e.1@.mac, e.1@.mac);
    assert forall|i: int, j: int| 0 <= i <= j < out1.len() implies mac_opt_le(
        out1[i].1@.mac,
        out1[j].1@.mac,
    ) by {
        if i < p && j < p {
            assert(out1[i] == out0[i] && out1[j] == out0[j]);
        } else if i < p && j == p {
            assert(out1[i] == out0[i] && out1[j] == e);
        } else if i < p && j > p {
            assert(out1[i] == out0[i] && out1[j] == out0[j - 1]);
        } else if i == p && j == p {
        } else if i == p && j > p {
            assert(out1[i] == e && out1[j] == out0[j - 1]);
        } else {
            assert(out1[i] == out0[i - 1] && out1[j] == out0[j - 1]);
        }
    }
}

impl PeerTable {
    /// Drains the table into the report list, sorted by MAC address
    /// ascending with unknown MACs grouped first; each collected address
    /// appears exactly once, with its final record.
    #[verifier::rlimit(100)]
    pub fn into_sorted(self) -> (r: Vec<(PeerAddr, PeerRecord)>)
        requires
            self.wf(),
        ensures
            forall|i: int|
                0 <= i < r@.len() ==> #[trigger] self@.contains_pair(r@[i].0, r@[i].1@),
            forall|k: PeerAddr|
                self@.dom().contains(k) ==> exists|i: int|
                    0 <= i < r@.len() && #[trigger] r@[i].0 == k,
            forall|i: int, j: int| 0 <= i < j < r@.len() ==> r@[i].0 != r@[j].0,
            forall|i: int, j: int|
                0 <= i <= j < r@.len() ==> mac_opt_le(r@[i].1@.mac, r@[j].1@.mac),
    {
        let ghost orig = self.entries@;
        let ghost m = self@;
        let mut rest = self.entries;
        let mut out: Vec<(PeerAddr, PeerRecord)> = Vec::new();
        proof {
            assert(rest@ =~= orig.take(rest@.len() as int));
            assert(orig.skip(rest@.len() as int) =~= Seq::<(PeerAddr, PeerRecord)>::empty());
            assert(out@.to_multiset() =~= orig.skip(rest@.len() as int).to_multiset());
        }
        while rest.len() > 0
            invariant
                rest@ == orig.take(rest@.len() as int),
                rest@.len() <= orig.len(),
                forall|a: int, b: int| 0 <= a < b < orig.len() ==> orig[a].0 != orig[b].0,
                out@.to_multiset() == orig.skip(rest@.len() as int).to_multiset(),
                forall|i: int, j: int| 0 <= i < j < out@.len() ==> out@[i].0 != out@[j].0,
                forall|i: int, j: int|
                    0 <= i <= j < out@.len() ==> mac_opt_le(out@[i].1@.mac, out@[j].1@.mac),
            decreases rest@.len(),
        {
            let ghost m0 = rest@.len() as int;
            let e = match rest.pop() {
                Some(e) => e,
                None => {
                    // Unreachable: the loop guard keeps the list non-empty.
                    proof {
                        assert(false);
                    }
                    return out;
                },
            };
            proof {
                assert(e == orig.take(m0)[m0 - 1]);
                assert(e == orig[m0 - 1]);
                assert(rest@ =~= orig.take(m0 - 1));
            }
            let p = find_pos(&out, &e.1.mac);
            let ghost out0 = out@;
            out.insert(p, e);
            proof {
                lemma_report_insert_membership(orig, m0, out0, out@, e, p as int);
                lemma_report_insert_sorted(out0, out@, e, p as int);
            }
        }
        proof {
            broadcast use vstd::seq_lib::group_to_multiset_ensures;

            assert(rest@.len() == 0);
            assert(orig.skip(0) =~= orig);
            // every report slot is a table pair
            assert forall|i: int| 0 <= i < out@.len() implies #[trigger] m.contains_pair(
                out@[i].0,
                out@[i].1@,
            ) by {
                assert(out@.contains(out@[i]));
                assert(out@.to_multiset().count(out@[i]) > 0);
                assert(orig.contains(out@[i]));
                let l = choose|l: int| 0 <= l < orig.len() && orig[l] == out@[i];
                lemma_peer_lookup_at_index(orig, l);
            }
            // every collected address reaches the report
            assert forall|k: PeerAddr| m.dom().contains(k) implies exists|i: int|
                0 <= i < out@.len() && #[trigger] out@[i].0 == k by {
                lemma_peer_lookup_some_has_index(orig, k);
                let l = choose|l: int| 0 <= l < orig.len() && #[trigger] orig[l].0 == k;
                assert(orig.contains(orig[l]));
                assert(orig.to_multiset().count(orig[l]) > 0);
                assert(out@.contains(orig[l]));
                let j = choose|j: int| 0 <= j < out@.len() && out@[j] == orig[l];
                assert(out@[j].0 == k);
            }
        }
        out
    }
}

/// What a client run was configured with.
pub struct ClientParams {
    pub common: Params,
    /// Interfaces to join the multicast group on, each an IPv4 address as
    /// its 32-bit big-endian value.
    pub bind_addrs: Vec<u32>,
    pub nicknames: NicknameTable,
    /// The collection window.
    pub timeout_ms: u64,
}

/// The client's command-line grammar: `--bind-addr <ipv4>` may repeat,
/// `--timeout-ms <n>` overrides the 500 ms default, anything else is
/// rejected.
pub open spec fn spec_client_args(args: Seq<Seq<char>>, binds: Seq<u32>, timeout: u64) -> Result<
    (Seq<u32>, u64),
    ConfigErrorView,
>
    decreases args.len(),
{
    if args.len() == 0 {
        Ok((binds, timeout))
    } else if args[0] == "--bind-addr"@ {
        if args.len() < 2 {
            Err(ConfigErrorView::Cli(CliArgErrorView::MissingArgumentValue(args[0])))
        } else {
            match spec_parse_ipv4(args[1]) {
                None => Err(ConfigErrorView::BadAddress(args[1])),
                Some(a) => spec_client_args(args.skip(2), binds.push(a), timeout),
            }
        }
    } else if args[0] == "--timeout-ms"@ {
        if args.len() < 2 {
            Err(ConfigErrorView::Cli(CliArgErrorView::MissingArgumentValue(args[0])))
        } else {
            match spec_parse_u64(args[1]) {
                None => Err(ConfigErrorView::BadNumber(args[1])),
                Some(t) => spec_client_args(args.skip(2), binds, t),
            }
        }
    } else {
        Err(ConfigErrorView::Cli(CliArgErrorView::UnrecognizedArgument(args[0])))
    }
}

/// Parses the client's command line. Succeeds exactly when the arguments
/// fit the grammar; when no bind address was given, the detected local
/// addresses stand in.
pub fn configure_client(args: &Vec<String>, nicknames: NicknameTable, detected_ips: Vec<u32>) -> (r:
    Result<ClientParams, ConfigError>)
    ensures
        match r {
            Ok(p) => {
                &&& spec_client_args(strings_view(args@), Seq::empty(), 500) matches Ok(cfg)
                &&& p.timeout_ms == cfg.1
                &&& p.bind_addrs@ == (if cfg.0.len() == 0 {
                    detected_ips@
                } else {
                    cfg.0
                })
                &&& p.nicknames == nicknames
                &&& p.common.server_port == 9040
                &&& p.common.multicast_addr == 0xe1646362
            },
            Err(e) => spec_client_args(strings_view(args@), Seq::empty(), 500) matches Err(ev)
                && e@ == ev,
        },
{
    let mut bind_addrs: Vec<u32> = Vec::new();
    let mut timeout_ms: u64 = 500;
    let n = args.len();
    let mut i: usize = 0;
    proof {
        assert(strings_view(args@).skip(0) =~= strings_view(args@));
        assert(bind_addrs@ =~= Seq::<u32>::empty());
    }
    while i < n
        invariant
            i <= n,
            n == args@.len(),
            spec_client_args(strings_view(args@), Seq::empty(), 500) == spec_client_args(
                strings_view(args@).skip(i as int),
                bind_addrs@,
                timeout_ms,
            ),
        decreases n - i,
    {
        proof {
            let v = strings_view(args@);
            assert(v.skip(i as int)[0] == v[i as int]);
            assert(v[i as int] == args@[i as int]@);
        }
        if str_is(args[i].as_str(), "--bind-addr") {
            if i + 1 >= n {
                return Err(ConfigError::Cli(CliArgError::MissingArgumentValue(args[i].clone())));
            }
            proof {
                let v = strings_view(args@);
                assert(v.skip(i as int)[1] == v[i as int + 1]);
                assert(v[i as int + 1] == args@[i as int + 1]@);
                assert(v.skip(i as int).skip(2) =~= v.skip(i as int + 2));
            }
            match parse_ipv4(args[i + 1].as_str()) {
                None => {
                    return Err(ConfigError::BadAddress(args[i + 1].clone()));
                },
                Some(addr) => {
                    bind_addrs.push(addr);
                },
            }
            i = i + 2;
        } else if str_is(args[i].as_str(), "--timeout-ms") {
            if i + 1 >= n {
                return Err(ConfigError::Cli(CliArgError::MissingArgumentValue(args[i].clone())));
            }
            proof {
                let v = strings_view(args@);
                assert(v.skip(i as int)[1] == v[i as int + 1]);
                assert(v[i as int + 1] == args@[i as int + 1]@);
                assert(v.skip(i as int).skip(2) =~= v.skip(i as int + 2));
            }
            match parse_u64(args[i + 1].as_str()) {
                None => {
                    return Err(ConfigError::BadNumber(args[i + 1].clone()));
                },
                Some(t) => {
                    timeout_ms = t;
                },
            }
            i = i + 2;
        } else {
            return Err(ConfigError::Cli(CliArgError::UnrecognizedArgument(args[i].clone())));
        }
    }
    proof {
        assert(strings_view(args@).skip(n as int) =~= Seq::<Seq<char>>::empty());
    }
    let bind_addrs = if bind_addrs.len() == 0 {
        detected_ips
    } else {
        bind_addrs
    };
    Ok(ClientParams { common: Params::default(), bind_addrs, nicknames, timeout_ms })
}

/// The find-nick command line: `--timeout-ms <n>` overrides the 500 ms
/// default; any other argument is the wanted nickname, last one winning.
pub open spec fn spec_find_nick_args(
    args: Seq<Seq<char>>,
    nick: Option<Seq<char>>,
    timeout: u64,
) -> Result<(Option<Seq<char>>, u64), ConfigErrorView>
    decreases args.len(),
{
    if args.len() == 0 {
        Ok((nick, timeout))
    } else if args[0] == "--timeout-ms"@ {
        if args.len() < 2 {
            Err(ConfigErrorView::Cli(CliArgErrorView::MissingArgumentValue(args[0])))
        } else {
            match spec_parse_u64(args[1]) {
                None => Err(ConfigErrorView::BadNumber(args[1])),
                Some(t) => spec_find_nick_args(args.skip(2), nick, t),
            }
        }
    } else {
        spec_find_nick_args(args.skip(1), Some(args[0]), timeout)
    }
}

/// Parses the find-nick command line into the wanted nickname and the
/// collection window; a command line that names no nickname is rejected.
pub fn configure_find_nick(args: &Vec<String>) -> (r: Result<(String, u64), ConfigError>)
    ensures
        match r {
            Ok(p) => spec_find_nick_args(strings_view(args@), None, 500) matches Ok(cfg)
                && cfg.0 == Some(p.0@) && cfg.1 == p.1,
            Err(e) => match spec_find_nick_args(strings_view(args@), None, 500) {
                Ok(cfg) => cfg.0 is None && e@ == ConfigErrorView::Cli(
                    CliArgErrorView::MissingRequiredArg("nickname"@),
                ),
                Err(ev) => e@ == ev,
            },
        },
{
    let mut nick: Option<String> = None;
    let mut timeout_ms: u64 = 500;
    let n = args.len();
    let mut i: usize = 0;
    proof {
        assert(strings_view(args@).skip(0) =~= strings_view(args@));
    }
    while i < n
        invariant
            i <= n,
            n == args@.len(),
            spec_find_nick_args(strings_view(args@), None, 500) == spec_find_nick_args(
                strings_view(args@).skip(i as int),
                opt_str_view(nick),
                timeout_ms,
            ),
        decreases n - i,
    {
        proof {
            let v = strings_view(args@);
            assert(v.skip(i as int)[0] == v[i as int]);
            assert(v[i as int] == args@[i as int]@);
        }
        if str_is(args[i].as_str(), "--timeout-ms") {
            if i + 1 >= n {
                return Err(ConfigError::Cli(CliArgError::MissingArgumentValue(args[i].clone())));
            }
            proof {
                let v = strings_view(args@);
                assert(v.skip(i as int)[1] == v[i as int + 1]);
                assert(v[i as int + 1] == args@[i as int + 1]@);
                assert(v.skip(i as int).skip(2) =~= v.skip(i as int + 2));
            }
            match parse_u64(args[i + 1].as_str()) {
                None => {
                    return Err(ConfigError::BadNumber(args[i + 1].clone()));
                },
                Some(t) => {
                    timeout_ms = t;
                },
            }
            i = i + 2;
        } else {
            proof {
                let v = strings_view(args@);
                assert(v.skip(i as int).skip(1) =~= v.skip(i as int + 1));
            }
            nick = Some(args[i].clone());
            i = i + 1;
        }
    }
    proof {
        assert(strings_view(args@).skip(n as int) =~= Seq::<Seq<char>>::empty());
    }
    match nick {
        Some(needle) => Ok((needle, timeout_ms)),
        None => Err(
            ConfigError::Cli(CliArgError::MissingRequiredArg(String::from_str("nickname"))),
        ),
    }
}

/// The report line for one peer, as UTF-8 bytes. A peer with no known MAC
/// reports its socket address alone; a known MAC reports the MAC and the
/// IP, with the resolved nickname backquoted after it if there is one.
/// (The plain byte runs spell `"<Unknown> = "`, `" = "`, `":"`, `` " `" ``
/// and `` "`" ``.)
pub open spec fn spec_report_line(addr: PeerAddr, rec: PeerRecordView) -> Seq<u8> {
    match rec.mac {
        None => seq![
            60u8,
            85u8,
            110u8,
            107u8,
            110u8,
            111u8,
            119u8,
            110u8,
            62u8,
            32u8,
            61u8,
            32u8,
        ] + spec_ipv4_ascii(addr.ip) + seq![58u8] + spec_dec_ascii(addr.port as int),
        Some(m) => spec_mac_ascii(m) + seq![32u8, 61u8, 32u8] + spec_ipv4_ascii(addr.ip) + (
        match rec.nickname {
            None => Seq::<u8>::empty(),
            Some(nick) => seq![32u8, 96u8] + encode_utf8(nick) + seq![96u8],
        }),
    }
}

/// Renders the report line for one collected peer: the returned string's
/// UTF-8 bytes are exactly `spec_report_line`.
pub fn report_line(addr: &PeerAddr, rec: &PeerRecord) -> (r: String)
    ensures
        encode_utf8(r@) == spec_report_line(*addr, rec@),
{
    let mut v: Vec<u8> = Vec::new();
    match &rec.mac {
        None => {
            let lit: [u8; 12] = [60, 85, 110, 107, 110, 111, 119, 110, 62, 32, 61, 32];
            v.extend_from_slice(lit.as_slice());
            push_ipv4(&mut v, addr.ip);
            v.push(58);
            push_dec(&mut v, addr.port as u64);
            proof {
                assert(lit@ =~= seq![
                    60u8,
                    85u8,
                    110u8,
                    107u8,
                    110u8,
                    111u8,
                    119u8,
                    110u8,
                    62u8,
                    32u8,
                    61u8,
                    32u8,
                ]);
                assert(v@ =~= spec_report_line(*addr, rec@));
                lemma_ipv4_ascii_is_ascii(addr.ip);
                lemma_dec_ascii_is_ascii(addr.port as int);
                assert forall|i: int| 0 <= i < v@.len() implies #[trigger] v@[i] <= 0x7f by {
                    let a = lit@.len() as int;
                    let b = a + spec_ipv4_ascii(addr.ip).len();
                    if i < a {
                    } else if i < b {
                        assert(v@[i] == spec_ipv4_ascii(addr.ip)[i - a]);
                    } else if i == b {
                    } else {
                        assert(v@[i] == spec_dec_ascii(addr.port as int)[i - b - 1]);
                    }
                }
                lemma_ascii_valid_utf8(v@);
            }
        },
        Some(m) => {
            let mac = *m;
            push_mac_ascii(&mut v, &mac, 0);
            proof {
                assert(mac@.skip(0) =~= mac@);
            }
            v.push(32);
            v.push(61);
            v.push(32);
            push_ipv4(&mut v, addr.ip);
            let ghost head = v@;
            proof {
                assert(head =~= spec_mac_ascii(mac@) + seq![32u8, 61u8, 32u8] + spec_ipv4_ascii(
                    addr.ip,
                ));
                lemma_mac_ascii_is_ascii(mac@);
                lemma_ipv4_ascii_is_ascii(addr.ip);
                assert forall|i: int| 0 <= i < head.len() implies #[trigger] head[i] <= 0x7f by {
                    let a = spec_mac_ascii(mac@).len() as int;
                    let b = a + 3;
                    if i < a {
                        assert(head[i] == spec_mac_ascii(mac@)[i]);
                    } else if i < b {
                    } else {
                        assert(head[i] == spec_ipv4_ascii(addr.ip)[i - b]);
                    }
                }
                lemma_ascii_valid_utf8(head);
            }
            match &rec.nickname {
                None => {
                    proof {
                        assert(v@ =~= spec_report_line(*addr, rec@));
                    }
                },
                Some(nick) => {
                    v.push(32);
                    v.push(96);
                    v.extend_from_slice(nick.as_str().as_bytes());
                    v.push(96);
                    proof {
                        assert(v@ =~= spec_report_line(*addr, rec@));
                        let mid = seq![32u8, 96u8] + encode_utf8(nick@);
                        encode_utf8_valid_utf8(nick@);
                        assert(valid_utf8(seq![32u8, 96u8])) by {
                            lemma_ascii_valid_utf8(seq![32u8, 96u8]);
                        }
                        valid_utf8_concat(seq![32u8, 96u8], encode_utf8(nick@));
                        assert(valid_utf8(seq![96u8])) by {
                            lemma_ascii_valid_utf8(seq![96u8]);
                        }
                        valid_utf8_concat(mid, seq![96u8]);
                        valid_utf8_concat(head, mid + seq![96u8]);
                        assert(v@ =~= head + (mid + seq![96u8]));
                    }
                },
            }
        },
    }
    proof {
        assert(valid_utf8(v@));
    }
    match string_from_utf8(v) {
        Some(s) => s,
        None => {
            // Unreachable: the bytes were proven valid UTF-8.
            proof {
                assert(false);
            }
            String::new()
        },
    }
}

pub open spec fn pairs_view(s: Seq<(String, String)>) -> Seq<(Seq<char>, Seq<char>)> {
    s.map_values(|p: (String, String)| (p.0@, p.1@))
}

/// The override table that a list of configuration entries yields: every
/// entry whose key is a colon-hex MAC address contributes it, later
/// entries winning; entries with unparsable keys are dropped.
pub open spec fn spec_nickname_overrides(pairs: Seq<(Seq<char>, Seq<char>)>) -> Map<
    Seq<u8>,
    Seq<char>,
>
    decreases pairs.len(),
{
    if pairs.len() == 0 {
        Map::empty()
    } else {
        let prev = spec_nickname_overrides(pairs.drop_last());
        match spec_parse_mac(pairs.last().0) {
            Some(m) => prev.insert(m, pairs.last().1),
            None => prev,
        }
    }
}

/// Builds the nickname override table from configuration entries of
/// colon-hex MAC key and nickname value.
pub fn build_nickname_table(pairs: &Vec<(String, String)>) -> (t: NicknameTable)
    ensures
        t@ == spec_nickname_overrides(pairs_view(pairs@)),
{
    let mut t = NicknameTable::new();
    let n = pairs.len();
    let mut i: usize = 0;
    proof {
        assert(pairs_view(pairs@).take(0) =~= Seq::<(Seq<char>, Seq<char>)>::empty());
        assert(t@ =~= spec_nickname_overrides(pairs_view(pairs@).take(0)));
    }
    while i < n
        invariant
            i <= n,
            n == pairs@.len(),
            t@ == spec_nickname_overrides(pairs_view(pairs@).take(i as int)),
        decreases n - i,
    {
        proof {
            let pv = pairs_view(pairs@);
            assert(pv.take(i as int + 1).drop_last() =~= pv.take(i as int));
            assert(pv.take(i as int + 1).last() == pv[i as int]);
            assert(pv[i as int] == (pairs@[i as int].0@, pairs@[i as int].1@));
        }
        match parse_mac(pairs[i].0.as_str()) {
            Some(mac) => {
                t.insert(mac, pairs[i].1.clone());
            },
            None => {},
        }
        i = i + 1;
    }
    proof {
        assert(pairs_view(pairs@).take(n as int) =~= pairs_view(pairs@));
    }
    t
}

} // verus!
