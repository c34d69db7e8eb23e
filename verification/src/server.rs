//! The discovery server's state machine. Per received datagram the server
//! answers a plain broadcast request with its own MAC and nickname, unless
//! the request's idempotency token was seen recently: the client repeats
//! its request a fixed number of times against packet loss, and the token
//! list is the sole defense against answering each repetition.

use vstd::prelude::*;
use crate::app_common::{CliArgError, CliArgErrorView, ConfigError, ConfigErrorView, Params};
use crate::message::{mac_opt_view, views_of, Message, MessageView, Response2};
use crate::text::{parse_ipv4, spec_parse_ipv4, str_is, strings_view};
use crate::tlv::bytes_eq;

verus! {

/// Capacity of the duplicate-suppression token list.
pub const RECENT_IDEM_CAPACITY: usize = 30;

/// Bounded list of the most recently accepted idempotency tokens, newest
/// first; the server's only mutable state.
pub struct RecentIdemSet {
    ids: Vec<[u8; 8]>,
}

impl View for RecentIdemSet {
    type V = Seq<Seq<u8>>;

    closed spec fn view(&self) -> Seq<Seq<u8>> {
        self.ids@.map_values(|a: [u8; 8]| a@)
    }
}

/// The token a server would answer: present exactly when the datagram's
/// first message is a broadcast request without a MAC filter. (A request
/// carrying a MAC filter is deliberately dropped, not answered: targeted
/// queries are reserved and unimplemented.)
pub open spec fn spec_plain_request_token(ms: Seq<MessageView>) -> Option<Seq<u8>> {
    if ms.len() > 0 && (ms[0] matches MessageView::Request1 { mac: None, .. }) {
        match ms[0] {
            MessageView::Request1 { idem_id, .. } => Some(idem_id),
            _ => None,
        }
    } else {
        None
    }
}

/// The reply to one decoded datagram: the server's MAC and its nickname
/// correlated to the request's token, or nothing for any datagram that is
/// not a fresh plain request.
pub open spec fn spec_server_reply(
    st: Seq<Seq<u8>>,
    ms: Seq<MessageView>,
    our_mac: Option<Seq<u8>>,
    nickname: Seq<char>,
) -> Option<Seq<MessageView>> {
    match spec_plain_request_token(ms) {
        None => None,
        Some(idem) => if st.contains(idem) {
            None
        } else {
            Some(
                seq![
                    MessageView::Response1(our_mac),
                    MessageView::Response2 { idem_id: idem, nickname },
                ],
            )
        },
    }
}

/// The token list after one decoded datagram: an answered token moves to
/// the front and the oldest entries fall off past the capacity.
pub open spec fn spec_server_next(st: Seq<Seq<u8>>, ms: Seq<MessageView>) -> Seq<Seq<u8>> {
    match spec_plain_request_token(ms) {
        None => st,
        Some(idem) => if st.contains(idem) {
            st
        } else {
            let grown = seq![idem] + st;
            if grown.len() <= RECENT_IDEM_CAPACITY {
                grown
            } else {
                grown.take(RECENT_IDEM_CAPACITY as int)
            }
        },
    }
}

impl RecentIdemSet {
    pub open spec fn wf(&self) -> bool {
        self@.len() <= RECENT_IDEM_CAPACITY
    }

    pub fn new() -> (s: RecentIdemSet)
        ensures
            s@ == Seq::<Seq<u8>>::empty(),
            s.wf(),
    {
        let s = RecentIdemSet { ids: Vec::new() };
        proof {
            assert(s@ =~= Seq::<Seq<u8>>::empty());
        }
        s
    }

    /// Whether this token was accepted recently.
    pub fn contains(&self, id: &[u8; 8]) -> (r: bool)
        ensures
            r == self@.contains(id@),
    {
        let n = self.ids.len();
        let mut i: usize = 0;
        while i < n
            invariant
                i <= n,
                n == self.ids@.len(),
                forall|j: int| 0 <= j < i ==> self@[j] != id@,
            decreases n - i,
        {
            if bytes_eq(self.ids[i].as_slice(), id.as_slice()) {
                proof {
                    assert(self@[i as int] == id@);
                }
                return true;
            }
            i = i + 1;
        }
        proof {
            assert(forall|j: int| 0 <= j < self@.len() ==> self@[j] != id@);
        }
        false
    }

    /// Processes one decoded datagram. A plain broadcast request whose
    /// token is not in the list is answered with the server's MAC and
    /// nickname and its token is remembered; a repeated token, a filtered
    /// request, or anything else draws no reply.
    pub fn handle_datagram(
        &mut self,
        msgs: &Vec<Message>,
        our_mac: Option<[u8; 6]>,
        nickname: &String,
    ) -> (reply: Option<Vec<Message>>)
        requires
            old(self).wf(),
        ensures
            final(self).wf(),
            final(self)@ == spec_server_next(old(self)@, views_of(msgs@)),
            match reply {
                None => spec_server_reply(
                    old(self)@,
                    views_of(msgs@),
                    mac_opt_view(our_mac),
                    nickname@,
                ) is None,
                Some(v) => spec_server_reply(
                    old(self)@,
                    views_of(msgs@),
                    mac_opt_view(our_mac),
                    nickname@,
                ) matches Some(rv) && views_of(v@) == rv,
            },
    {
        let ghost mv = views_of(msgs@);
        if msgs.len() == 0 {
            return None;
        }
        proof {
            assert(mv[0] == msgs@[0]@);
        }
        match &msgs[0] {
            Message::Request1 { idem_id, mac: None } => {
                if self.contains(idem_id) {
                    None
                } else {
                    self.ids.insert(0, *idem_id);
                    self.ids.truncate(RECENT_IDEM_CAPACITY);
                    proof {
                        assert(self@ =~= spec_server_next(old(self)@, mv));
                    }
                    let reply = vec![
                        Message::Response1(our_mac),
                        Message::Response2(
                            Response2 { idem_id: *idem_id, nickname: nickname.clone() },
                        ),
                    ];
                    proof {
                        assert(views_of(reply@) =~= spec_server_reply(
                            old(self)@,
                            mv,
                            mac_opt_view(our_mac),
                            nickname@,
                        )->Some_0);
                    }
                    Some(reply)
                }
            },
            _ => None,
        }
    }
}

/// Duplicate suppression: once a datagram has been answered, handing the
/// same datagram to the resulting state draws no further reply, so a
/// repeated request is answered exactly once.
pub proof fn lemma_duplicate_request_suppressed(
    st: Seq<Seq<u8>>,
    ms: Seq<MessageView>,
    our_mac: Option<Seq<u8>>,
    nickname: Seq<char>,
)
    requires
        spec_server_reply(st, ms, our_mac, nickname) is Some,
    ensures
        spec_server_reply(spec_server_next(st, ms), ms, our_mac, nickname) is None,
{
    match spec_plain_request_token(ms) {
        Some(idem) => {
            assert(spec_server_next(st, ms)[0] == idem);
            assert(spec_server_next(st, ms).contains(idem));
        },
        None => {
            assert(false);
        },
    }
}

/// Liveness of the answer: a plain broadcast request whose token is not in
/// the recent set is always answered.
pub proof fn lemma_fresh_request_answered(
    st: Seq<Seq<u8>>,
    ms: Seq<MessageView>,
    our_mac: Option<Seq<u8>>,
    nickname: Seq<char>,
)
    requires
        spec_plain_request_token(ms) matches Some(idem) && !st.contains(idem),
    ensures
        spec_server_reply(st, ms, our_mac, nickname) is Some,
{
}

/// What one server run was configured with.
pub struct ServerParams {
    pub common: Params,
    /// Interfaces to serve on, each an IPv4 address as its 32-bit
    /// big-endian value.
    pub bind_addrs: Vec<u32>,
    /// The display name announced to clients.
    pub nickname: String,
    /// The server's own MAC address, if it could be detected.
    pub our_mac: Option<[u8; 6]>,
}

/// The server's command-line grammar: `--bind-addr <ipv4>` may repeat,
/// `--nickname <name>` replaces the empty default, anything else is
/// rejected.
pub open spec fn spec_server_args(
    args: Seq<Seq<char>>,
    binds: Seq<u32>,
    nickname: Seq<char>,
) -> Result<(Seq<u32>, Seq<char>), ConfigErrorView>
    decreases args.len(),
{
    if args.len() == 0 {
        Ok((binds, nickname))
    } else if args[0] == "--bind-addr"@ {
        if args.len() < 2 {
            Err(ConfigErrorView::Cli(CliArgErrorView::MissingArgumentValue(args[0])))
        } else {
            match spec_parse_ipv4(args[1]) {
                None => Err(ConfigErrorView::BadAddress(args[1])),
                Some(a) => spec_server_args(args.skip(2), binds.push(a), nickname),
            }
        }
    } else if args[0] == "--nickname"@ {
        if args.len() < 2 {
            Err(ConfigErrorView::Cli(CliArgErrorView::MissingArgumentValue(args[0])))
        } else {
            spec_server_args(args.skip(2), binds, args[1])
        }
    } else {
        Err(ConfigErrorView::Cli(CliArgErrorView::UnrecognizedArgument(args[0])))
    }
}

/// Parses the server's command line. Succeeds exactly when the arguments
/// fit the grammar; when no bind address was given, the detected local
/// addresses stand in. The detected MAC is carried through for replies.
pub fn configure(args: &Vec<String>, our_mac: Option<[u8; 6]>, detected_ips: Vec<u32>) -> (r:
    Result<ServerParams, ConfigError>)
    ensures
        match r {
            Ok(p) => {
                &&& spec_server_args(strings_view(args@), Seq::empty(), Seq::empty()) matches Ok(
                    cfg,
                )
                &&& p.nickname@ == cfg.1
                &&& p.bind_addrs@ == (if cfg.0.len() == 0 {
                    detected_ips@
                } else {
                    cfg.0
                })
                &&& p.our_mac == our_mac
                &&& p.common.server_port == 9040
                &&& p.common.multicast_addr == 0xe1646362
            },
            Err(e) => spec_server_args(strings_view(args@), Seq::empty(), Seq::empty()) matches Err(
                ev,
            ) && e@ == ev,
        },
{
    let mut bind_addrs: Vec<u32> = Vec::new();
    let mut nickname = String::new();
    let n = args.len();
    let mut i: usize = 0;
    proof {
        assert(strings_view(args@).skip(0) =~= strings_view(args@));
        assert(bind_addrs@ =~= Seq::<u32>::empty());
    }
    while i < n
        invariant
            i <= n,
            n == args@.len(),
            spec_server_args(strings_view(args@), Seq::empty(), Seq::empty()) == spec_server_args(
                strings_view(args@).skip(i as int),
                bind_addrs@,
                nickname@,
            ),
        decreases n - i,
    {
        proof {
            let v = strings_view(args@);
            assert(v.skip(i as int)[0] == v[i as int]);
            assert(v[i as int] == args@[i as int]@);
        }
        if str_is(args[i].as_str(), "--bind-addr") {
            if i + 1 >= n {
                return Err(ConfigError::Cli(CliArgError::MissingArgumentValue(args[i].clone())));
            }
            proof {
                let v = strings_view(args@);
                assert(v.skip(i as int)[1] == v[i as int + 1]);
                assert(v[i as int + 1] == args@[i as int + 1]@);
                assert(v.skip(i as int).skip(2) =~= v.skip(i as int + 2));
            }
            match parse_ipv4(args[i + 1].as_str()) {
                None => {
                    return Err(ConfigError::BadAddress(args[i + 1].clone()));
                },
                Some(addr) => {
                    bind_addrs.push(addr);
                },
            }
            i = i + 2;
        } else if str_is(args[i].as_str(), "--nickname") {
            if i + 1 >= n {
                return Err(ConfigError::Cli(CliArgError::MissingArgumentValue(args[i].clone())));
            }
            proof {
                let v = strings_view(args@);
                assert(v.skip(i as int)[1] == v[i as int + 1]);
                assert(v[i as int + 1] == args@[i as int + 1]@);
                assert(v.skip(i as int).skip(2) =~= v.skip(i as int + 2));
            }
            nickname = args[i + 1].clone();
            i = i + 2;
        } else {
            return Err(ConfigError::Cli(CliArgError::UnrecognizedArgument(args[i].clone())));
        }
    }
    proof {
        assert(strings_view(args@).skip(n as int) =~= Seq::<Seq<char>>::empty());
    }
    let bind_addrs = if bind_addrs.len() == 0 {
        detected_ips
    } else {
        bind_addrs
    };
    Ok(ServerParams { common: Params::default(), bind_addrs, nickname, our_mac })
}

} // verus!
