//! The ways to a data centre that has no WebSocket front to go to: through a Cloudflare worker,
//! through a Cloudflare domain, or straight over TCP.

use vstd::prelude::*;

use crate::proxy::bridge;
use crate::proxy::stats::Stats;
use crate::proxy::text::copy_texts;
use crate::proxy::utils::{dc_default_ips, PROTO_INTERMEDIATE_INT};
use crate::proxy::{balancer, text, utils};

verus! {

/// How long making a connection for the fallback may take, in seconds.
pub const FALLBACK_CONNECT_SECS: u64 = 10;

/// What happens while a connection to a relay is made.
#[derive(Debug, Clone, Copy, PartialEq, Eq, Structural)]
pub enum DialEvent {
    /// There is a connection.
    Ready,
    /// There is none. `redirect`: the server sent the proxy elsewhere.
    NotReady { redirect: bool },
    /// The relay handshake was sent.
    Sent,
    /// The relay handshake could not be sent.
    SendFailed,
}

/// What is done to make a connection to a relay.
#[derive(Debug)]
pub enum DialAction {
    /// Take an idle connection to the data centre out of the pool.
    TakePooled,
    /// Make a WebSocket connection to `host` by the name `domain`, on `path`.
    Connect { host: String, domain: String, path: String, timeout_secs: u64 },
    /// Take an idle connection to the data centre behind a worker out of the pool.
    TakeWorker { domain: String, dst: String },
    /// Make a TCP connection to port 443 of `host`.
    ConnectTcp { host: String, timeout_secs: u64 },
    /// Send the relay handshake.
    SendInit,
    /// Carry the session over the WebSocket connection, cut into packets of this transport.
    BridgeWs { proto_int: u32 },
    /// Carry the session over the TCP connection.
    BridgeTcp,
    /// Begin the fallback.
    BeginFallback,
    /// Give up.
    End,
}

/// How far the fallback has come.
#[derive(Debug, Clone, Copy, PartialEq, Eq, Structural)]
pub enum FallbackStage {
    Worker(usize),
    WorkerInit(usize),
    Front(usize),
    FrontInit(usize),
    Tcp,
    TcpInit,
    CarryWs,
    CarryTcp,
    Ended,
}

/// One way after the other to a data centre at the address `dst`.
#[derive(Debug)]
pub struct Fallback {
    pub dc: u32,
    pub dst: String,
    pub workers: Vec<String>,
    pub fronts: Vec<String>,
    pub stage: FallbackStage,
}

/// The front at position `i`, or, behind the last one, TCP.
pub open spec fn front_or_tcp(fronts: nat, i: int) -> FallbackStage {
    if i < fronts {
        FallbackStage::Front(i as usize)
    } else {
        FallbackStage::Tcp
    }
}

/// The worker at position `i`, or, behind the last one, the first front.
pub open spec fn worker_or_front(workers: nat, fronts: nat, i: int) -> FallbackStage {
    if i < workers {
        FallbackStage::Worker(i as usize)
    } else {
        front_or_tcp(fronts, 0)
    }
}

/// The stage that an event leads to.
pub open spec fn next_stage(
    stage: FallbackStage,
    workers: nat,
    fronts: nat,
    event: DialEvent,
) -> FallbackStage {
    match stage {
        FallbackStage::Worker(i) => match event {
            DialEvent::Ready => FallbackStage::WorkerInit(i),
            _ => worker_or_front(workers, fronts, i + 1),
        },
        FallbackStage::WorkerInit(i) => match event {
            DialEvent::Sent => FallbackStage::CarryWs,
            _ => worker_or_front(workers, fronts, i + 1),
        },
        FallbackStage::Front(i) => match event {
            DialEvent::Ready => FallbackStage::FrontInit(i),
            _ => front_or_tcp(fronts, i + 1),
        },
        FallbackStage::FrontInit(i) => match event {
            DialEvent::Sent => FallbackStage::CarryWs,
            _ => front_or_tcp(fronts, i + 1),
        },
        FallbackStage::Tcp => match event {
            DialEvent::Ready => FallbackStage::TcpInit,
            _ => FallbackStage::Ended,
        },
        FallbackStage::TcpInit => match event {
            DialEvent::Sent => FallbackStage::CarryTcp,
            _ => FallbackStage::Ended,
        },
        _ => FallbackStage::Ended,
    }
}

/// What a stage counts when there is a connection.
pub open spec fn counted(stage: FallbackStage, event: DialEvent, totals: Stats) -> Stats {
    match event {
        DialEvent::Ready => match stage {
            FallbackStage::Worker(_) | FallbackStage::Front(_) => Stats {
                connections_cfproxy: bridge::wrapped_sum(totals.connections_cfproxy, 1),
                ..totals
            },
            FallbackStage::Tcp => Stats {
                connections_tcp_fallback: bridge::wrapped_sum(totals.connections_tcp_fallback, 1),
                ..totals
            },
            _ => totals,
        },
        _ => totals,
    }
}

impl Fallback {
    /// The position in the list of workers or fronts is one that the list has.
    pub open spec fn wf(&self) -> bool {
        match self.stage {
            FallbackStage::Worker(i) => i < self.workers.len(),
            FallbackStage::WorkerInit(i) => i < self.workers.len(),
            FallbackStage::Front(i) => i < self.fronts.len(),
            FallbackStage::FrontInit(i) => i < self.fronts.len(),
            _ => true,
        }
    }

    /// What is done in a stage.
    pub open spec fn does(&self, action: DialAction) -> bool {
        match self.stage {
            FallbackStage::Worker(i) => {
                &&& action matches DialAction::TakeWorker { domain, dst }
                &&& domain@ == self.workers@[i as int]@
                &&& dst@ == self.dst@
            },
            FallbackStage::Front(i) => {
                &&& action matches DialAction::Connect { host, domain, path, timeout_secs }
                &&& host@ == self.fronts@[i as int]@
                &&& domain@ == self.fronts@[i as int]@
                &&& path@ == "/"@ + self.dst@
                &&& timeout_secs == FALLBACK_CONNECT_SECS
            },
            FallbackStage::Tcp => {
                &&& action matches DialAction::ConnectTcp { host, timeout_secs }
                &&& host@ == self.dst@
                &&& timeout_secs == FALLBACK_CONNECT_SECS
            },
            FallbackStage::WorkerInit(_) => action is SendInit,
            FallbackStage::FrontInit(_) => action is SendInit,
            FallbackStage::TcpInit => action is SendInit,
            FallbackStage::CarryWs => action == (DialAction::BridgeWs {
                proto_int: PROTO_INTERMEDIATE_INT,
            }),
            FallbackStage::CarryTcp => action is BridgeTcp,
            FallbackStage::Ended => action is End,
        }
    }

    /// The fallback for a data centre: none if its address is not known. Cloudflare domains are
    /// tried only if `use_cfproxy` says so.
    pub fn new(dc: u32, workers: &Vec<String>, use_cfproxy: bool, fronts: &Vec<String>) -> (out:
        Option<Fallback>)
        ensures
            out is Some <==> utils::default_ip(dc) is Some,
            out matches Some(f) ==> {
                &&& f.wf()
                &&& f.dc == dc
                &&& Some(f.dst@) == utils::default_ip(dc)
                &&& text::text_views(f.workers@) == text::text_views(workers@)
                &&& text::text_views(f.fronts@) == if use_cfproxy {
                    text::text_views(fronts@)
                } else {
                    Seq::empty()
                }
                &&& f.stage == worker_or_front(f.workers@.len(), f.fronts@.len(), 0)
            },
    {
        let ips = dc_default_ips();
        match ips.get(&dc) {
            None => None,
            Some(ip) => {
                let workers_copy = copy_texts(workers.as_slice());
                let fronts_copy: Vec<String> = if use_cfproxy {
                    copy_texts(fronts.as_slice())
                } else {
                    Vec::new()
                };
                proof {
                    assert(text::text_views(workers_copy@).len() == text::text_views(
                        workers@,
                    ).len());
                    if !use_cfproxy {
                        assert(text::text_views(fronts_copy@) =~= Seq::<Seq<char>>::empty());
                    }
                }
                let mut f = Fallback {
                    dc,
                    dst: (*ip).to_owned(),
                    workers: workers_copy,
                    fronts: fronts_copy,
                    stage: FallbackStage::Tcp,
                };
                f.stage = f.worker_stage(0);
                Some(f)
            },
        }
    }

    fn front_stage(&self, i: usize) -> (stage: FallbackStage)
        ensures
            stage == front_or_tcp(self.fronts@.len(), i as int),
    {
        if i < self.fronts.len() {
            FallbackStage::Front(i)
        } else {
            FallbackStage::Tcp
        }
    }

    fn worker_stage(&self, i: usize) -> (stage: FallbackStage)
        ensures
            stage == worker_or_front(self.workers@.len(), self.fronts@.len(), i as int),
    {
        if i < self.workers.len() {
            FallbackStage::Worker(i)
        } else {
            self.front_stage(0)
        }
    }

    /// What is to be done now.
    pub fn action(&self) -> (action: DialAction)
        requires
            self.wf(),
        ensures
            self.does(action),
    {
        match self.stage {
            FallbackStage::Worker(i) => DialAction::TakeWorker {
                domain: self.workers[i].clone(),
                dst: self.dst.clone(),
            },
            FallbackStage::Front(i) => {
                let mut path = "/".to_owned();
                path.append(self.dst.as_str());
                DialAction::Connect {
                    host: self.fronts[i].clone(),
                    domain: self.fronts[i].clone(),
                    path,
                    timeout_secs: FALLBACK_CONNECT_SECS,
                }
            },
            FallbackStage::Tcp => DialAction::ConnectTcp {
                host: self.dst.clone(),
                timeout_secs: FALLBACK_CONNECT_SECS,
            },
            FallbackStage::WorkerInit(_) => DialAction::SendInit,
            FallbackStage::FrontInit(_) => DialAction::SendInit,
            FallbackStage::TcpInit => DialAction::SendInit,
            FallbackStage::CarryWs => DialAction::BridgeWs { proto_int: PROTO_INTERMEDIATE_INT },
            FallbackStage::CarryTcp => DialAction::BridgeTcp,
            FallbackStage::Ended => DialAction::End,
        }
    }

    /// Takes an event, counts, and says what is to be done next.
    pub fn step(&mut self, event: DialEvent, totals: &mut Stats) -> (action: DialAction)
        requires
            old(self).wf(),
        ensures
            final(self).wf(),
            final(self).dc == old(self).dc,
            final(self).dst == old(self).dst,
            final(self).workers == old(self).workers,
            final(self).fronts == old(self).fronts,
            final(self).stage == next_stage(
                old(self).stage,
                old(self).workers@.len(),
                old(self).fronts@.len(),
                event,
            ),
            *final(totals) == counted(old(self).stage, event, *old(totals)),
            final(self).does(action),
    {
        let ready: bool = match event {
            DialEvent::Ready => true,
            _ => false,
        };
        let sent: bool = match event {
            DialEvent::Sent => true,
            _ => false,
        };
        self.stage = match self.stage {
            FallbackStage::Worker(i) => if ready {
                totals.connections_cfproxy = totals.connections_cfproxy.wrapping_add(1);
                FallbackStage::WorkerInit(i)
            } else {
                self.worker_stage(i + 1)
            },
            FallbackStage::WorkerInit(i) => if sent {
                FallbackStage::CarryWs
            } else {
                self.worker_stage(i + 1)
            },
            FallbackStage::Front(i) => if ready {
                totals.connections_cfproxy = totals.connections_cfproxy.wrapping_add(1);
                FallbackStage::FrontInit(i)
            } else {
                self.front_stage(i + 1)
            },
            FallbackStage::FrontInit(i) => if sent {
                FallbackStage::CarryWs
            } else {
                self.front_stage(i + 1)
            },
            FallbackStage::Tcp => if ready {
                totals.connections_tcp_fallback = totals.connections_tcp_fallback.wrapping_add(1);
                FallbackStage::TcpInit
            } else {
                FallbackStage::Ended
            },
            FallbackStage::TcpInit => if sent {
                FallbackStage::CarryTcp
            } else {
                FallbackStage::Ended
            },
            _ => FallbackStage::Ended,
        };
        self.action()
    }
}

/// How far a stage is along the way: workers first, then fronts, then TCP.
pub open spec fn progress(stage: FallbackStage, workers: nat, fronts: nat) -> int {
    let listed: int = 2 * (workers + fronts) as int;
    match stage {
        FallbackStage::Worker(i) => 2 * i,
        FallbackStage::WorkerInit(i) => 2 * i + 1,
        FallbackStage::Front(i) => 2 * workers + 2 * i,
        FallbackStage::FrontInit(i) => 2 * workers + 2 * i + 1,
        FallbackStage::Tcp => listed,
        FallbackStage::TcpInit => listed + 1,
        FallbackStage::CarryWs => listed + 2,
        FallbackStage::CarryTcp => listed + 2,
        FallbackStage::Ended => listed + 3,
    }
}

/// The fallback never goes back: each event leads further along the way, until it has ended. So
/// it tries every worker and every front at most once, and ends.
pub proof fn law_fallback_goes_forward(fallback: Fallback, event: DialEvent)
    requires
        fallback.wf(),
        fallback.stage !is Ended,
    ensures
        ({
            let workers = fallback.workers@.len();
            let fronts = fallback.fronts@.len();
            let next = next_stage(fallback.stage, workers, fronts, event);
            progress(fallback.stage, workers, fronts) < progress(next, workers, fronts) <= 2 * (
            workers + fronts) + 3
        }),
{
    assert(fallback.workers.len() == fallback.workers@.len());
    assert(fallback.fronts.len() == fallback.fronts@.len());
}

/// Nothing is given up before TCP has been tried: as long as no connection carries the session,
/// the fallback ends only from TCP.
pub proof fn law_fallback_ends_behind_tcp(fallback: Fallback, event: DialEvent)
    requires
        fallback.wf(),
        next_stage(
            fallback.stage,
            fallback.workers@.len(),
            fallback.fronts@.len(),
            event,
        ) is Ended,
    ensures
        fallback.stage is Tcp || fallback.stage is TcpInit || fallback.stage is CarryWs
            || fallback.stage is CarryTcp || fallback.stage is Ended,
{
}

/// A user's own Cloudflare domain is tried before TCP: the fallback does not start with TCP, and
/// without workers it starts with the user's first domain.
pub proof fn law_user_domain_before_tcp(
    fallback: Fallback,
    user: Seq<Seq<char>>,
    balanced: Seq<Seq<char>>,
)
    requires
        user.len() > 0,
        text::text_views(fallback.fronts@) == balancer::front_order(user, balanced),
        fallback.stage == worker_or_front(
            fallback.workers@.len(),
            fallback.fronts@.len(),
            0,
        ),
    ensures
        fallback.stage !is Tcp,
        fallback.workers@.len() == 0 ==> fallback.stage == FallbackStage::Front(0),
        fallback.fronts@.len() > 0,
        fallback.fronts@[0]@ == user[0],
{
    let first = seq![user[0]];
    let rest = user.skip(1) + balanced;
    assert(first + rest =~= user + balanced);
    text::lemma_with_new_concat(Seq::empty(), first, rest);
    text::lemma_with_new_distinct(first);
    text::law_with_new(first, rest);
    let order = balancer::front_order(user, balanced);
    assert(order.take(1)[0] == user[0]);
    assert(order[0] == fallback.fronts@[0]@);
}

/// Where the fallback is when that many attempts to connect have failed.
pub open spec fn stage_after_failures(workers: nat, fronts: nat, failures: nat) -> FallbackStage
    decreases failures,
{
    if failures == 0 {
        worker_or_front(workers, fronts, 0)
    } else {
        next_stage(
            stage_after_failures(workers, fronts, (failures - 1) as nat),
            workers,
            fronts,
            DialEvent::NotReady { redirect: false },
        )
    }
}

/// The way that the fallback goes when nothing answers: through every worker in the order of the
/// list, then through every Cloudflare domain in the order of the list, then over TCP, and then it
/// ends. None is left out and none comes twice.
pub proof fn law_every_way_is_tried_in_turn(workers: nat, fronts: nat, k: nat)
    requires
        workers + fronts < usize::MAX,
    ensures
        ({
            let stage = stage_after_failures(workers, fronts, k);
            &&& k < workers ==> stage == FallbackStage::Worker(k as usize)
            &&& workers <= k < workers + fronts ==> stage == FallbackStage::Front(
                (k - workers) as usize,
            )
            &&& k == workers + fronts ==> stage is Tcp
            &&& k > workers + fronts ==> stage is Ended
        }),
    decreases k,
{
    if k > 0 {
        law_every_way_is_tried_in_turn(workers, fronts, (k - 1) as nat);
    }
}

/// What each event does to the fallback. A connection is used to send the relay handshake on it; a
/// handshake that was sent begins the session. Anything else leads to the next way, whether no
/// connection could be made or the handshake could not be sent, and whether there was a redirect
/// or not.
pub proof fn law_fallback_events(stage: FallbackStage, workers: nat, fronts: nat, event: DialEvent)
    ensures
        ({
            let next = next_stage(stage, workers, fronts, event);
            match stage {
                FallbackStage::Worker(i) => {
                    &&& event is Ready ==> next == FallbackStage::WorkerInit(i)
                    &&& !(event is Ready) && i + 1 < workers ==> next == FallbackStage::Worker(
                        (i + 1) as usize,
                    )
                    &&& !(event is Ready) && i + 1 >= workers && fronts > 0 ==> next
                        == FallbackStage::Front(0)
                    &&& !(event is Ready) && i + 1 >= workers && fronts == 0 ==> next is Tcp
                },
                FallbackStage::WorkerInit(i) => {
                    &&& event is Sent ==> next is CarryWs
                    &&& !(event is Sent) && i + 1 < workers ==> next == FallbackStage::Worker(
                        (i + 1) as usize,
                    )
                    &&& !(event is Sent) && i + 1 >= workers && fronts > 0 ==> next
                        == FallbackStage::Front(0)
                    &&& !(event is Sent) && i + 1 >= workers && fronts == 0 ==> next is Tcp
                },
                FallbackStage::Front(i) => {
                    &&& event is Ready ==> next == FallbackStage::FrontInit(i)
                    &&& !(event is Ready) && i + 1 < fronts ==> next == FallbackStage::Front(
                        (i + 1) as usize,
                    )
                    &&& !(event is Ready) && i + 1 >= fronts ==> next is Tcp
                },
                FallbackStage::FrontInit(i) => {
                    &&& event is Sent ==> next is CarryWs
                    &&& !(event is Sent) && i + 1 < fronts ==> next == FallbackStage::Front(
                        (i + 1) as usize,
                    )
                    &&& !(event is Sent) && i + 1 >= fronts ==> next is Tcp
                },
                FallbackStage::Tcp => {
                    &&& event is Ready ==> next is TcpInit
                    &&& !(event is Ready) ==> next is Ended
                },
                FallbackStage::TcpInit => {
                    &&& event is Sent ==> next is CarryTcp
                    &&& !(event is Sent) ==> next is Ended
                },
                _ => next is Ended,
            }
        }),
{
}

/// What the fallback does at each place, and what it counts. It asks the pool for a connection
/// through the worker to the data centre's address, connects to a Cloudflare domain by its own
/// name with the address as the path, or connects to the address itself, each for ten seconds.
pub proof fn law_fallback_does(
    fallback: Fallback,
    action: DialAction,
    event: DialEvent,
    totals: Stats,
)
    requires
        fallback.wf(),
        fallback.does(action),
    ensures
        fallback.stage matches FallbackStage::Worker(i) ==> (action matches DialAction::TakeWorker {
            domain,
            dst,
        } && domain@ == fallback.workers@[i as int]@ && dst@ == fallback.dst@),
        fallback.stage matches FallbackStage::Front(i) ==> (action matches DialAction::Connect {
            host,
            domain,
            path,
            timeout_secs,
        } && host@ == fallback.fronts@[i as int]@ && domain@ == fallback.fronts@[i as int]@
            && path@.len() == 1 + fallback.dst@.len() && path@[0] == '/' && path@.skip(1)
            == fallback.dst@ && timeout_secs == 10),
        fallback.stage is Tcp ==> (action matches DialAction::ConnectTcp { host, timeout_secs }
            && host@ == fallback.dst@ && timeout_secs == 10),
        fallback.stage is CarryWs ==> action == (DialAction::BridgeWs { proto_int: 0xEEEE_EEEE }),
        fallback.stage is CarryTcp ==> action is BridgeTcp,
        fallback.stage is Ended ==> action is End,
        fallback.stage is WorkerInit || fallback.stage is FrontInit || fallback.stage is TcpInit
            ==> action is SendInit,
        !(event is Ready) ==> counted(fallback.stage, event, totals) == totals,
        event is Ready && (fallback.stage is Worker || fallback.stage is Front)
            && totals.connections_cfproxy < u64::MAX ==> counted(fallback.stage, event, totals) == (
        Stats { connections_cfproxy: (totals.connections_cfproxy + 1) as u64, ..totals }),
        event is Ready && fallback.stage is Tcp && totals.connections_tcp_fallback < u64::MAX
            ==> counted(fallback.stage, event, totals) == (Stats {
            connections_tcp_fallback: (totals.connections_tcp_fallback + 1) as u64,
            ..totals
        }),
{
    reveal_strlit("/");
    if let FallbackStage::Front(i) = fallback.stage {
        let path = action->path@;
        assert(path.skip(1) =~= fallback.dst@);
    }
}

} // verus!
