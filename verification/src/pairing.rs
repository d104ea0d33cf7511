//! Pairing: from an encrypted channel with somebody to one with a certain device.
//!
//! Both sides show the same code, and a person confirms it on both. Only then is
//! the key of the other side fixed. A device that shows another key than the one
//! it was paired with is turned away, and one that is not paired is told nothing
//! of the library.

pub use crate::address::{join_address, split_addr, split_host_port};
pub use crate::devices::{
    forget_device, hello, keep_address, known_state, library_counts, me, peer_addr, peer_name,
    platform_of, report_hello, restore_manual_peers, set_device_address, store_device, touch_device,
    unpair, Known, PeerHelloEvent,
};
use crate::devices::known_as;
use crate::library::Library;
use crate::manifest::{sizes_fit, total_size, Plan};
use crate::msg_text::{msg_text, write_msg};
use crate::seqs::views;
use crate::text::{join, join3, opt_view};
use crate::uidset::UidSet;
use crate::wire::Msg;
use vstd::prelude::*;

verus! {

broadcast use vstd::string::group_string_axioms;

/// How long it is waited for a person to decide.
pub const DECISION_TIMEOUT_MS: u64 = 120000;

/// How long it is waited for a server to answer.
pub const SERVER_IO_TIMEOUT_MS: u64 = 15000;

/// How much time at least lies between two notices that the library changed.
pub const LIBRARY_EVENT_MIN_MS: i64 = 1500;

// ---------------------------------------------------------------------------
// What is going on
// ---------------------------------------------------------------------------

/// Which devices a person is asked about, and with which ones files are being
/// synchronised.
#[derive(Debug)]
pub struct Pairing {
    pub pending: UidSet,
    pub active: UidSet,
}

impl Default for Pairing {
    fn default() -> (r: Self)
        ensures
            r.pending@ == Set::<Seq<char>>::empty(),
            r.active@ == Set::<Seq<char>>::empty(),
            r.wf(),
    {
        Pairing { pending: UidSet::new(), active: UidSet::new() }
    }
}

impl Pairing {
    pub open spec fn wf(&self) -> bool {
        self.pending.wf() && self.active.wf()
    }

    /// A person is asked about that device.
    pub fn ask(&mut self, uid: &str)
        requires
            old(self).wf(),
        ensures
            final(self).pending@ == old(self).pending@.insert(uid@),
            final(self).active@ == old(self).active@,
            final(self).wf(),
    {
        self.pending.insert(uid.to_owned());
    }

    /// Takes up an answer; whether anybody was waiting for it. An answer counts
    /// once.
    pub fn resolve(&mut self, uid: &str) -> (r: bool)
        requires
            old(self).wf(),
        ensures
            r == old(self).pending@.contains(uid@),
            final(self).pending@ == old(self).pending@.remove(uid@),
            final(self).active@ == old(self).active@,
            final(self).wf(),
    {
        self.pending.remove(uid)
    }

    /// Marks a device as one that files are being synchronised with; not, if it is
    /// already. Two runs with the same device would spoil each other's files.
    pub fn acquire(&mut self, uid: &str) -> (r: bool)
        requires
            old(self).wf(),
        ensures
            r == !old(self).active@.contains(uid@),
            final(self).active@ == old(self).active@.insert(uid@),
            final(self).pending@ == old(self).pending@,
            final(self).wf(),
    {
        self.active.insert(uid.to_owned())
    }

    /// Takes the mark back.
    pub fn release(&mut self, uid: &str)
        requires
            old(self).wf(),
        ensures
            final(self).active@ == old(self).active@.remove(uid@),
            final(self).pending@ == old(self).pending@,
            final(self).wf(),
    {
        self.active.remove(uid);
    }

    /// Whether files are being synchronised with any of these.
    pub fn is_busy(&self, uids: &[String]) -> (r: bool)
        ensures
            r == exists|i: int|
                0 <= i < uids@.len() && self.active@.contains((#[trigger] uids@[i])@),
    {
        for i in 0..uids.len()
            invariant
                forall|j: int| 0 <= j < i ==> !self.active@.contains((#[trigger] uids@[j])@),
        {
            if self.active.contains(uids[i].as_str()) {
                return true;
            }
        }
        false
    }

    /// Whether to go on waiting for these: as long as one is busy, up to a limit.
    pub fn keeps_waiting(&self, uids: &[String], waited_ms: u64, max_ms: u64) -> (r: bool)
        ensures
            r == (waited_ms < max_ms && exists|i: int|
                0 <= i < uids@.len() && self.active@.contains((#[trigger] uids@[i])@)),
    {
        waited_ms < max_ms && self.is_busy(uids)
    }
}

/// When it was last told that the library changed.
#[derive(Debug, Clone, Copy, PartialEq, Eq, Structural)]
pub struct LibraryNotice {
    pub last: i64,
}

impl LibraryNotice {
    /// Whether to tell now that the library changed. Each time everything is read
    /// anew, so it is told only every so often; what must be told always is.
    pub fn is_due(&mut self, force: bool, now: i64) -> (r: bool)
        ensures
            r == (force || now - old(self).last >= LIBRARY_EVENT_MIN_MS),
            final(self).last == if r {
                now
            } else {
                old(self).last
            },
    {
        let soon: bool = match now.checked_sub(self.last) {
            Some(d) => d < LIBRARY_EVENT_MIN_MS,
            None => now < self.last,
        };
        if !force && soon {
            return false;
        }
        self.last = now;
        true
    }
}

/// What is shown of a run that failed: a connection that was cut is nothing to
/// worry about when nobody asked for the run, for it is tried again.
pub open spec fn shown_failure(error: Seq<char>, cut: bool, auto: bool) -> Option<Seq<char>> {
    if !cut {
        Some(error)
    } else if auto {
        None
    } else {
        Some("connection lost"@)
    }
}

/// What is shown of a run that failed.
pub fn sync_error(error: &str, cut: bool, auto: bool) -> (r: Option<String>)
    ensures
        opt_view(r) == shown_failure(error@, cut, auto),
{
    if !cut {
        Some(error.to_owned())
    } else if auto {
        None
    } else {
        Some("connection lost".to_owned())
    }
}

/// What synchronising with a device would do, as it is shown.
#[derive(Debug)]
pub struct SyncPlanEvent {
    pub uid: String,
    pub name: String,
    pub plan: Plan,
    pub bytes_in: i64,
    pub bytes_out: i64,
}

/// What synchronising with a device would do, as it is shown.
pub fn plan_event(uid: String, name: String, plan: Plan) -> (r: SyncPlanEvent)
    requires
        sizes_fit(views(plan.pull_files@)),
        sizes_fit(views(plan.push_files@)),
    ensures
        r.uid == uid,
        r.name == name,
        r.plan == plan,
        r.bytes_in == total_size(views(plan.pull_files@)),
        r.bytes_out == total_size(views(plan.push_files@)),
{
    let bytes_in: i64 = plan.bytes_in();
    let bytes_out: i64 = plan.bytes_out();
    SyncPlanEvent { uid, name, plan, bytes_in, bytes_out }
}

// ---------------------------------------------------------------------------
// The ceremony
// ---------------------------------------------------------------------------

/// The device on the other side.
#[derive(Debug)]
pub struct Partner {
    pub uid: String,
    pub name: String,
    pub platform: String,
}

impl Partner {
    fn copy(&self) -> (r: Self)
        ensures
            r == *self,
    {
        Partner {
            uid: self.uid.clone(),
            name: self.name.clone(),
            platform: self.platform.clone(),
        }
    }
}

/// Why the other side is turned away.
#[derive(Debug, Clone, Copy, PartialEq, Eq, Structural)]
pub enum Refusal {
    KeyDiffers,
    RejectedThere,
}

impl Refusal {
    pub open spec fn text(self) -> Seq<char> {
        match self {
            Refusal::KeyDiffers => "different key from the one you already had for this device"@,
            Refusal::RejectedThere => "rejected on the other device"@,
        }
    }

    /// The reason that is sent.
    pub fn reason(&self) -> (r: &'static str)
        ensures
            r@ == self.text(),
    {
        match self {
            Refusal::KeyDiffers => "different key from the one you already had for this device",
            Refusal::RejectedThere => "rejected on the other device",
        }
    }
}

/// How pairing ended, as it is shown.
#[derive(Debug)]
pub enum Ending {
    Paired,
    RejectedHere,
    RejectedThere,
    /// The other side said why not.
    Refused(String),
    /// The other side shows another key than the one it had.
    KeyChanged,
}

impl Ending {
    pub open spec fn text(self) -> Option<Seq<char>> {
        match self {
            Ending::Paired => None,
            Ending::RejectedHere => Some("rejected on this device"@),
            Ending::RejectedThere => Some("rejected on the other device"@),
            Ending::Refused(reason) => Some(reason@),
            Ending::KeyChanged => Some(
                "this device's key changed - unlink it and pair again if that was you"@,
            ),
        }
    }

    /// What went wrong, if anything did.
    pub fn error(&self) -> (r: Option<String>)
        ensures
            opt_view(r) == self.text(),
    {
        match self {
            Ending::Paired => None,
            Ending::RejectedHere => Some("rejected on this device".to_owned()),
            Ending::RejectedThere => Some("rejected on the other device".to_owned()),
            Ending::Refused(reason) => Some(reason.clone()),
            Ending::KeyChanged => Some(
                "this device's key changed - unlink it and pair again if that was you".to_owned(),
            ),
        }
    }
}

/// Why a session ended badly. Where another message came than the one that was to
/// come, it holds that message.
#[derive(Debug)]
pub enum Failure {
    /// A caller shows another key than the one it had.
    DifferentKey(String),
    /// The device of that name shows another key than the one it had.
    StoredKeyDiffers(String),
    DeviceKeyDiffers,
    NotPairedYet,
    /// The device of that name has no longer this one paired.
    NoLongerPaired(String),
    PeerForgotUs,
    /// The other side said why not.
    Refused(String),
    TokenRejected,
    ExpectedHello(Msg),
    ExpectedPairAck(Msg),
    ExpectedPairResponse(Msg),
    UnexpectedFirst(Msg),
    /// A device that is not paired wants to end the pairing.
    UnpairFromStranger(String),
}

impl Failure {
    pub open spec fn text(self) -> Seq<char> {
        match self {
            Failure::DifferentKey(uid) => "different key for "@ + uid@,
            Failure::StoredKeyDiffers(name) => "the key of "@ + name@
                + " does not match the one you had stored"@,
            Failure::DeviceKeyDiffers => "the device key does not match"@,
            Failure::NotPairedYet => "not paired yet"@,
            Failure::NoLongerPaired(name) => name@ + " no longer has you paired"@,
            Failure::PeerForgotUs => "that device no longer has you paired"@,
            Failure::Refused(reason) => reason@,
            Failure::TokenRejected => "the server rejected the token"@,
            Failure::ExpectedHello(got) => "expected Hello, got "@ + msg_text(got),
            Failure::ExpectedPairAck(got) => "expected PairAck, got "@ + msg_text(got),
            Failure::ExpectedPairResponse(got) => "expected PairResponse, got "@ + msg_text(got),
            Failure::UnexpectedFirst(got) => "unexpected first message: "@ + msg_text(got),
            Failure::UnpairFromStranger(uid) => "unpair from a device that is not paired ("@ + uid@
                + ")"@,
        }
    }

    /// What went wrong, in words.
    pub fn message(&self) -> (r: String)
        ensures
            r@ == self.text(),
    {
        match self {
            Failure::DifferentKey(uid) => join("different key for ", uid.as_str()),
            Failure::StoredKeyDiffers(name) => join3(
                "the key of ",
                name.as_str(),
                " does not match the one you had stored",
            ),
            Failure::DeviceKeyDiffers => "the device key does not match".to_owned(),
            Failure::NotPairedYet => "not paired yet".to_owned(),
            Failure::NoLongerPaired(name) => join(name.as_str(), " no longer has you paired"),
            Failure::PeerForgotUs => "that device no longer has you paired".to_owned(),
            Failure::Refused(reason) => reason.clone(),
            Failure::TokenRejected => "the server rejected the token".to_owned(),
            Failure::ExpectedHello(got) => {
                let text: String = write_msg(got);
                join("expected Hello, got ", text.as_str())
            },
            Failure::ExpectedPairAck(got) => {
                let text: String = write_msg(got);
                join("expected PairAck, got ", text.as_str())
            },
            Failure::ExpectedPairResponse(got) => {
                let text: String = write_msg(got);
                join("expected PairResponse, got ", text.as_str())
            },
            Failure::UnexpectedFirst(got) => {
                let text: String = write_msg(got);
                join("unexpected first message: ", text.as_str())
            },
            Failure::UnpairFromStranger(uid) => join3(
                "unpair from a device that is not paired (",
                uid.as_str(),
                ")",
            ),
        }
    }
}

/// Something to be done. What follows one that fails is not done any more, except
/// after `Refuse` and `SayNotPaired`, which may fail.
#[derive(Debug)]
pub enum Act {
    /// Send who this device is, to be paired.
    RequestPairing,
    /// Show the code and ask a person. For a caller the platform is shown too.
    Ask { peer: Partner, incoming: bool },
    /// Send what was decided here, to the caller.
    Respond(bool),
    /// Send what was decided here, to the called side.
    Acknowledge(bool),
    Refuse(Refusal),
    SayNotPaired,
    /// Send what this device tells of itself.
    SayHello,
    /// Fix the key of the other side.
    Store(Partner),
    /// Store where the other side is called, and show it.
    KeepAddress(Partner),
    /// Take the device out of the paired ones.
    Forget(String),
    /// Take in what the other side told of itself.
    Report { uid: String, name: String, tracks: i64, playlists: i64, clock_ms: i64 },
    /// Show how pairing with that device ended.
    Show { uid: String, name: String, ending: Ending },
    /// Write down, and show, that the device shows another key.
    WarnKey { uid: String, name: String },
    /// Tell that the devices are no longer the same.
    PeersChanged,
    /// Answer what that device asks for.
    Serve(String),
    /// The session with that device stands.
    Ready(String),
    Fail(Failure),
}

/// Where a session between two devices stands.
#[derive(Debug)]
pub enum Talk {
    /// Called; nothing has been heard yet.
    Start,
    /// A person is being asked.
    Deciding { peer: Partner, incoming: bool },
    /// Accepted here; what the caller decided is still to come.
    AwaitAck(Partner),
    /// Accepted here; what the called side decided is still to come.
    AwaitResponse(Partner),
    /// Paired; what the other side tells of itself is still to come.
    AwaitHello(Partner),
    /// Paired already; what the called side tells of itself is still to come.
    AwaitGreeting(Partner),
    Over,
}

pub open spec fn key_refused(uid: String, name: String) -> Seq<Act> {
    seq![
        Act::Refuse(Refusal::KeyDiffers),
        Act::WarnKey { uid, name },
        Act::Fail(Failure::DifferentKey(uid)),
    ]
}

pub open spec fn shown(peer: Partner, ending: Ending) -> Act {
    Act::Show { uid: peer.uid, name: peer.name, ending }
}

/// What a call begins with, by what is known of the called device.
pub open spec fn call_begins(known: Known, peer: Partner) -> (Talk, Seq<Act>) {
    match known {
        Known::KeyMismatch => (
            Talk::Over,
            seq![
                Act::WarnKey { uid: peer.uid, name: peer.name },
                Act::Fail(Failure::StoredKeyDiffers(peer.name)),
            ],
        ),
        Known::Trusted => (Talk::AwaitGreeting(peer), seq![Act::SayHello]),
        Known::Unknown => (
            Talk::Deciding { peer, incoming: false },
            seq![Act::RequestPairing, Act::Ask { peer, incoming: false }],
        ),
    }
}

/// The first message of a caller, by what is known of it.
pub open spec fn first_heard(known: Known, msg: Msg) -> (Talk, Seq<Act>) {
    match msg {
        Msg::PairRequest { uid, name, platform, token: _ } => {
            let peer = Partner { uid, name, platform };
            if known == Known::KeyMismatch {
                (Talk::Over, key_refused(uid, name))
            } else {
                (
                    Talk::Deciding { peer, incoming: true },
                    seq![Act::Ask { peer, incoming: true }],
                )
            }
        },
        Msg::Hello { uid, name, platform: _, tracks, playlists, clock_ms } => match known {
            Known::Trusted => (
                Talk::Over,
                seq![
                    Act::SayHello,
                    Act::Report { uid, name, tracks, playlists, clock_ms },
                    Act::Serve(uid),
                ],
            ),
            Known::KeyMismatch => (Talk::Over, key_refused(uid, name)),
            Known::Unknown => (Talk::Over, seq![Act::SayNotPaired]),
        },
        Msg::Unpair { uid } => if known == Known::Trusted {
            (Talk::Over, seq![Act::Forget(uid), Act::PeersChanged])
        } else {
            (Talk::Over, seq![Act::Fail(Failure::UnpairFromStranger(uid))])
        },
        _ => (Talk::Over, seq![Act::Fail(Failure::UnexpectedFirst(msg))]),
    }
}

/// What a message does to a session.
pub open spec fn heard(talk: Talk, known: Known, msg: Msg) -> (Talk, Seq<Act>) {
    match talk {
        Talk::Start => first_heard(known, msg),
        Talk::AwaitAck(peer) => match msg {
            Msg::PairAck { accepted } => if accepted {
                (
                    Talk::AwaitHello(peer),
                    seq![
                        Act::Store(peer),
                        shown(peer, Ending::Paired),
                        Act::PeersChanged,
                        Act::SayHello,
                    ],
                )
            } else {
                (Talk::Over, seq![shown(peer, Ending::RejectedThere)])
            },
            Msg::Reject { reason } => (Talk::Over, seq![shown(peer, Ending::Refused(reason))]),
            _ => (Talk::Over, seq![Act::Fail(Failure::ExpectedPairAck(msg))]),
        },
        Talk::AwaitResponse(peer) => match msg {
            Msg::PairResponse { accepted } => if accepted {
                (
                    Talk::AwaitHello(peer),
                    seq![
                        Act::Acknowledge(true),
                        Act::Store(peer),
                        shown(peer, Ending::Paired),
                        Act::PeersChanged,
                        Act::SayHello,
                    ],
                )
            } else {
                (Talk::Over, seq![Act::Acknowledge(true), shown(peer, Ending::RejectedThere)])
            },
            Msg::Reject { reason } => (Talk::Over, seq![shown(peer, Ending::Refused(reason))]),
            _ => (Talk::Over, seq![Act::Fail(Failure::ExpectedPairResponse(msg))]),
        },
        Talk::AwaitHello(peer) => match msg {
            Msg::Hello { uid: _, name: _, platform: _, tracks, playlists, clock_ms } => (
                Talk::Over,
                seq![Act::Report { uid: peer.uid, name: peer.name, tracks, playlists, clock_ms }],
            ),
            _ => (Talk::Over, seq![Act::Fail(Failure::ExpectedHello(msg))]),
        },
        Talk::AwaitGreeting(peer) => match msg {
            Msg::Hello { uid, name, platform: _, tracks, playlists, clock_ms } => (
                Talk::Over,
                seq![Act::Report { uid, name, tracks, playlists, clock_ms }],
            ),
            Msg::NotPaired => (
                Talk::Over,
                seq![
                    Act::Forget(peer.uid),
                    Act::PeersChanged,
                    Act::Fail(Failure::NoLongerPaired(peer.name)),
                ],
            ),
            Msg::Reject { reason } => (Talk::Over, seq![Act::Fail(Failure::Refused(reason))]),
            _ => (Talk::Over, seq![Act::Fail(Failure::ExpectedHello(msg))]),
        },
        Talk::Deciding { peer: _, incoming: _ } => (talk, Seq::empty()),
        Talk::Over => (talk, Seq::empty()),
    }
}

/// What the decision of a person does to a session.
pub open spec fn decided(talk: Talk, accepted: bool) -> (Talk, Seq<Act>) {
    match talk {
        Talk::Deciding { peer, incoming: true } => if accepted {
            (Talk::AwaitAck(peer), seq![Act::Respond(true)])
        } else {
            (Talk::Over, seq![Act::Respond(false), shown(peer, Ending::RejectedHere)])
        },
        Talk::Deciding { peer, incoming: false } => if accepted {
            (Talk::AwaitResponse(peer), Seq::empty())
        } else {
            (
                Talk::Over,
                seq![Act::Refuse(Refusal::RejectedThere), shown(peer, Ending::RejectedHere)],
            )
        },
        _ => (talk, Seq::empty()),
    }
}

/// Who a message says it is from, where that has to be looked up.
pub open spec fn sender(msg: Msg) -> Option<String> {
    match msg {
        Msg::PairRequest { uid, name: _, platform: _, token: _ } => Some(uid),
        Msg::Hello { uid, name: _, platform: _, tracks: _, playlists: _, clock_ms: _ } => Some(uid),
        Msg::Unpair { uid } => Some(uid),
        _ => None,
    }
}

/// What is known of the sender of a message, by the key of the session.
pub open spec fn sender_known(l: crate::library::LibraryView, msg: Msg, key: Seq<u8>) -> Known {
    match sender(msg) {
        Some(uid) => known_as(l, uid@, key),
        None => Known::Unknown,
    }
}

fn show(peer: &Partner, ending: Ending) -> (r: Act)
    ensures
        r == shown(*peer, ending),
{
    Act::Show { uid: peer.uid.clone(), name: peer.name.clone(), ending }
}

fn refuse_key(uid: &String, name: &String) -> (r: Vec<Act>)
    ensures
        r@ == key_refused(*uid, *name),
{
    vec![
        Act::Refuse(Refusal::KeyDiffers),
        Act::WarnKey { uid: uid.clone(), name: name.clone() },
        Act::Fail(Failure::DifferentKey(uid.clone())),
    ]
}

fn first_step(known: Known, msg: Msg) -> (r: (Talk, Vec<Act>))
    ensures
        (r.0, r.1@) == first_heard(known, msg),
{
    match msg {
        Msg::PairRequest { uid, name, platform, token: _ } => match known {
            Known::KeyMismatch => (Talk::Over, refuse_key(&uid, &name)),
            _ => {
                let peer: Partner = Partner {
                    uid: uid.clone(),
                    name: name.clone(),
                    platform: platform.clone(),
                };
                let ask: Partner = peer.copy();
                (
                    Talk::Deciding { peer, incoming: true },
                    vec![Act::Ask { peer: ask, incoming: true }],
                )
            },
        },
        Msg::Hello { uid, name, platform: _, tracks, playlists, clock_ms } => match known {
            Known::Trusted => (
                Talk::Over,
                vec![
                    Act::SayHello,
                    Act::Report {
                        uid: uid.clone(),
                        name: name.clone(),
                        tracks,
                        playlists,
                        clock_ms,
                    },
                    Act::Serve(uid.clone()),
                ],
            ),
            Known::KeyMismatch => (Talk::Over, refuse_key(&uid, &name)),
            Known::Unknown => (Talk::Over, vec![Act::SayNotPaired]),
        },
        Msg::Unpair { uid } => match known {
            Known::Trusted => (Talk::Over, vec![Act::Forget(uid.clone()), Act::PeersChanged]),
            _ => (Talk::Over, vec![Act::Fail(Failure::UnpairFromStranger(uid.clone()))]),
        },
        other => (Talk::Over, vec![Act::Fail(Failure::UnexpectedFirst(other))]),
    }
}

fn ack_step(peer: Partner, msg: Msg) -> (r: (Talk, Vec<Act>))
    ensures
        (r.0, r.1@) == heard(Talk::AwaitAck(peer), Known::Unknown, msg),
{
    match msg {
        Msg::PairAck { accepted } => if accepted {
            let acts: Vec<Act> = vec![
                Act::Store(peer.copy()),
                show(&peer, Ending::Paired),
                Act::PeersChanged,
                Act::SayHello,
            ];
            (Talk::AwaitHello(peer), acts)
        } else {
            (Talk::Over, vec![show(&peer, Ending::RejectedThere)])
        },
        Msg::Reject { reason } => (
            Talk::Over,
            vec![show(&peer, Ending::Refused(reason.clone()))],
        ),
        other => (Talk::Over, vec![Act::Fail(Failure::ExpectedPairAck(other))]),
    }
}

fn response_step(peer: Partner, msg: Msg) -> (r: (Talk, Vec<Act>))
    ensures
        (r.0, r.1@) == heard(Talk::AwaitResponse(peer), Known::Unknown, msg),
{
    match msg {
        Msg::PairResponse { accepted } => if accepted {
            let acts: Vec<Act> = vec![
                Act::Acknowledge(true),
                Act::Store(peer.copy()),
                show(&peer, Ending::Paired),
                Act::PeersChanged,
                Act::SayHello,
            ];
            (Talk::AwaitHello(peer), acts)
        } else {
            (Talk::Over, vec![Act::Acknowledge(true), show(&peer, Ending::RejectedThere)])
        },
        Msg::Reject { reason } => (
            Talk::Over,
            vec![show(&peer, Ending::Refused(reason.clone()))],
        ),
        other => (Talk::Over, vec![Act::Fail(Failure::ExpectedPairResponse(other))]),
    }
}

fn greeting_step(peer: Partner, msg: Msg) -> (r: (Talk, Vec<Act>))
    ensures
        (r.0, r.1@) == heard(Talk::AwaitGreeting(peer), Known::Unknown, msg),
{
    match msg {
        Msg::Hello { uid, name, platform: _, tracks, playlists, clock_ms } => (
            Talk::Over,
            vec![
                Act::Report {
                    uid: uid.clone(),
                    name: name.clone(),
                    tracks,
                    playlists,
                    clock_ms,
                },
            ],
        ),
        Msg::NotPaired => (
            Talk::Over,
            vec![
                Act::Forget(peer.uid),
                Act::PeersChanged,
                Act::Fail(Failure::NoLongerPaired(peer.name)),
            ],
        ),
        Msg::Reject { reason } => (
            Talk::Over,
            vec![Act::Fail(Failure::Refused(reason.clone()))],
        ),
        other => (Talk::Over, vec![Act::Fail(Failure::ExpectedHello(other))]),
    }
}

impl Talk {
    /// A session that was called.
    pub fn called() -> (r: Self)
        ensures
            r == Talk::Start,
    {
        Talk::Start
    }

    /// Begins a session with a device that was called and shows that key.
    pub fn call(lib: &Library, peer: Partner, pubkey: &[u8]) -> (r: (Self, Vec<Act>))
        ensures
            (r.0, r.1@) == call_begins(known_as(lib@, peer.uid@, pubkey@), peer),
    {
        match known_state(lib, peer.uid.as_str(), pubkey) {
            Known::KeyMismatch => (
                Talk::Over,
                vec![
                    Act::WarnKey { uid: peer.uid, name: peer.name.clone() },
                    Act::Fail(Failure::StoredKeyDiffers(peer.name)),
                ],
            ),
            Known::Trusted => (Talk::AwaitGreeting(peer), vec![Act::SayHello]),
            Known::Unknown => {
                let ask: Partner = peer.copy();
                (
                    Talk::Deciding { peer, incoming: false },
                    vec![Act::RequestPairing, Act::Ask { peer: ask, incoming: false }],
                )
            },
        }
    }

    /// Takes in a message of the other side, which shows that key.
    pub fn on_message(self, lib: &Library, pubkey: &[u8], msg: Msg) -> (r: (Self, Vec<Act>))
        ensures
            (r.0, r.1@) == heard(self, sender_known(lib@, msg, pubkey@), msg),
    {
        let known: Known = match &msg {
            Msg::PairRequest { uid, name: _, platform: _, token: _ } => known_state(
                lib,
                uid.as_str(),
                pubkey,
            ),
            Msg::Hello { uid, name: _, platform: _, tracks: _, playlists: _, clock_ms: _ } =>
                known_state(lib, uid.as_str(), pubkey),
            Msg::Unpair { uid } => known_state(lib, uid.as_str(), pubkey),
            _ => Known::Unknown,
        };
        match self {
            Talk::Start => first_step(known, msg),
            Talk::AwaitAck(peer) => ack_step(peer, msg),
            Talk::AwaitResponse(peer) => response_step(peer, msg),
            Talk::AwaitGreeting(peer) => greeting_step(peer, msg),
            Talk::AwaitHello(peer) => match msg {
                Msg::Hello { uid: _, name: _, platform: _, tracks, playlists, clock_ms } => (
                    Talk::Over,
                    vec![
                        Act::Report {
                            uid: peer.uid,
                            name: peer.name,
                            tracks,
                            playlists,
                            clock_ms,
                        },
                    ],
                ),
                other => (Talk::Over, vec![Act::Fail(Failure::ExpectedHello(other))]),
            },
            Talk::Deciding { peer, incoming } => (Talk::Deciding { peer, incoming }, Vec::new()),
            Talk::Over => (Talk::Over, Vec::new()),
        }
    }

    /// Takes in what a person decided. Nobody looking at the screen counts as no.
    pub fn on_decision(self, accepted: bool) -> (r: (Self, Vec<Act>))
        ensures
            (r.0, r.1@) == decided(self, accepted),
    {
        match self {
            Talk::Deciding { peer, incoming } => match (incoming, accepted) {
                (true, true) => (Talk::AwaitAck(peer), vec![Act::Respond(true)]),
                (true, false) => (
                    Talk::Over,
                    vec![Act::Respond(false), show(&peer, Ending::RejectedHere)],
                ),
                (false, true) => (Talk::AwaitResponse(peer), Vec::new()),
                (false, false) => (
                    Talk::Over,
                    vec![
                        Act::Refuse(Refusal::RejectedThere),
                        show(&peer, Ending::RejectedHere),
                    ],
                ),
            },
            other => (other, Vec::new()),
        }
    }
}

// ---------------------------------------------------------------------------
// What holds of every session
// ---------------------------------------------------------------------------

/// Something that happens in a session.
pub enum Event {
    Message { known: Known, msg: Msg },
    Decision(bool),
}

pub open spec fn step(talk: Talk, e: Event) -> (Talk, Seq<Act>) {
    match e {
        Event::Message { known, msg } => heard(talk, known, msg),
        Event::Decision(accepted) => decided(talk, accepted),
    }
}

/// Where a session stands after some events, and all that was done for them.
pub open spec fn run(from: Talk, events: Seq<Event>) -> (Talk, Seq<Act>)
    decreases events.len(),
{
    if events.len() == 0 {
        (from, Seq::empty())
    } else {
        let (talk, acts) = run(from, events.drop_last());
        let (next, more) = step(talk, events.last());
        (next, acts + more)
    }
}

pub open spec fn accepted_here(e: Event) -> bool {
    e == Event::Decision(true)
}

/// The other side says that it accepted.
pub open spec fn accepted_there(e: Event) -> bool {
    match e {
        Event::Message { known: _, msg } => msg == (Msg::PairAck { accepted: true }) || msg == (
        Msg::PairResponse { accepted: true }),
        Event::Decision(_) => false,
    }
}

pub open spec fn stores(acts: Seq<Act>) -> bool {
    exists|i: int| 0 <= i < acts.len() && (#[trigger] acts[i]) is Store
}

/// Something of this device's library goes out, or the other side is listened to
/// as a paired device is.
pub open spec fn opens_up(a: Act) -> bool {
    a is SayHello || a is Serve || a is Report || a is Ready
}

/// A session begins as a called one, or as one that calls.
pub open spec fn begins(talk: Talk) -> bool {
    match talk {
        Talk::Start => true,
        Talk::Deciding { peer: _, incoming } => !incoming,
        Talk::AwaitGreeting(_) => true,
        _ => false,
    }
}

/// A trusted device tells of itself.
pub open spec fn trusted_hello(e: Event) -> bool {
    match e {
        Event::Message { known, msg } => known == Known::Trusted && msg is Hello,
        Event::Decision(_) => false,
    }
}

/// A key is fixed only if a person accepted here, and the other side said after
/// that that it accepted there.
pub proof fn pairing_takes_both_sides(from: Talk, events: Seq<Event>)
    requires
        begins(from),
    ensures
        stores(run(from, events).1) ==> exists|i: int, j: int|
            0 <= i < j < events.len() && accepted_here(#[trigger] events[i]) && accepted_there(
                #[trigger] events[j],
            ),
        (run(from, events).0 is AwaitAck || run(from, events).0 is AwaitResponse) ==> exists|i: int|
            0 <= i < events.len() && accepted_here(#[trigger] events[i]),
    decreases events.len(),
{
    if events.len() > 0 {
        let t = events.drop_last();
        let e = events.last();
        pairing_takes_both_sides(from, t);
        let (talk, acts) = run(from, t);
        let (next, more) = step(talk, e);
        assert forall|i: int| 0 <= i < t.len() implies #[trigger] events[i] == t[i] by {}
        if stores(acts + more) {
            let k = choose|k: int| 0 <= k < (acts + more).len() && (#[trigger] (acts + more)[k]) is Store;
            if k < acts.len() {
                assert(acts[k] is Store);
                let (i, j) = choose|i: int, j: int|
                    0 <= i < j < t.len() && accepted_here(#[trigger] t[i]) && accepted_there(
                        #[trigger] t[j],
                    );
                assert(accepted_here(events[i]) && accepted_there(events[j]));
            } else {
                assert(more[k - acts.len()] is Store);
                assert(talk is AwaitAck || talk is AwaitResponse);
                let i = choose|i: int| 0 <= i < t.len() && accepted_here(#[trigger] t[i]);
                assert(accepted_here(events[i]) && accepted_there(events[t.len() as int]));
            }
        }
        if next is AwaitAck || next is AwaitResponse {
            if talk is Deciding {
                assert(accepted_here(events[t.len() as int]));
            } else {
                let i = choose|i: int| 0 <= i < t.len() && accepted_here(#[trigger] t[i]);
                assert(accepted_here(events[i]));
            }
        }
    }
}

/// A called device that does not trust the caller tells it nothing: whatever goes
/// out, or is listened to, comes with a key that was fixed, or after what a trusted
/// device told of itself.
pub proof fn strangers_are_told_nothing(events: Seq<Event>, k: int)
    requires
        0 <= k < run(Talk::Start, events).1.len(),
        opens_up(run(Talk::Start, events).1[k]),
    ensures
        stores(run(Talk::Start, events).1) || exists|i: int|
            0 <= i < events.len() && trusted_hello(#[trigger] events[i]),
    decreases events.len(),
{
    let t = events.drop_last();
    let (talk, acts) = run(Talk::Start, t);
    let (next, more) = step(talk, events.last());
    let all = acts + more;
    assert forall|i: int| 0 <= i < t.len() implies #[trigger] events[i] == t[i] by {}
    if k < acts.len() {
        strangers_are_told_nothing(t, k);
        if stores(acts) {
            let s = choose|s: int| 0 <= s < acts.len() && (#[trigger] acts[s]) is Store;
            assert(all[s] is Store);
        } else {
            let i = choose|i: int| 0 <= i < t.len() && trusted_hello(#[trigger] t[i]);
            assert(events[i] == t[i]);
        }
    } else {
        let a = more[k - acts.len()];
        assert(opens_up(a));
        called_states(t);
        if talk is Start {
            assert(trusted_hello(events[events.len() - 1]));
        } else if talk is AwaitHello {
            let s = choose|s: int| 0 <= s < acts.len() && (#[trigger] acts[s]) is Store;
            assert(all[s] is Store);
        } else {
            assert(talk is AwaitAck);
            assert(more[0] is Store);
            assert(all[acts.len() as int] is Store);
        }
    }
}

/// The states of a called session.
proof fn called_states(events: Seq<Event>)
    ensures
        !(run(Talk::Start, events).0 is AwaitResponse),
        !(run(Talk::Start, events).0 is AwaitGreeting),
        run(Talk::Start, events).0 matches Talk::Deciding { peer: _, incoming } ==> incoming,
        run(Talk::Start, events).0 is AwaitHello ==> stores(run(Talk::Start, events).1),
    decreases events.len(),
{
    if events.len() > 0 {
        let t = events.drop_last();
        called_states(t);
        let (talk, acts) = run(Talk::Start, t);
        let (next, more) = step(talk, events.last());
        let all = acts + more;
        if next is AwaitHello {
            if talk is AwaitHello {
                let s = choose|s: int| 0 <= s < acts.len() && (#[trigger] acts[s]) is Store;
                assert(all[s] is Store);
            } else {
                assert(more[0] is Store);
                assert(all[acts.len() as int] is Store);
            }
        }
    }
}

/// Whoever shows another key than the one a device was paired with gets nothing,
/// whatever it says first and whatever comes after: nothing is stored, forgotten,
/// told or asked.
pub proof fn another_key_gets_nothing(first: Msg, later: Seq<Event>, k: int)
    ensures
        run(Talk::Start, seq![Event::Message { known: Known::KeyMismatch, msg: first }] + later).0
            is Over,
        0 <= k < run(
            Talk::Start,
            seq![Event::Message { known: Known::KeyMismatch, msg: first }] + later,
        ).1.len() ==> ({
            let a = run(
                Talk::Start,
                seq![Event::Message { known: Known::KeyMismatch, msg: first }] + later,
            ).1[k];
            a is Refuse || a is WarnKey || a is Fail
        }),
    decreases later.len(),
{
    let head = seq![Event::Message { known: Known::KeyMismatch, msg: first }];
    let all = head + later;
    if later.len() == 0 {
        assert(all =~= head);
        assert(head.drop_last() =~= Seq::empty());
        assert(run(Talk::Start, head.drop_last()) == (Talk::Start, Seq::<Act>::empty()));
    } else {
        assert(all.drop_last() =~= head + later.drop_last());
        another_key_gets_nothing(first, later.drop_last(), k);
    }
}

// ---------------------------------------------------------------------------
// Servers
// ---------------------------------------------------------------------------

/// Where pairing with a server stands. A server has no screen: a token takes the
/// place of the code.
#[derive(Debug, Clone, Copy, PartialEq, Eq, Structural)]
pub enum Enrolling {
    AwaitResponse,
    AwaitHello,
    Over,
}

/// What a message of the server does.
pub open spec fn server_heard(state: Enrolling, known: Known, msg: Msg) -> (Enrolling, Seq<Act>) {
    match state {
        Enrolling::AwaitResponse => match msg {
            Msg::PairResponse { accepted } => if accepted {
                (Enrolling::AwaitHello, seq![Act::Acknowledge(true)])
            } else {
                (Enrolling::Over, seq![Act::Fail(Failure::TokenRejected)])
            },
            Msg::Reject { reason } => (Enrolling::Over, seq![Act::Fail(Failure::Refused(reason))]),
            _ => (Enrolling::Over, seq![Act::Fail(Failure::ExpectedPairResponse(msg))]),
        },
        Enrolling::AwaitHello => match msg {
            Msg::Hello { uid, name, platform, tracks: _, playlists: _, clock_ms: _ } => {
                let peer = Partner { uid, name, platform };
                if known == Known::KeyMismatch {
                    (
                        Enrolling::Over,
                        seq![
                            Act::WarnKey { uid, name },
                            Act::Fail(Failure::StoredKeyDiffers(name)),
                        ],
                    )
                } else {
                    (
                        Enrolling::Over,
                        seq![
                            Act::SayHello,
                            Act::Store(peer),
                            Act::KeepAddress(peer),
                            Act::PeersChanged,
                            Act::Ready(name),
                        ],
                    )
                }
            },
            Msg::Reject { reason } => (Enrolling::Over, seq![Act::Fail(Failure::Refused(reason))]),
            _ => (Enrolling::Over, seq![Act::Fail(Failure::ExpectedHello(msg))]),
        },
        Enrolling::Over => (Enrolling::Over, Seq::empty()),
    }
}

impl Enrolling {
    /// Begins to pair with a server.
    pub fn begin() -> (r: (Self, Vec<Act>))
        ensures
            r.0 == Enrolling::AwaitResponse,
            r.1@ == seq![Act::RequestPairing],
    {
        (Enrolling::AwaitResponse, vec![Act::RequestPairing])
    }

    /// Takes in a message of the server, which shows that key. Only its last one
    /// says who it is, for it was called by its address: so it is then that its key
    /// is looked at, and before anything is stored.
    pub fn on_message(self, lib: &Library, pubkey: &[u8], msg: Msg) -> (r: (Self, Vec<Act>))
        ensures
            (r.0, r.1@) == server_heard(self, sender_known(lib@, msg, pubkey@), msg),
    {
        match self {
            Enrolling::AwaitResponse => match msg {
                Msg::PairResponse { accepted } => if accepted {
                    (Enrolling::AwaitHello, vec![Act::Acknowledge(true)])
                } else {
                    (Enrolling::Over, vec![Act::Fail(Failure::TokenRejected)])
                },
                Msg::Reject { reason } => (
                    Enrolling::Over,
                    vec![Act::Fail(Failure::Refused(reason.clone()))],
                ),
                other => (Enrolling::Over, vec![Act::Fail(Failure::ExpectedPairResponse(other))]),
            },
            Enrolling::AwaitHello => match msg {
                Msg::Hello { uid, name, platform, tracks: _, playlists: _, clock_ms: _ } => {
                    match known_state(lib, uid.as_str(), pubkey) {
                        Known::KeyMismatch => (
                            Enrolling::Over,
                            vec![
                                Act::WarnKey { uid: uid.clone(), name: name.clone() },
                                Act::Fail(Failure::StoredKeyDiffers(name.clone())),
                            ],
                        ),
                        _ => {
                            let peer: Partner = Partner {
                                uid: uid.clone(),
                                name: name.clone(),
                                platform: platform.clone(),
                            };
                            let again: Partner = peer.copy();
                            (
                                Enrolling::Over,
                                vec![
                                    Act::SayHello,
                                    Act::Store(peer),
                                    Act::KeepAddress(again),
                                    Act::PeersChanged,
                                    Act::Ready(name.clone()),
                                ],
                            )
                        },
                    }
                },
                Msg::Reject { reason } => (
                    Enrolling::Over,
                    vec![Act::Fail(Failure::Refused(reason.clone()))],
                ),
                other => (Enrolling::Over, vec![Act::Fail(Failure::ExpectedHello(other))]),
            },
            Enrolling::Over => (Enrolling::Over, Vec::new()),
        }
    }
}

// ---------------------------------------------------------------------------
// Sessions with paired devices
// ---------------------------------------------------------------------------

/// What a session with a device begins with that is to be paired already.
pub open spec fn session_begins(known: Known) -> Act {
    match known {
        Known::Trusted => Act::SayHello,
        Known::KeyMismatch => Act::Fail(Failure::DeviceKeyDiffers),
        Known::Unknown => Act::Fail(Failure::NotPairedYet),
    }
}

/// Begins a session with a device that is to be paired already and shows that key.
pub fn open_session(lib: &Library, uid: &str, pubkey: &[u8]) -> (r: Act)
    ensures
        r == session_begins(known_as(lib@, uid@, pubkey@)),
{
    match known_state(lib, uid, pubkey) {
        Known::Trusted => Act::SayHello,
        Known::KeyMismatch => Act::Fail(Failure::DeviceKeyDiffers),
        Known::Unknown => Act::Fail(Failure::NotPairedYet),
    }
}

/// Takes in the answer to what this device told of itself. One that no longer
/// knows this device is forgotten too: its key shows that it is really the one.
pub fn session_answered(uid: &String, msg: Msg) -> (r: Vec<Act>)
    ensures
        r@ == match msg {
            Msg::Hello {
                uid: _,
                name: _,
                platform: _,
                tracks: _,
                playlists: _,
                clock_ms: _,
            } => seq![Act::Ready(*uid)],
            Msg::NotPaired => seq![
                Act::Forget(*uid),
                Act::PeersChanged,
                Act::Fail(Failure::PeerForgotUs),
            ],
            _ => seq![Act::Fail(Failure::ExpectedHello(msg))],
        },
{
    match msg {
        Msg::Hello { uid: _, name: _, platform: _, tracks: _, playlists: _, clock_ms: _ } => vec![
            Act::Ready(uid.clone()),
        ],
        Msg::NotPaired => vec![
            Act::Forget(uid.clone()),
            Act::PeersChanged,
            Act::Fail(Failure::PeerForgotUs),
        ],
        other => vec![Act::Fail(Failure::ExpectedHello(other))],
    }
}

} // verus!
