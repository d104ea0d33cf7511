//! How two devices come to know each other.

use crate::devices::Known;
use crate::pairing::{
    call_begins, decided, heard, server_heard, session_begins, Act, Ending, Enrolling, Failure,
    Partner, Talk,
};
use crate::wire::Msg;
use vstd::prelude::*;

verus! {

/// If both people accept, both devices store each other: the one that called stores the
/// one it called, and the one that was called stores the one that asked, under the uid,
/// the name and the platform it gave.
pub proof fn both_sides_store_each_other(caller: Partner, called: Partner, token: Option<String>)
    ensures
        ({
            let (t1, a1) = call_begins(Known::Unknown, called);
            let (t2, a2) = decided(t1, true);
            let (t3, a3) = heard(t2, Known::Unknown, Msg::PairResponse { accepted: true });
            &&& a1.contains(Act::RequestPairing)
            &&& a1.contains(Act::Ask { peer: called, incoming: false })
            &&& a3.contains(Act::Acknowledge(true))
            &&& a3.contains(Act::Store(called))
            &&& a3.contains(Act::SayHello)
            &&& t3 == Talk::AwaitHello(called)
        }),
        ({
            let asked = Msg::PairRequest {
                uid: caller.uid,
                name: caller.name,
                platform: caller.platform,
                token,
            };
            let (t1, a1) = heard(Talk::Start, Known::Unknown, asked);
            let (t2, a2) = decided(t1, true);
            let (t3, a3) = heard(t2, Known::Unknown, Msg::PairAck { accepted: true });
            &&& a1.contains(Act::Ask { peer: caller, incoming: true })
            &&& a2.contains(Act::Respond(true))
            &&& a3.contains(Act::Store(caller))
            &&& a3.contains(Act::SayHello)
            &&& t3 == Talk::AwaitHello(caller)
        }),
{
    let (t1, a1) = call_begins(Known::Unknown, called);
    let (t2, a2) = decided(t1, true);
    let (t3, a3) = heard(t2, Known::Unknown, Msg::PairResponse { accepted: true });
    assert(a1[0] == Act::RequestPairing);
    assert(a1[1] == (Act::Ask { peer: called, incoming: false }));
    assert(a3[0] == Act::Acknowledge(true));
    assert(a3[1] == Act::Store(called));
    assert(a3[4] == Act::SayHello);
    let asked = Msg::PairRequest {
        uid: caller.uid,
        name: caller.name,
        platform: caller.platform,
        token,
    };
    let (u1, b1) = heard(Talk::Start, Known::Unknown, asked);
    let (u2, b2) = decided(u1, true);
    let (u3, b3) = heard(u2, Known::Unknown, Msg::PairAck { accepted: true });
    assert(b1[0] == (Act::Ask { peer: caller, incoming: true }));
    assert(b2[0] == Act::Respond(true));
    assert(b3[0] == Act::Store(caller));
    assert(b3[3] == Act::SayHello);
}

/// A refusal ends it on either side, and stores nobody: the person here refused, or the
/// one there did, and that is what is shown.
pub proof fn a_refusal_ends_it(peer: Partner, incoming: bool, reason: String)
    ensures
        ({
            let (t, a) = decided(Talk::Deciding { peer, incoming }, false);
            &&& t is Over
            &&& a.contains(
                Act::Show { uid: peer.uid, name: peer.name, ending: Ending::RejectedHere },
            )
            &&& forall|i: int| 0 <= i < a.len() ==> !((#[trigger] a[i]) is Store)
            &&& incoming ==> a.contains(Act::Respond(false))
        }),
        ({
            let (t, a) = heard(
                Talk::AwaitAck(peer),
                Known::Unknown,
                Msg::PairAck { accepted: false },
            );
            &&& t is Over
            &&& a.contains(
                Act::Show { uid: peer.uid, name: peer.name, ending: Ending::RejectedThere },
            )
            &&& forall|i: int| 0 <= i < a.len() ==> !((#[trigger] a[i]) is Store)
        }),
        ({
            let (t, a) = heard(
                Talk::AwaitResponse(peer),
                Known::Unknown,
                Msg::PairResponse { accepted: false },
            );
            &&& t is Over
            &&& a.contains(
                Act::Show { uid: peer.uid, name: peer.name, ending: Ending::RejectedThere },
            )
            &&& forall|i: int| 0 <= i < a.len() ==> !((#[trigger] a[i]) is Store)
        }),
        ({
            let (t, a) = heard(Talk::AwaitAck(peer), Known::Unknown, Msg::Reject { reason });
            &&& t is Over
            &&& a.contains(
                Act::Show { uid: peer.uid, name: peer.name, ending: Ending::Refused(reason) },
            )
        }),
{
    let (t, a) = decided(Talk::Deciding { peer, incoming }, false);
    assert(a[1] == (Act::Show { uid: peer.uid, name: peer.name, ending: Ending::RejectedHere }));
    if incoming {
        assert(a[0] == Act::Respond(false));
    }
    let b = heard(Talk::AwaitAck(peer), Known::Unknown, Msg::PairAck { accepted: false }).1;
    assert(b[0] == (Act::Show { uid: peer.uid, name: peer.name, ending: Ending::RejectedThere }));
    let c = heard(
        Talk::AwaitResponse(peer),
        Known::Unknown,
        Msg::PairResponse { accepted: false },
    ).1;
    assert(c[1] == (Act::Show { uid: peer.uid, name: peer.name, ending: Ending::RejectedThere }));
    let d = heard(Talk::AwaitAck(peer), Known::Unknown, Msg::Reject { reason }).1;
    assert(d[0] == (Act::Show { uid: peer.uid, name: peer.name, ending: Ending::Refused(reason) }));
}

/// What a device tells of itself is taken in as it told it: how many tracks, how many
/// playlists, and what its clock says, of the device that tells it.
pub proof fn a_greeting_is_taken_in_as_it_came(
    uid: String,
    name: String,
    platform: String,
    tracks: i64,
    playlists: i64,
    clock_ms: i64,
    peer: Partner,
)
    ensures
        ({
            let hello = Msg::Hello { uid, name, platform, tracks, playlists, clock_ms };
            &&& heard(Talk::Start, Known::Trusted, hello).1.contains(
                Act::Report { uid, name, tracks, playlists, clock_ms },
            )
            &&& heard(Talk::Start, Known::Trusted, hello).1.contains(Act::Serve(uid))
            &&& heard(Talk::Start, Known::Trusted, hello).1.contains(Act::SayHello)
            &&& heard(Talk::AwaitGreeting(peer), Known::Trusted, hello).1.contains(
                Act::Report { uid, name, tracks, playlists, clock_ms },
            )
            &&& heard(Talk::AwaitHello(peer), Known::Unknown, hello).1.contains(
                Act::Report { uid: peer.uid, name: peer.name, tracks, playlists, clock_ms },
            )
            &&& heard(Talk::Start, Known::Unknown, hello).1 == seq![Act::SayNotPaired]
        }),
{
    let hello = Msg::Hello { uid, name, platform, tracks, playlists, clock_ms };
    let a = heard(Talk::Start, Known::Trusted, hello).1;
    assert(a[0] == Act::SayHello);
    assert(a[1] == (Act::Report { uid, name, tracks, playlists, clock_ms }));
    assert(a[2] == Act::Serve(uid));
    let b = heard(Talk::AwaitGreeting(peer), Known::Trusted, hello).1;
    assert(b[0] == (Act::Report { uid, name, tracks, playlists, clock_ms }));
    let c = heard(Talk::AwaitHello(peer), Known::Unknown, hello).1;
    assert(c[0] == (Act::Report { uid: peer.uid, name: peer.name, tracks, playlists, clock_ms }));
}

/// A device that was unpaired there is forgotten here, that one and no other; a stranger
/// can unpair nobody.
pub proof fn being_forgotten_is_mutual(peer: Partner, uid: String)
    ensures
        heard(Talk::AwaitGreeting(peer), Known::Trusted, Msg::NotPaired).1.contains(
            Act::Forget(peer.uid),
        ),
        heard(Talk::Start, Known::Trusted, Msg::Unpair { uid }).1.contains(Act::Forget(uid)),
        forall|known: Known, i: int|
            known != Known::Trusted && 0 <= i < heard(
                Talk::Start,
                known,
                Msg::Unpair { uid },
            ).1.len() ==> !((#[trigger] heard(Talk::Start, known, Msg::Unpair { uid }).1[i])
                is Forget),
{
    let a = heard(Talk::AwaitGreeting(peer), Known::Trusted, Msg::NotPaired).1;
    assert(a[0] == Act::Forget(peer.uid));
    let b = heard(Talk::Start, Known::Trusted, Msg::Unpair { uid }).1;
    assert(b[0] == Act::Forget(uid));
}

/// A server that took the token is stored as it names itself, with its address; one that
/// shows another key than before is not, and one that refused the token is not.
pub proof fn a_server_is_stored_once_it_names_itself(
    uid: String,
    name: String,
    platform: String,
    tracks: i64,
    playlists: i64,
    clock_ms: i64,
)
    ensures
        ({
            let hello = Msg::Hello { uid, name, platform, tracks, playlists, clock_ms };
            let peer = Partner { uid, name, platform };
            let (s1, a1) = server_heard(
                Enrolling::AwaitResponse,
                Known::Unknown,
                Msg::PairResponse { accepted: true },
            );
            let (s2, a2) = server_heard(s1, Known::Unknown, hello);
            let (s3, a3) = server_heard(s1, Known::KeyMismatch, hello);
            let (s4, a4) = server_heard(
                Enrolling::AwaitResponse,
                Known::Unknown,
                Msg::PairResponse { accepted: false },
            );
            &&& a1.contains(Act::Acknowledge(true))
            &&& a2.contains(Act::Store(peer))
            &&& a2.contains(Act::KeepAddress(peer))
            &&& a2.contains(Act::SayHello)
            &&& s3 is Over
            &&& s4 is Over
            &&& forall|i: int| 0 <= i < a3.len() ==> !((#[trigger] a3[i]) is Store)
            &&& forall|i: int| 0 <= i < a4.len() ==> !((#[trigger] a4[i]) is Store)
        }),
{
    let hello = Msg::Hello { uid, name, platform, tracks, playlists, clock_ms };
    let peer = Partner { uid, name, platform };
    let a1 = server_heard(
        Enrolling::AwaitResponse,
        Known::Unknown,
        Msg::PairResponse { accepted: true },
    ).1;
    assert(a1[0] == Act::Acknowledge(true));
    let a2 = server_heard(Enrolling::AwaitHello, Known::Unknown, hello).1;
    assert(a2[0] == Act::SayHello);
    assert(a2[1] == Act::Store(peer));
    assert(a2[2] == Act::KeepAddress(peer));
}

/// A session begins only with a device that is paired and shows the key that it had.
pub proof fn only_a_trusted_device_is_greeted(known: Known)
    ensures
        session_begins(known) is SayHello <==> known == Known::Trusted,
        !(session_begins(known) is SayHello) ==> session_begins(known) is Fail,
        known == Known::KeyMismatch ==> session_begins(known) == Act::Fail(
            Failure::DeviceKeyDiffers,
        ),
{
}

} // verus!
