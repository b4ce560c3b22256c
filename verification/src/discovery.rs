//! LAN discovery beacon: hosts announce their session once a second on
//! a well-known port; listeners keep a list of discovered sessions
//! keyed by the sender's address.
//!
//! The beacon performs no reassembly or ordering work: one datagram
//! carries one announcement. Senders' addresses travel as opaque
//! 64-bit tokens chosen by the transport layer.

use vstd::prelude::*;
use vstd::bytes::{spec_u16_to_le_bytes, spec_u32_to_le_bytes, spec_u16_from_le_bytes,
    spec_u32_from_le_bytes, lemma_auto_spec_u16_to_from_le_bytes,
    lemma_auto_spec_u32_to_from_le_bytes, u16_to_le_bytes, u32_to_le_bytes, u16_from_le_bytes,
    u32_from_le_bytes};
use vstd::slice::{slice_subrange, slice_to_vec};

verus! {

/// Port the discovery beacon broadcasts on.
pub const DISCOVERY_PORT: u16 = 7777;

/// Port the session service listens on.
pub const GAME_PORT: u16 = 5000;

/// An announcement a host broadcasts: its display name, the port its
/// session listens on, and how many players it has.
pub struct SessionAnnouncement {
    pub name: Vec<u8>,
    pub port: u16,
    pub player_count: u32,
}

/// Mathematical value of an announcement.
pub struct AnnouncementView {
    pub name: Seq<u8>,
    pub port: u16,
    pub player_count: u32,
}

impl View for SessionAnnouncement {
    type V = AnnouncementView;

    open spec fn view(&self) -> AnnouncementView {
        AnnouncementView { name: self.name@, port: self.port, player_count: self.player_count }
    }
}

/// A session a listener has discovered, keyed by the sender's address
/// token.
pub struct LanSession {
    pub ip: u64,
    pub port: u16,
    pub name: Vec<u8>,
    pub player_count: u32,
}

/// Mathematical value of a discovered session.
pub struct LanSessionView {
    pub ip: u64,
    pub port: u16,
    pub name: Seq<u8>,
    pub player_count: u32,
}

impl View for LanSession {
    type V = LanSessionView;

    open spec fn view(&self) -> LanSessionView {
        LanSessionView {
            ip: self.ip,
            port: self.port,
            name: self.name@,
            player_count: self.player_count,
        }
    }
}

// ---------------------------------------------------------------------
// Announcement wire format
// ---------------------------------------------------------------------

pub open spec fn spec_announcement_bytes(a: AnnouncementView) -> Seq<u8> {
    spec_u32_to_le_bytes(a.name.len() as u32) + a.name + spec_u16_to_le_bytes(a.port)
        + spec_u32_to_le_bytes(a.player_count)
}

pub open spec fn spec_parse_announcement(d: Seq<u8>) -> Option<AnnouncementView> {
    if d.len() >= 4 {
        let nlen = spec_u32_from_le_bytes(d.subrange(0, 4)) as int;
        if d.len() == 4 + nlen + 6 {
            Some(AnnouncementView {
                name: d.subrange(4, 4 + nlen),
                port: spec_u16_from_le_bytes(d.subrange(4 + nlen, 4 + nlen + 2)),
                player_count: spec_u32_from_le_bytes(d.subrange(4 + nlen + 2, 4 + nlen + 6)),
            })
        } else {
            None
        }
    } else {
        None
    }
}

/// Parsing an encoded announcement gives it back.
pub proof fn lemma_announcement_round_trip(a: AnnouncementView)
    requires
        a.name.len() <= u32::MAX,
    ensures
        spec_parse_announcement(spec_announcement_bytes(a)) == Some(a),
{
    lemma_auto_spec_u16_to_from_le_bytes();
    lemma_auto_spec_u32_to_from_le_bytes();
    let d = spec_announcement_bytes(a);
    let nlen = a.name.len() as int;
    assert(d.subrange(0, 4) =~= spec_u32_to_le_bytes(a.name.len() as u32));
    assert(d.subrange(4, 4 + nlen) =~= a.name);
    assert(d.subrange(4 + nlen, 4 + nlen + 2) =~= spec_u16_to_le_bytes(a.port));
    assert(d.subrange(4 + nlen + 2, 4 + nlen + 6) =~= spec_u32_to_le_bytes(a.player_count));
}

pub fn encode_announcement(a: &SessionAnnouncement) -> (r: Vec<u8>)
    requires
        a.name@.len() <= u32::MAX,
    ensures
        r@ == spec_announcement_bytes(a@),
{
    let mut out: Vec<u8> = Vec::new();
    let mut b = u32_to_le_bytes(a.name.len() as u32);
    out.append(&mut b);
    let mut i: usize = 0;
    while i < a.name.len()
        invariant
            i <= a.name@.len(),
            out@ == spec_u32_to_le_bytes(a.name@.len() as u32) + a.name@.take(i as int),
        decreases a.name@.len() - i,
    {
        out.push(a.name[i]);
        proof {
            assert(a.name@.take(i + 1) =~= a.name@.take(i as int).push(a.name@[i as int]));
            assert(spec_u32_to_le_bytes(a.name@.len() as u32) + a.name@.take(i + 1)
                =~= (spec_u32_to_le_bytes(a.name@.len() as u32) + a.name@.take(i as int)).push(
                a.name@[i as int],
            ));
        }
        i = i + 1;
    }
    proof {
        assert(a.name@.take(a.name@.len() as int) =~= a.name@);
    }
    let mut p = u16_to_le_bytes(a.port);
    out.append(&mut p);
    let mut c = u32_to_le_bytes(a.player_count);
    out.append(&mut c);
    proof {
        assert(out@ =~= spec_announcement_bytes(a@));
    }
    out
}

pub fn decode_announcement(d: &[u8]) -> (r: Option<SessionAnnouncement>)
    ensures
        match r {
            Some(a) => spec_parse_announcement(d@) == Some(a@),
            None => spec_parse_announcement(d@) is None,
        },
{
    if d.len() < 4 {
        return None;
    }
    let nlen = u32_from_le_bytes(slice_subrange(d, 0, 4));
    if d.len() as u64 != 4 + nlen as u64 + 6 {
        return None;
    }
    let base: usize = 4 + nlen as usize;
    let name = slice_to_vec(slice_subrange(d, 4, base));
    let port = u16_from_le_bytes(slice_subrange(d, base, base + 2));
    let player_count = u32_from_le_bytes(slice_subrange(d, base + 2, base + 6));
    proof {
        assert(name@ =~= d@.subrange(4, 4 + nlen as int));
    }
    Some(SessionAnnouncement { name, port, player_count })
}

// ---------------------------------------------------------------------
// The listener's session list
// ---------------------------------------------------------------------

/// Index of the session discovered from this address, or -1.
pub open spec fn session_index(sessions: Seq<LanSessionView>, ip: u64) -> int
    decreases sessions.len(),
{
    if sessions.len() == 0 {
        -1
    } else if sessions[0].ip == ip {
        0
    } else {
        let r = session_index(sessions.skip(1), ip);
        if r < 0 {
            -1
        } else {
            1 + r
        }
    }
}

pub open spec fn has_session(sessions: Seq<LanSessionView>, ip: u64) -> bool {
    session_index(sessions, ip) >= 0
}

pub proof fn lemma_session_index(sessions: Seq<LanSessionView>, ip: u64)
    ensures
        has_session(sessions, ip) ==> {
            &&& 0 <= session_index(sessions, ip) < sessions.len()
            &&& sessions[session_index(sessions, ip)].ip == ip
        },
        !has_session(sessions, ip) ==> forall|i: int|
            0 <= i < sessions.len() ==> (#[trigger] sessions[i]).ip != ip,
    decreases sessions.len(),
{
    if sessions.len() > 0 {
        lemma_session_index(sessions.skip(1), ip);
        if sessions[0].ip != ip {
            if !has_session(sessions, ip) {
                assert forall|i: int| 0 <= i < sessions.len() implies (
                #[trigger] sessions[i]).ip != ip by {
                    if i > 0 {
                        assert(sessions.skip(1)[i - 1].ip != ip);
                    }
                }
            } else {
                assert(sessions[session_index(sessions, ip)] == sessions.skip(1)[session_index(
                    sessions.skip(1),
                    ip,
                )]);
            }
        }
    }
}

/// Fold one received announcement into the discovered-session list: a
/// known sender's entry is refreshed in place (name and player count),
/// a new sender is appended. Entries are never aged out; every beacon
/// refreshes its sender's entry.
pub fn update_sessions(sessions: &mut Vec<LanSession>, src_ip: u64, ann: SessionAnnouncement)
    ensures
        !has_session(old(sessions)@.map_values(|s: LanSession| s@), src_ip) ==> final(sessions)@
            .map_values(|s: LanSession| s@) == old(sessions)@.map_values(
            |s: LanSession| s@,
        ).push(
            LanSessionView {
                ip: src_ip,
                port: ann@.port,
                name: ann@.name,
                player_count: ann@.player_count,
            },
        ),
        has_session(old(sessions)@.map_values(|s: LanSession| s@), src_ip) ==> {
            let k = session_index(old(sessions)@.map_values(|s: LanSession| s@), src_ip);
            final(sessions)@.map_values(|s: LanSession| s@) == old(sessions)@.map_values(
                |s: LanSession| s@,
            ).update(
                k,
                LanSessionView {
                    ip: old(sessions)@.map_values(|s: LanSession| s@)[k].ip,
                    port: old(sessions)@.map_values(|s: LanSession| s@)[k].port,
                    name: ann@.name,
                    player_count: ann@.player_count,
                },
            )
        },
{
    let ghost pre = sessions@.map_values(|s: LanSession| s@);
    proof {
        lemma_session_index(pre, src_ip);
    }
    let mut i: usize = 0;
    while i < sessions.len()
        invariant
            i <= sessions@.len(),
            sessions@ == old(sessions)@,
            pre == sessions@.map_values(|s: LanSession| s@),
            pre == old(sessions)@.map_values(|s: LanSession| s@),
            forall|j: int| 0 <= j < i ==> (#[trigger] pre[j]).ip != src_ip,
        decreases sessions@.len() - i,
    {
        if sessions[i].ip == src_ip {
            proof {
                lemma_session_index_found(pre, src_ip, i as int);
            }
            let port = sessions[i].port;
            sessions[i] = LanSession {
                ip: src_ip,
                port,
                name: ann.name,
                player_count: ann.player_count,
            };
            proof {
                assert(sessions@.map_values(|s: LanSession| s@) =~= pre.update(
                    i as int,
                    LanSessionView {
                        ip: src_ip,
                        port: pre[i as int].port,
                        name: ann@.name,
                        player_count: ann@.player_count,
                    },
                ));
            }
            return;
        }
        i = i + 1;
    }
    sessions.push(LanSession {
        ip: src_ip,
        port: ann.port,
        name: ann.name,
        player_count: ann.player_count,
    });
    proof {
        if has_session(pre, src_ip) {
            assert(pre[session_index(pre, src_ip)].ip == src_ip);
        }
        assert(sessions@.map_values(|s: LanSession| s@) =~= pre.push(
            LanSessionView {
                ip: src_ip,
                port: ann@.port,
                name: ann@.name,
                player_count: ann@.player_count,
            },
        ));
    }
}

pub proof fn lemma_session_index_found(sessions: Seq<LanSessionView>, ip: u64, i: int)
    requires
        0 <= i < sessions.len(),
        sessions[i].ip == ip,
        forall|j: int| 0 <= j < i ==> (#[trigger] sessions[j]).ip != ip,
    ensures
        session_index(sessions, ip) == i,
    decreases sessions.len(),
{
    if i > 0 {
        assert(sessions.skip(1)[i - 1].ip == ip);
        assert forall|j: int| 0 <= j < i - 1 implies (#[trigger] sessions.skip(1)[j]).ip != ip by {
            assert(sessions.skip(1)[j] == sessions[j + 1]);
        }
        lemma_session_index_found(sessions.skip(1), ip, i - 1);
    }
}

} // verus!
