//! The connection handler's compute path: dispatch a command against
//! the store, derive the reply for one decoded frame, and take one
//! step over a byte buffer.  The surrounding loop — reading from and
//! writing to a connection — lives outside the library and hands in
//! plain values: the buffered text and the current monotonic
//! timestamp in milliseconds.

use vstd::prelude::*;

use crate::command::{Command, CommandV};
use crate::frame::{
    fv_encode, msg_of, spec_parse, to_command_v, ErrorsV, Frame, FrameV, ParsedFrame,
};
use crate::store::{sweep_map, Expiry, Store, Value, ValueV};

verus! {

/// The store after a command executes at time `now`, and the reply:
/// `PING` answers `PONG`; `ECHO` answers its argument verbatim; `GET`
/// answers the stored value unless the key is absent or its deadline
/// has passed, in which case it answers null; `SET` binds the key and
/// answers `OK`.
pub open spec fn apply(m: Map<Seq<char>, ValueV>, cmd: CommandV, now: u64) -> (
    Map<Seq<char>, ValueV>,
    FrameV,
) {
    match cmd {
        CommandV::Ping => (m, FrameV::Simple("PONG"@)),
        CommandV::Echo(t) => (m, FrameV::Bulk(t)),
        CommandV::Get(k) => (
            m,
            if m.contains_key(k) && !m[k].expired_at(now) {
                FrameV::Bulk(m[k].value)
            } else {
                FrameV::Null
            },
        ),
        CommandV::SetVal(k, v, e) => (
            m.insert(k, (ValueV { expiry: e, value: v })),
            FrameV::Simple("OK"@),
        ),
    }
}

/// Executes one command against the store at time `now` and returns
/// the reply frame.
pub fn execute(store: &mut Store, cmd: Command, now: u64) -> (r: Frame)
    requires
        old(store).wf(),
    ensures
        final(store).wf(),
        final(store)@ == apply(old(store)@, cmd.cv(), now).0,
        r.fv() == apply(old(store)@, cmd.cv(), now).1,
{
    match cmd {
        Command::Ping => Frame::Simple(String::from_str("PONG")),
        Command::Echo(t) => Frame::Bulk(t),
        Command::Get(k) => {
            match store.get(k.as_str()) {
                Some(v) => {
                    if v.is_expired(now) {
                        Frame::Null
                    } else {
                        Frame::Bulk(v.value.clone())
                    }
                },
                None => Frame::Null,
            }
        },
        Command::SetVal(k, v, e) => {
            store.set(k, Value { expiry: e, value: v });
            Frame::Simple(String::from_str("OK"))
        },
    }
}

/// The store after one frame is handled, and the reply: a frame that
/// interprets as a command is executed; any other is answered with an
/// error frame and leaves the store unchanged.
pub open spec fn response(m: Map<Seq<char>, ValueV>, f: FrameV, now: u64) -> (
    Map<Seq<char>, ValueV>,
    FrameV,
) {
    match to_command_v(f, now) {
        Ok(cmd) => apply(m, cmd, now),
        Err(e) => (m, FrameV::Error(msg_of(e))),
    }
}

/// Handles one decoded frame: interpret, execute, and build the reply;
/// interpretation errors become error replies, and the connection
/// stays open.
pub fn handle_frame(store: &mut Store, frame: &Frame, now: u64) -> (r: Frame)
    requires
        old(store).wf(),
    ensures
        final(store).wf(),
        final(store)@ == response(old(store)@, frame.fv(), now).0,
        r.fv() == response(old(store)@, frame.fv(), now).1,
{
    match frame.to_command(now) {
        Ok(cmd) => execute(store, cmd, now),
        Err(e) => Frame::Error(e.message()),
    }
}

/// Takes one step over the buffered input: decodes at most one frame,
/// handles it, and reports the encoded reply together with how many
/// characters of `input` were consumed.  `None` asks the caller to
/// read more bytes first; a syntax error answers with an error frame
/// and discards the whole buffer.
pub fn process(store: &mut Store, input: &str, now: u64) -> (r: (Option<String>, usize))
    requires
        old(store).wf(),
    ensures
        final(store).wf(),
        (match spec_parse(input@, 0) {
            ParsedFrame::Found(fv, end) => (r.0 matches Some(out) && out@ == fv_encode(
                response(old(store)@, fv, now).1,
            )) && final(store)@ == response(old(store)@, fv, now).0 && r.1 == end,
            ParsedFrame::Incomplete => r.0 is None && r.1 == 0 && final(store)@ == old(
                store,
            )@,
            ParsedFrame::Malformed => (r.0 matches Some(out) && out@ == fv_encode(
                FrameV::Error("error parsing input"@),
            )) && r.1 == input@.len() && final(store)@ == old(store)@,
        }),
{
    let (decoded, consumed) = Frame::decode_prefix(input);
    match decoded {
        Ok(Some(frame)) => {
            let reply = handle_frame(store, &frame, now);
            proof {
                assert(!(reply is Array)) by {
                    match to_command_v(frame.fv(), now) {
                        Ok(cmd) => {
                            assert(reply.fv() == apply(old(store)@, cmd, now).1);
                        },
                        Err(e) => {},
                    }
                }
            }
            (Some(reply.encode()), consumed)
        },
        Ok(None) => (None, 0),
        Err(e) => {
            let reply = Frame::Error(e.message());
            (Some(reply.encode()), input.unicode_len())
        },
    }
}

/// Law: `PING` answers `PONG` and touches nothing.
pub proof fn lemma_ping_pong(m: Map<Seq<char>, ValueV>, now: u64)
    ensures
        apply(m, CommandV::Ping, now) == (m, FrameV::Simple("PONG"@)),
{
}

/// Law: `ECHO` answers its argument verbatim, spaces and all, and
/// touches nothing.
pub proof fn lemma_echo_verbatim(m: Map<Seq<char>, ValueV>, t: Seq<char>, now: u64)
    ensures
        apply(m, CommandV::Echo(t), now) == (m, FrameV::Bulk(t)),
{
}

/// Law: a `SET` with no expiry followed by a `GET` of the same key —
/// immediately or at any later time — answers exactly the value set.
pub proof fn lemma_set_then_get(
    m: Map<Seq<char>, ValueV>,
    k: Seq<char>,
    v: Seq<char>,
    now1: u64,
    now2: u64,
)
    ensures
        apply(apply(m, CommandV::SetVal(k, v, None), now1).0, CommandV::Get(k), now2).1
            == FrameV::Bulk(v),
{
}

/// Law: a `GET` of a key never bound answers null.
pub proof fn lemma_get_unset(m: Map<Seq<char>, ValueV>, k: Seq<char>, now: u64)
    requires
        !m.contains_key(k),
    ensures
        apply(m, CommandV::Get(k), now).1 == FrameV::Null,
{
}

/// Law: after a `SET` whose expiry lasts `d` milliseconds from `now1`,
/// a `GET` answers the value while at most `d` milliseconds have
/// elapsed, and null once more than `d` have.
pub proof fn lemma_set_expiry_get(
    m: Map<Seq<char>, ValueV>,
    k: Seq<char>,
    v: Seq<char>,
    d: u64,
    now1: u64,
    now2: u64,
)
    ensures
        ({
            let e = Some(Expiry { created_at: now1, duration: d });
            let m1 = apply(m, CommandV::SetVal(k, v, e), now1).0;
            apply(m1, CommandV::Get(k), now2).1 == if now2 - now1 > d {
                FrameV::Null
            } else {
                FrameV::Bulk(v)
            }
        }),
{
}

/// Law: two `SET`s of disjoint keys serialize in either order to the
/// same store, and neither update is lost: each key then answers its
/// own value.
pub proof fn lemma_disjoint_sets_serialize(
    m: Map<Seq<char>, ValueV>,
    k1: Seq<char>,
    v1: Seq<char>,
    k2: Seq<char>,
    v2: Seq<char>,
    now: u64,
)
    requires
        k1 != k2,
    ensures
        ({
            let m12 = apply(
                apply(m, CommandV::SetVal(k1, v1, None), now).0,
                CommandV::SetVal(k2, v2, None),
                now,
            ).0;
            let m21 = apply(
                apply(m, CommandV::SetVal(k2, v2, None), now).0,
                CommandV::SetVal(k1, v1, None),
                now,
            ).0;
            m12 == m21 && apply(m12, CommandV::Get(k1), now).1 == FrameV::Bulk(v1) && apply(
                m12,
                CommandV::Get(k2),
                now,
            ).1 == FrameV::Bulk(v2)
        }),
{
    let e1 = (ValueV { expiry: None, value: v1 });
    let e2 = (ValueV { expiry: None, value: v2 });
    assert(m.insert(k1, e1).insert(k2, e2) =~= m.insert(k2, e2).insert(k1, e1));
}

} // verus!

