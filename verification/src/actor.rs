//! Per-connection dispatch: the text commands a client may send, their
//! parsing, and the connection's lifecycle as a state machine.  The
//! surrounding socket loop performs the reads and writes; every
//! decision it acts on is made here.

use vstd::prelude::*;
use vstd::utf8::{encode_utf8, valid_utf8};

use crate::decimal::{
    dec_digits, lemma_dec_digits_ascii, parse_i32, parse_u32, spec_parse_i32, spec_parse_u32,
    u64_to_dec,
};
use crate::protocol::{le_val, packet_decodes, MessagePacket, RawPacket};
use crate::store::{Mutation, StoreError, WorldInterface};
use crate::text::{
    all_ascii, ascii_chars, byte_runs, lemma_all_ascii_concat, lemma_ascii_decode,
    lemma_byte_runs_push, lossy_chars, lossy_string,
};
use crate::world::update_bytes;

verus! {

/// The bytes that separate tokens of a command line.
pub open spec fn is_ws(c: u8) -> bool {
    c == 32 || c == 9 || c == 10 || c == 13
}

/// The leading run of non-separator bytes.
pub open spec fn first_word(b: Seq<u8>) -> Seq<u8>
    decreases b.len(),
{
    if b.len() == 0 || is_ws(b[0]) {
        Seq::empty()
    } else {
        seq![b[0]] + first_word(b.skip(1))
    }
}

/// A word is never longer than its run, and never empty when the run
/// starts with a non-separator.
pub proof fn lemma_first_word_len(b: Seq<u8>)
    ensures
        first_word(b).len() <= b.len(),
        b.len() > 0 && !is_ws(b[0]) ==> first_word(b).len() >= 1,
    decreases b.len(),
{
    if b.len() == 0 || is_ws(b[0]) {
    } else {
        lemma_first_word_len(b.skip(1));
    }
}

/// The tokens of a command line: maximal runs of non-separator bytes,
/// in order.
pub open spec fn tokens(b: Seq<u8>) -> Seq<Seq<u8>>
    decreases b.len() via tokens_decreases
{
    if b.len() == 0 {
        Seq::empty()
    } else if is_ws(b[0]) {
        tokens(b.skip(1))
    } else {
        seq![first_word(b)] + tokens(b.skip(first_word(b).len() as int))
    }
}

#[via_fn]
proof fn tokens_decreases(b: Seq<u8>) {
    if b.len() > 0 && !is_ws(b[0]) {
        lemma_first_word_len(b);
    }
}

/// A scan that stopped at `i` on the first separator, or at the end,
/// has read exactly the first word.
pub proof fn lemma_first_word_scan(b: Seq<u8>, i: int)
    requires
        0 <= i <= b.len(),
        forall|j: int| 0 <= j < i ==> !is_ws(#[trigger] b[j]),
        i < b.len() ==> is_ws(b[i]),
    ensures
        first_word(b) == b.take(i),
    decreases b.len(),
{
    if b.len() == 0 {
        assert(b.take(0) =~= Seq::<u8>::empty());
    } else if is_ws(b[0]) {
        assert(i == 0);
        assert(b.take(0) =~= Seq::<u8>::empty());
    } else {
        assert(i > 0);
        let t = b.skip(1);
        assert(forall|j: int| 0 <= j < i - 1 ==> !is_ws(#[trigger] t[j]));
        lemma_first_word_scan(t, i - 1);
        assert(first_word(b) =~= b.take(i));
    }
}

/// Splits a command line into its tokens.
pub fn tokenize(b: &[u8]) -> (r: Vec<Vec<u8>>)
    ensures
        byte_runs(r@) == tokens(b@),
{
    let mut toks: Vec<Vec<u8>> = Vec::new();
    let mut i: usize = 0;
    proof {
        assert(b@.skip(0) =~= b@);
        assert(byte_runs(toks@) =~= Seq::<Seq<u8>>::empty());
        assert(byte_runs(toks@) + tokens(b@) =~= tokens(b@));
    }
    while i < b.len()
        invariant
            i <= b@.len(),
            tokens(b@) == byte_runs(toks@) + tokens(b@.skip(i as int)),
        decreases b@.len() - i,
    {
        let c = b[i];
        if c == 32 || c == 9 || c == 10 || c == 13 {
            proof {
                assert(b@.skip(i as int)[0] == b@[i as int]);
                assert(b@.skip(i as int).skip(1) =~= b@.skip(i + 1));
            }
            i = i + 1;
        } else {
            let ghost run = b@.skip(i as int);
            let start = i;
            let mut w: Vec<u8> = Vec::new();
            while i < b.len() && b[i] != 32 && b[i] != 9 && b[i] != 10 && b[i] != 13
                invariant
                    start <= i <= b@.len(),
                    run == b@.skip(start as int),
                    w@ == b@.subrange(start as int, i as int),
                    forall|j: int| start <= j < i ==> !is_ws(#[trigger] b@[j]),
                decreases b@.len() - i,
            {
                w.push(b[i]);
                proof {
                    assert(b@.subrange(start as int, i + 1) =~= b@.subrange(
                        start as int,
                        i as int,
                    ).push(b@[i as int]));
                }
                i = i + 1;
            }
            proof {
                assert(forall|j: int|
                    0 <= j < i - start ==> run[j] == b@[start + j] && !is_ws(#[trigger] run[j]));
                if i < b@.len() {
                    assert(run[i - start] == b@[i as int]);
                }
                lemma_first_word_scan(run, i - start);
                assert(run.take(i - start) =~= b@.subrange(start as int, i as int));
                assert(first_word(run) == w@);
                assert(!is_ws(run[0]));
                assert(run.skip(w@.len() as int) =~= b@.skip(i as int));
                assert(tokens(run) == seq![w@] + tokens(b@.skip(i as int)));
                lemma_byte_runs_push(toks@, w);
                assert(byte_runs(toks@.push(w)) + tokens(b@.skip(i as int)) =~= byte_runs(toks@)
                    + tokens(run));
            }
            toks.push(w);
        }
    }
    proof {
        assert(b@.skip(b@.len() as int) =~= Seq::<u8>::empty());
        assert(byte_runs(toks@) =~= byte_runs(toks@) + tokens(b@.skip(i as int)));
    }
    toks
}

pub open spec fn ping_keyword() -> Seq<u8> {
    seq![112u8, 105u8, 110u8, 103u8]
}

pub open spec fn move_keyword() -> Seq<u8> {
    seq![109u8, 111u8, 118u8, 101u8]
}

/// The response to a ping.
pub open spec fn pong_bytes() -> Seq<u8> {
    seq![112u8, 111u8, 110u8, 103u8]
}

/// The greeting that hands a client its id.
pub open spec fn init_bytes(id: u32) -> Seq<u8> {
    seq![105u8, 110u8, 105u8, 116u8, 32u8] + dec_digits(id as nat)
}

/// A parsed client command.
#[derive(Clone, Copy, Debug, PartialEq, Eq, Structural)]
pub enum Command {
    /// A liveness probe; answered with `pong`.
    Ping,
    /// A position change intent for one player.
    Move { id: u32, dx: i32, dz: i32 },
    /// A request for the latest committed world state.
    Update,
    /// Anything else: unknown or ill-formed, silently ignored.
    Malformed,
}

/// The command a line of text denotes.  A `move` needs exactly three
/// well-formed numbers; everything unknown or ill-formed is
/// [`Command::Malformed`], never a panic.
pub open spec fn spec_command(b: Seq<u8>) -> Command {
    let ts = tokens(b);
    if ts.len() == 0 {
        Command::Malformed
    } else if ts[0] == ping_keyword() {
        Command::Ping
    } else if ts[0] == move_keyword() {
        if ts.len() == 4 {
            match (spec_parse_u32(ts[1]), spec_parse_i32(ts[2]), spec_parse_i32(ts[3])) {
                (Some(id), Some(dx), Some(dz)) => Command::Move { id, dx, dz },
                _ => Command::Malformed,
            }
        } else {
            Command::Malformed
        }
    } else if ts[0] == crate::parser::update_keyword() {
        Command::Update
    } else {
        Command::Malformed
    }
}

/// Parses one command line.
pub fn parse_command(text: &[u8]) -> (c: Command)
    ensures
        c == spec_command(text@),
{
    let toks = tokenize(text);
    if toks.len() == 0 {
        return Command::Malformed;
    }
    proof {
        assert(byte_runs(toks@)[0] == toks@[0]@);
    }
    let t0 = &toks[0];
    let is_ping = t0.len() == 4 && t0[0] == 112 && t0[1] == 105 && t0[2] == 110 && t0[3] == 103;
    proof {
        if is_ping {
            assert(t0@ =~= ping_keyword());
        } else if t0@ == ping_keyword() {
            assert(t0@.len() == 4);
            assert(t0@[0] == 112 && t0@[1] == 105 && t0@[2] == 110 && t0@[3] == 103);
            assert(false);
        }
    }
    if is_ping {
        return Command::Ping;
    }
    let is_move = t0.len() == 4 && t0[0] == 109 && t0[1] == 111 && t0[2] == 118 && t0[3] == 101;
    proof {
        if is_move {
            assert(t0@ =~= move_keyword());
        } else if t0@ == move_keyword() {
            assert(t0@.len() == 4);
            assert(t0@[0] == 109 && t0@[1] == 111 && t0@[2] == 118 && t0@[3] == 101);
            assert(false);
        }
    }
    if is_move {
        if toks.len() != 4 {
            return Command::Malformed;
        }
        proof {
            assert(byte_runs(toks@)[1] == toks@[1]@);
            assert(byte_runs(toks@)[2] == toks@[2]@);
            assert(byte_runs(toks@)[3] == toks@[3]@);
        }
        let id = parse_u32(toks[1].as_slice());
        let dx = parse_i32(toks[2].as_slice());
        let dz = parse_i32(toks[3].as_slice());
        return match (id, dx, dz) {
            (Some(id), Some(dx), Some(dz)) => Command::Move { id, dx, dz },
            _ => Command::Malformed,
        };
    }
    let is_update = t0.len() == 6 && t0[0] == 117 && t0[1] == 112 && t0[2] == 100 && t0[3] == 97
        && t0[4] == 116 && t0[5] == 101;
    proof {
        if is_update {
            assert(t0@ =~= crate::parser::update_keyword());
        } else if t0@ == crate::parser::update_keyword() {
            assert(t0@.len() == 6);
            assert(t0@[0] == 117 && t0@[1] == 112 && t0@[2] == 100 && t0@[3] == 97 && t0@[4]
                == 116 && t0@[5] == 101);
            assert(false);
        }
    }
    if is_update {
        return Command::Update;
    }
    Command::Malformed
}

/// Builds the `pong` reply.
fn pong_string() -> (r: String)
    ensures
        r@ == ascii_chars(pong_bytes()),
{
    let mut v: Vec<u8> = Vec::new();
    v.push(112u8);
    v.push(111u8);
    v.push(110u8);
    v.push(103u8);
    proof {
        assert(v@ =~= pong_bytes());
        assert(all_ascii(v@));
        lemma_ascii_decode(v@);
    }
    lossy_string(v.as_slice())
}

/// Builds the `init <id>` greeting.
fn init_string(id: u32) -> (r: String)
    ensures
        r@ == ascii_chars(init_bytes(id)),
{
    let mut v: Vec<u8> = Vec::new();
    v.push(105u8);
    v.push(110u8);
    v.push(105u8);
    v.push(116u8);
    v.push(32u8);
    proof {
        assert(v@ =~= seq![105u8, 110u8, 105u8, 116u8, 32u8]);
    }
    let mut d = u64_to_dec(id as u64);
    v.append(&mut d);
    proof {
        assert(v@ == init_bytes(id));
        lemma_dec_digits_ascii(id as nat);
        assert(all_ascii(seq![105u8, 110u8, 105u8, 116u8, 32u8]));
        lemma_all_ascii_concat(seq![105u8, 110u8, 105u8, 116u8, 32u8], dec_digits(id as nat));
        lemma_ascii_decode(v@);
    }
    lossy_string(v.as_slice())
}

/// Carries one parsed command to the store and renders the response
/// the protocol owes for it: `pong` for a ping, the latest committed
/// state for an update, nothing for a move or an ignored line.  A move
/// that the full queue rejects is reported, never silently dropped.
pub fn process_message(store: &mut WorldInterface, msg: &str) -> (r: Result<
    Option<String>,
    StoreError,
>)
    requires
        old(store).wf(),
    ensures
        final(store).wf(),
        final(store).world_view() == old(store).world_view(),
        final(store).spec_capacity() == old(store).spec_capacity(),
        ({
            let cmd = spec_command(encode_utf8(msg@));
            &&& cmd is Ping ==> (r matches Ok(o) && o matches Some(s) && s@ == ascii_chars(
                pong_bytes(),
            ) && final(store).queue_view() == old(store).queue_view())
            &&& cmd is Update ==> (r matches Ok(o) && o matches Some(s) && s@ == ascii_chars(
                update_bytes(old(store).world_view()),
            ) && final(store).queue_view() == old(store).queue_view())
            &&& cmd matches Command::Move { id, dx, dz } ==> {
                &&& old(store).queue_view().len() < old(store).spec_capacity() ==> (r matches Ok(
                    o,
                ) && o is None && final(store).queue_view() == old(store).queue_view().push(
                    Mutation::MovePlayer(id, dx, dz),
                ))
                &&& old(store).queue_view().len() >= old(store).spec_capacity() ==> (r matches Err(
                    e,
                ) && e == StoreError::QueueSaturated && final(store).queue_view() == old(
                    store,
                ).queue_view())
            }
            &&& cmd is Malformed ==> (r matches Ok(o) && o is None && final(store).queue_view()
                == old(store).queue_view())
        }),
{
    let cmd = parse_command(msg.as_bytes());
    match cmd {
        Command::Ping => Ok(Some(pong_string())),
        Command::Update => Ok(Some(store.update_message())),
        Command::Move { id, dx, dz } => {
            match store.move_player(id, dx, dz) {
                Ok(()) => Ok(None),
                Err(e) => Err(e),
            }
        },
        Command::Malformed => Ok(None),
    }
}

/// The lifecycle of one connection.
#[derive(Clone, Copy, Debug, PartialEq, Eq, Structural)]
pub enum ActorState {
    /// A slot is leased; the player and greeting are not yet sent.
    Handshaking,
    /// The read loop is running.
    Active,
    /// The connection is going away, but its player still has to be
    /// withdrawn from the world.
    Closing,
    /// All resources are released.
    Closed,
}

/// One connection's identity and lifecycle state.  The socket itself,
/// and the loop that reads it, live outside; every transition and
/// every dispatch decision is made here.
pub struct ConnectionActor {
    id: u32,
    state: ActorState,
}

impl ConnectionActor {
    pub closed spec fn spec_id(&self) -> u32 {
        self.id
    }

    pub closed spec fn spec_state(&self) -> ActorState {
        self.state
    }

    /// Adopts a freshly leased slot id.
    pub fn new(id: u32) -> (r: Self)
        ensures
            r.spec_id() == id,
            r.spec_state() == ActorState::Handshaking,
    {
        ConnectionActor { id, state: ActorState::Handshaking }
    }

    pub fn id(&self) -> (r: u32)
        ensures
            r == self.spec_id(),
    {
        self.id
    }

    pub fn state(&self) -> (r: ActorState)
        ensures
            r == self.spec_state(),
    {
        self.state
    }

    /// Enters the world: enqueues the player's creation and yields the
    /// `init <id>` greeting to send.  If the queue rejects the write,
    /// the handshake did not happen and may be retried.
    pub fn handshake(&mut self, store: &mut WorldInterface) -> (r: Result<String, StoreError>)
        requires
            old(self).spec_state() == ActorState::Handshaking,
            old(store).wf(),
        ensures
            final(store).wf(),
            final(store).world_view() == old(store).world_view(),
            final(store).spec_capacity() == old(store).spec_capacity(),
            final(self).spec_id() == old(self).spec_id(),
            old(store).queue_view().len() < old(store).spec_capacity() ==> (r matches Ok(s) && s@
                == ascii_chars(init_bytes(old(self).spec_id())) && final(self).spec_state()
                == ActorState::Active && final(store).queue_view() == old(
                store,
            ).queue_view().push(Mutation::AddPlayer(old(self).spec_id()))),
            old(store).queue_view().len() >= old(store).spec_capacity() ==> (r matches Err(e) && e
                == StoreError::QueueSaturated && final(self).spec_state()
                == ActorState::Handshaking && final(store).queue_view() == old(
                store,
            ).queue_view()),
    {
        match store.add_player(self.id) {
            Ok(()) => {
                self.state = ActorState::Active;
                Ok(init_string(self.id))
            },
            Err(e) => Err(e),
        }
    }

    /// Decodes one whole frame and dispatches the command in it.  A
    /// frame that does not parse as a packet, or a packet too short to
    /// carry a timestamp, is dropped and the connection goes on.  A
    /// response echoes the client's timestamp.
    pub fn on_frame(&self, store: &mut WorldInterface, frame: &[u8]) -> (r: Result<
        Option<MessagePacket>,
        StoreError,
    >)
        requires
            self.spec_state() == ActorState::Active,
            old(store).wf(),
        ensures
            final(store).wf(),
            final(store).world_view() == old(store).world_view(),
            final(store).spec_capacity() == old(store).spec_capacity(),
            !frame_carries_message(frame@) ==> (r matches Ok(o) && o is None && final(store).queue_view() == old(store).queue_view()),
            frame_carries_message(frame@) && valid_utf8(frame_payload(frame@).skip(16))
                ==> frame_command(frame@) == spec_command(frame_payload(frame@).skip(16)),
            frame_carries_message(frame@) ==> ({
                let time = frame_time(frame@);
                let cmd = frame_command(frame@);
                &&& cmd is Ping ==> (r matches Ok(o) && o matches Some(m) && m.time == time
                    && m.msg@ == ascii_chars(pong_bytes()) && final(store).queue_view() == old(
                    store,
                ).queue_view())
                &&& cmd is Update ==> (r matches Ok(o) && o matches Some(m) && m.time == time
                    && m.msg@ == ascii_chars(update_bytes(old(store).world_view())) && final(store).queue_view() == old(store).queue_view())
                &&& cmd matches Command::Move { id, dx, dz } ==> {
                    &&& old(store).queue_view().len() < old(store).spec_capacity() ==> (r
                        matches Ok(o) && o is None && final(store).queue_view() == old(
                        store,
                    ).queue_view().push(Mutation::MovePlayer(id, dx, dz)))
                    &&& old(store).queue_view().len() >= old(store).spec_capacity() ==> (r
                        matches Err(e) && e == StoreError::QueueSaturated && final(store).queue_view() == old(store).queue_view())
                }
                &&& cmd is Malformed ==> (r matches Ok(o) && o is None && final(store).queue_view() == old(store).queue_view())
            }),
    {
        let raw = match RawPacket::from_bytes(frame) {
            Ok(raw) => raw,
            Err(_) => {
                return Ok(None);
            },
        };
        let msg = match MessagePacket::from_raw(raw) {
            Ok(msg) => msg,
            Err(_) => {
                return Ok(None);
            },
        };
        let time = msg.time;
        proof {
            if valid_utf8(frame_payload(frame@).skip(16)) {
                vstd::utf8::decode_utf8_encode_utf8(frame_payload(frame@).skip(16));
            }
        }
        match process_message(store, msg.msg.as_str()) {
            Ok(Some(text)) => Ok(Some(MessagePacket::new(time, text.as_str()))),
            Ok(None) => Ok(None),
            Err(e) => Err(e),
        }
    }

    /// Leaves the world: enqueues the player's removal.  Whatever ended
    /// the connection, no player entry may outlive it; if the queue
    /// rejects the write the actor stays closing, to be retried.
    pub fn on_disconnect(&mut self, store: &mut WorldInterface) -> (r: Result<(), StoreError>)
        requires
            old(self).spec_state() == ActorState::Active || old(self).spec_state()
                == ActorState::Closing,
            old(store).wf(),
        ensures
            final(store).wf(),
            final(store).world_view() == old(store).world_view(),
            final(store).spec_capacity() == old(store).spec_capacity(),
            final(self).spec_id() == old(self).spec_id(),
            old(store).queue_view().len() < old(store).spec_capacity() ==> r is Ok && final(self).spec_state() == ActorState::Closed && final(store).queue_view() == old(
                store,
            ).queue_view().push(Mutation::RemovePlayer(old(self).spec_id())),
            old(store).queue_view().len() >= old(store).spec_capacity() ==> (r matches Err(e) && e
                == StoreError::QueueSaturated && final(self).spec_state() == ActorState::Closing
                && final(store).queue_view() == old(store).queue_view()),
    {
        self.state = ActorState::Closing;
        match store.remove_player(self.id) {
            Ok(()) => {
                self.state = ActorState::Closed;
                Ok(())
            },
            Err(e) => Err(e),
        }
    }
}

/// Whether a frame holds a decodable packet whose payload can carry a
/// message.
pub open spec fn frame_carries_message(b: Seq<u8>) -> bool {
    &&& packet_decodes(b)
    &&& frame_payload(b).len() >= 16
}

/// The payload of the packet at the front of a frame.
pub open spec fn frame_payload(b: Seq<u8>) -> Seq<u8> {
    b.subrange(3, vstd::bytes::spec_u16_from_le_bytes(b.take(2)) as int)
}

/// The timestamp carried by a frame.
pub open spec fn frame_time(b: Seq<u8>) -> int {
    le_val(frame_payload(b).take(16))
}

/// The command carried by a frame: its text bytes, decoded with
/// invalid UTF-8 tolerated, then parsed.  On well-formed UTF-8 text
/// this is exactly the command of the raw text bytes; `on_frame`
/// states that as a separate clause.
pub open spec fn frame_command(b: Seq<u8>) -> Command {
    spec_command(encode_utf8(lossy_chars(frame_payload(b).skip(16))))
}

} // verus!
