//! Incremental framer for the newline-delimited text protocol.
//!
//! Bytes arrive in arbitrary chunks.  The parser appends them to a queue
//! of entries: every byte run ending in a newline becomes one complete,
//! parsed frame, and the trailing bytes after the last newline stay
//! queued as a single incomplete entry until their terminator arrives.

use vstd::prelude::*;

use crate::packet::{Message, Packet, PacketView};

verus! {

/// The frame delimiter: a newline byte.
pub open spec fn nl() -> u8 {
    10u8
}

/// The delimiter-terminated lines of a byte stream, in order, each
/// including its final newline.  Bytes after the last newline contribute
/// no line.
pub open spec fn lines(b: Seq<u8>) -> Seq<Seq<u8>>
    decreases b.len(),
{
    if b.len() == 0 {
        Seq::empty()
    } else {
        if b.last() == nl() {
            lines(b.drop_last()) + seq![residue(b.drop_last()).push(nl())]
        } else {
            lines(b.drop_last())
        }
    }
}

/// The bytes of a stream that follow its last newline: the still
/// unterminated tail.
pub open spec fn residue(b: Seq<u8>) -> Seq<u8>
    decreases b.len(),
{
    if b.len() == 0 {
        Seq::empty()
    } else if b.last() == nl() {
        Seq::empty()
    } else {
        residue(b.drop_last()).push(b.last())
    }
}

/// The token of a line that names its command: the bytes before the
/// first space.
pub open spec fn first_token(b: Seq<u8>) -> Seq<u8>
    decreases b.len(),
{
    if b.len() == 0 {
        Seq::empty()
    } else if b[0] == 32u8 {
        Seq::empty()
    } else {
        seq![b[0]] + first_token(b.skip(1))
    }
}

pub open spec fn update_keyword() -> Seq<u8> {
    seq![117u8, 112u8, 100u8, 97u8, 116u8, 101u8]
}

pub open spec fn remove_keyword() -> Seq<u8> {
    seq![114u8, 101u8, 109u8, 111u8, 118u8, 101u8]
}

/// The command named by one newline-terminated line.
pub open spec fn parse_line(line: Seq<u8>) -> Message {
    let tok = first_token(line.drop_last());
    if tok == update_keyword() {
        Message::Update
    } else if tok == remove_keyword() {
        Message::Remove
    } else {
        Message::Unknown
    }
}

/// The commands of all complete lines of a byte stream, in order.
pub open spec fn stream_messages(b: Seq<u8>) -> Seq<Message> {
    lines(b).map_values(|l: Seq<u8>| parse_line(l))
}

/// A byte run holds no delimiter.
pub open spec fn no_nl(b: Seq<u8>) -> bool {
    forall|i: int| 0 <= i < b.len() ==> b[i] != nl()
}

/// A stream without a newline yields no line, and is its own residue.
pub proof fn lemma_no_nl_stream(b: Seq<u8>)
    requires
        no_nl(b),
    ensures
        lines(b) == Seq::<Seq<u8>>::empty(),
        residue(b) == b,
    decreases b.len(),
{
    if b.len() == 0 {
        assert(residue(b) =~= b);
    } else {
        assert(no_nl(b.drop_last()));
        lemma_no_nl_stream(b.drop_last());
        assert(residue(b) =~= b);
    }
}

/// The residue never contains a delimiter.
pub proof fn lemma_residue_no_nl(b: Seq<u8>)
    ensures
        no_nl(residue(b)),
    decreases b.len(),
{
    if b.len() == 0 {
    } else if b.last() == nl() {
    } else {
        lemma_residue_no_nl(b.drop_last());
    }
}

/// Chunking law: feeding a stream in two chunks recovers exactly the
/// lines of the concatenation, in order, and leaves the same residue.
/// The first chunk contributes its own complete lines; the second is
/// parsed as the continuation of the first chunk's residue, never
/// re-split at the chunk boundary.
pub proof fn lemma_stream_split(a: Seq<u8>, b: Seq<u8>)
    ensures
        lines(a + b) == lines(a) + lines(residue(a) + b),
        residue(a + b) == residue(residue(a) + b),
    decreases b.len(),
{
    if b.len() == 0 {
        lemma_residue_no_nl(a);
        lemma_no_nl_stream(residue(a));
        assert(a + b =~= a);
        assert(residue(a) + b =~= residue(a));
        assert(lines(a + b) =~= lines(a) + lines(residue(a) + b));
    } else {
        lemma_stream_split(a, b.drop_last());
        assert((a + b).drop_last() =~= a + b.drop_last());
        assert((residue(a) + b).drop_last() =~= residue(a) + b.drop_last());
        if b.last() == nl() {
            assert(lines(a + b) =~= lines(a) + lines(residue(a) + b));
        } else {
            assert(lines(a + b) =~= lines(a) + lines(residue(a) + b));
            assert(residue(a + b) =~= residue(residue(a) + b));
        }
    }
}

/// The concatenation of a sequence of chunks.
pub open spec fn concat_chunks(cs: Seq<Seq<u8>>) -> Seq<u8>
    decreases cs.len(),
{
    if cs.len() == 0 {
        Seq::empty()
    } else {
        concat_chunks(cs.drop_last()) + cs.last()
    }
}

/// The commands recovered after feeding chunks one by one into a
/// fresh parser: each push contributes the complete lines of the
/// pending tail joined with its chunk, exactly as `push` promises.
pub open spec fn fed_msgs(cs: Seq<Seq<u8>>) -> Seq<Message>
    decreases cs.len(),
{
    if cs.len() == 0 {
        Seq::empty()
    } else {
        fed_msgs(cs.drop_last()) + stream_messages(fed_pending(cs.drop_last()) + cs.last())
    }
}

/// The unfinished tail after feeding chunks one by one.
pub open spec fn fed_pending(cs: Seq<Seq<u8>>) -> Seq<u8>
    decreases cs.len(),
{
    if cs.len() == 0 {
        Seq::empty()
    } else {
        residue(fed_pending(cs.drop_last()) + cs.last())
    }
}

/// However a byte stream is split into chunks, feeding them one after
/// another recovers exactly the commands of the whole stream, in
/// order, and leaves the same unfinished tail as one push of the
/// concatenation.
pub proof fn lemma_chunked_equals_whole(cs: Seq<Seq<u8>>)
    ensures
        fed_msgs(cs) == stream_messages(concat_chunks(cs)),
        fed_pending(cs) == residue(concat_chunks(cs)),
    decreases cs.len(),
{
    if cs.len() == 0 {
        assert(fed_msgs(cs) =~= stream_messages(concat_chunks(cs)));
    } else {
        let prefix = concat_chunks(cs.drop_last());
        lemma_chunked_equals_whole(cs.drop_last());
        lemma_stream_split(prefix, cs.last());
        assert(stream_messages(prefix + cs.last()) =~= stream_messages(prefix) + stream_messages(
            residue(prefix) + cs.last(),
        ));
    }
}

/// The views of a run of packets, in order.
pub open spec fn packet_views(s: Seq<Packet>) -> Seq<PacketView> {
    s.map_values(|p: Packet| p@)
}

/// Every entry of a run is complete.
pub open spec fn all_complete(v: Seq<PacketView>) -> bool {
    forall|i: int| 0 <= i < v.len() ==> (#[trigger] v[i]) is Complete
}

/// The parsed commands of the complete entries of a run, oldest first.
pub open spec fn msgs_of(v: Seq<PacketView>) -> Seq<Message> {
    if v.len() > 0 && !(v.last() is Complete) {
        v.drop_last().map_values(|p: PacketView| p->Complete_0)
    } else {
        v.map_values(|p: PacketView| p->Complete_0)
    }
}

/// The bytes of the trailing incomplete entry of a run, if any.
pub open spec fn pending_of(v: Seq<PacketView>) -> Seq<u8> {
    if v.len() > 0 && !(v.last() is Complete) {
        v.last()->Incomplete_0
    } else {
        Seq::empty()
    }
}

/// Only the last entry of a run may be incomplete, and an incomplete
/// entry holds at least one byte and no delimiter.
pub open spec fn entries_wf(v: Seq<PacketView>) -> bool {
    &&& forall|i: int| 0 <= i < v.len() - 1 ==> (#[trigger] v[i]) is Complete
    &&& (v.len() > 0 && !(v.last() is Complete) ==> {
        let p = v.last()->Incomplete_0;
        p.len() > 0 && no_nl(p)
    })
}

pub proof fn lemma_packet_views_drop_first(s: Seq<Packet>)
    requires
        s.len() > 0,
    ensures
        packet_views(s.drop_first()) == packet_views(s).drop_first(),
{
    assert(packet_views(s.drop_first()) =~= packet_views(s).drop_first());
}

pub proof fn lemma_packet_views_drop_last(s: Seq<Packet>)
    requires
        s.len() > 0,
    ensures
        packet_views(s.drop_last()) == packet_views(s).drop_last(),
{
    assert(packet_views(s.drop_last()) =~= packet_views(s).drop_last());
}

pub proof fn lemma_packet_views_push(s: Seq<Packet>, p: Packet)
    ensures
        packet_views(s.push(p)) == packet_views(s).push(p@),
{
    assert(packet_views(s.push(p)) =~= packet_views(s).push(p@));
}

/// Appending a complete entry to an all-complete run appends its
/// command and leaves nothing pending.
pub proof fn lemma_append_complete(v: Seq<PacketView>, m: Message)
    requires
        all_complete(v),
    ensures
        all_complete(v.push(PacketView::Complete(m))),
        msgs_of(v.push(PacketView::Complete(m))) == msgs_of(v).push(m),
        pending_of(v.push(PacketView::Complete(m))) == Seq::<u8>::empty(),
{
    let w = v.push(PacketView::Complete(m));
    assert(w.last() is Complete);
    assert(msgs_of(w) =~= msgs_of(v).push(m));
}

/// Appending an incomplete entry to an all-complete run leaves the
/// commands unchanged and makes its bytes the pending tail.
pub proof fn lemma_append_incomplete(v: Seq<PacketView>, p: Seq<u8>)
    requires
        all_complete(v),
    ensures
        msgs_of(v.push(PacketView::Incomplete(p))) == msgs_of(v),
        pending_of(v.push(PacketView::Incomplete(p))) == p,
{
    let w = v.push(PacketView::Incomplete(p));
    assert(w.drop_last() =~= v);
    assert(msgs_of(w) =~= msgs_of(v));
}

/// Removing the trailing incomplete entry of a well-formed run leaves
/// an all-complete run with the same commands.
pub proof fn lemma_take_pending(v: Seq<PacketView>)
    requires
        entries_wf(v),
        v.len() > 0,
        !(v.last() is Complete),
    ensures
        all_complete(v.drop_last()),
        msgs_of(v.drop_last()) == msgs_of(v),
        pending_of(v.drop_last()) == Seq::<u8>::empty(),
{
    let w = v.drop_last();
    if w.len() > 0 {
        assert(w.last() == v[v.len() - 2]);
        assert(w.last() is Complete);
    }
    assert(msgs_of(w) =~= msgs_of(v));
}

/// Removing the oldest entry of a run whose front is complete drops the
/// oldest command and keeps the pending tail.
pub proof fn lemma_drop_front(v: Seq<PacketView>)
    requires
        entries_wf(v),
        v.len() > 0,
        v[0] is Complete,
    ensures
        entries_wf(v.drop_first()),
        msgs_of(v) == seq![v[0]->Complete_0] + msgs_of(v.drop_first()),
        pending_of(v.drop_first()) == pending_of(v),
{
    let w = v.drop_first();
    if w.len() > 0 {
        assert(w.last() == v.last());
        if !(v.last() is Complete) {
            assert(w.drop_last() =~= v.drop_last().drop_first());
            assert(msgs_of(v) =~= seq![v[0]->Complete_0] + msgs_of(w));
        } else {
            assert(msgs_of(v) =~= seq![v[0]->Complete_0] + msgs_of(w));
        }
    } else {
        assert(msgs_of(v) =~= seq![v[0]->Complete_0] + msgs_of(w));
    }
}

/// The entry a raw chunk parses to: complete once its delimiter has
/// arrived, incomplete otherwise.
pub open spec fn parse_chunk(b: Seq<u8>) -> PacketView {
    if b.last() == nl() {
        PacketView::Complete(parse_line(b))
    } else {
        PacketView::Incomplete(b)
    }
}

/// A scan that stops at position `i` on the first space, or at the end,
/// has read exactly the command token.
pub proof fn lemma_first_token_scan(b: Seq<u8>, i: int)
    requires
        0 <= i <= b.len(),
        forall|j: int| 0 <= j < i ==> b[j] != 32u8,
        i < b.len() ==> b[i] == 32u8,
    ensures
        first_token(b) == b.take(i),
    decreases b.len(),
{
    if b.len() == 0 {
        assert(b.take(0) =~= Seq::<u8>::empty());
    } else if b[0] == 32u8 {
        assert(i == 0);
        assert(b.take(0) =~= Seq::<u8>::empty());
    } else {
        assert(i > 0);
        let t = b.skip(1);
        assert(forall|j: int| 0 <= j < i - 1 ==> t[j] != 32u8);
        lemma_first_token_scan(t, i - 1);
        assert(first_token(b) =~= b.take(i));
    }
}

/// Queue-shaped parser that separates frames merged into one chunk and
/// reassembles frames sliced across chunks.
pub struct PacketParser {
    entries: std::collections::VecDeque<Packet>,
}

impl PacketParser {
    /// The entries of the queue, oldest first, as mathematical values.
    pub closed spec fn entries_view(&self) -> Seq<PacketView> {
        packet_views(self.entries@)
    }

    /// The parsed commands of the complete entries, oldest first.
    pub open spec fn msgs(&self) -> Seq<Message> {
        msgs_of(self.entries_view())
    }

    /// The bytes of the trailing incomplete entry, if any.
    pub open spec fn pending(&self) -> Seq<u8> {
        pending_of(self.entries_view())
    }

    /// Structural invariant: only the last entry may be incomplete, and
    /// an incomplete entry holds at least one byte and no delimiter.
    pub open spec fn wf(&self) -> bool {
        entries_wf(self.entries_view())
    }

    pub fn new() -> (r: Self)
        ensures
            r.wf(),
            r.entries_view() == Seq::<PacketView>::empty(),
            r.msgs() == Seq::<Message>::empty(),
            r.pending() == Seq::<u8>::empty(),
    {
        let r = PacketParser { entries: std::collections::VecDeque::new() };
        proof {
            assert(r.entries_view() =~= Seq::<PacketView>::empty());
            assert(r.msgs() =~= Seq::<Message>::empty());
        }
        r
    }

    pub fn is_empty(&self) -> (r: bool)
        ensures
            r == (self.entries_view().len() == 0),
    {
        self.entries.len() == 0
    }

    pub fn len(&self) -> (r: usize)
        ensures
            r == self.entries_view().len(),
    {
        self.entries.len()
    }

    pub fn clear(&mut self)
        ensures
            final(self).wf(),
            final(self).entries_view() == Seq::<PacketView>::empty(),
            final(self).msgs() == Seq::<Message>::empty(),
            final(self).pending() == Seq::<u8>::empty(),
    {
        self.entries.clear();
        proof {
            assert(self.entries_view() =~= Seq::<PacketView>::empty());
            assert(self.msgs() =~= Seq::<Message>::empty());
        }
    }

    pub fn front(&self) -> (r: Option<&Packet>)
        ensures
            match r {
                Some(p) => self.entries_view().len() > 0 && p@ == self.entries_view()[0],
                None => self.entries_view().len() == 0,
            },
    {
        if self.entries.len() == 0 {
            None
        } else {
            Some(&self.entries[0])
        }
    }

    pub fn back(&self) -> (r: Option<&Packet>)
        ensures
            match r {
                Some(p) => self.entries_view().len() > 0 && p@ == self.entries_view().last(),
                None => self.entries_view().len() == 0,
            },
    {
        if self.entries.len() == 0 {
            None
        } else {
            Some(&self.entries[self.entries.len() - 1])
        }
    }

    /// Appends newly received bytes.  Every delimiter completes one
    /// frame: the concatenation of the pending bytes and the new data is
    /// split afresh, so a frame sliced across chunks is reassembled and
    /// never re-split at an old chunk boundary.
    pub fn push(&mut self, data: &[u8])
        requires
            old(self).wf(),
        ensures
            final(self).wf(),
            final(self).msgs() == old(self).msgs() + stream_messages(old(self).pending() + data@),
            final(self).pending() == residue(old(self).pending() + data@),
    {
        let ghost old_pending = self.pending();
        let ghost old_msgs = self.msgs();
        let ghost full = old_pending + data@;
        let ghost plen = old_pending.len() as int;

        proof {
            assert(no_nl(old_pending));
        }

        if data.len() == 0 {
            proof {
                lemma_no_nl_stream(old_pending);
                assert(full =~= old_pending);
                assert(stream_messages(full) =~= Seq::<Message>::empty());
                assert(old_msgs + stream_messages(full) =~= old_msgs);
            }
            return;
        }

        // Reclaim the pending bytes, leaving only complete entries queued.
        let mut cur: Vec<u8> = Vec::new();
        let n = self.entries.len();
        let mut has_pending = false;
        if n > 0 {
            match &self.entries[n - 1] {
                Packet::Incomplete(_) => {
                    has_pending = true;
                },
                _ => {},
            }
        }
        if has_pending {
            proof {
                lemma_take_pending(self.entries_view());
                lemma_packet_views_drop_last(self.entries@);
            }
            match self.entries.pop_back() {
                Some(Packet::Incomplete(bytes)) => {
                    cur = bytes;
                },
                _ => {},
            }
        }

        proof {
            assert(all_complete(self.entries_view()));
            assert(msgs_of(self.entries_view()) == old_msgs);
            assert(cur@ == old_pending);
            assert(full.take(plen) =~= old_pending);
            lemma_no_nl_stream(old_pending);
            assert(stream_messages(full.take(plen)) =~= Seq::<Message>::empty());
            assert(old_msgs + stream_messages(full.take(plen)) =~= old_msgs);
        }

        let mut k: usize = 0;
        while k < data.len()
            invariant
                k <= data.len(),
                old_pending == old(self).pending(),
                old_msgs == old(self).msgs(),
                full == old_pending + data@,
                plen == old_pending.len() as int,
                all_complete(self.entries_view()),
                msgs_of(self.entries_view()) == old_msgs + stream_messages(full.take(plen + k)),
                cur@ == residue(full.take(plen + k)),
            decreases data.len() - k,
        {
            let x = data[k];
            let ghost pre = full.take(plen + k);
            cur.push(x);
            proof {
                assert(full[plen + k] == data@[k as int]);
                assert(full.take(plen + k + 1) =~= pre.push(x));
                assert(pre.push(x).drop_last() =~= pre);
            }
            if x == 10u8 {
                let ghost v = self.entries_view();
                let entry = Self::parse(cur);
                cur = Vec::new();
                proof {
                    let m = parse_line(residue(pre).push(nl()));
                    assert(entry@ == PacketView::Complete(m));
                    lemma_append_complete(v, m);
                    lemma_packet_views_push(self.entries@, entry);
                    assert(lines(pre.push(x)) == lines(pre) + seq![residue(pre).push(nl())]);
                    assert(stream_messages(pre.push(x)) =~= stream_messages(pre).push(m));
                    assert(old_msgs + stream_messages(pre.push(x)) =~= (old_msgs
                        + stream_messages(pre)).push(m));
                }
                self.entries.push_back(entry);
            } else {
                proof {
                    assert(lines(pre.push(x)) == lines(pre));
                    assert(stream_messages(pre.push(x)) =~= stream_messages(pre));
                    assert(residue(pre.push(x)) == residue(pre).push(x));
                }
            }
            k = k + 1;
        }

        proof {
            assert(full.take(plen + data@.len() as int) =~= full);
            lemma_residue_no_nl(full);
        }

        if cur.len() > 0 {
            proof {
                lemma_append_incomplete(self.entries_view(), cur@);
                lemma_packet_views_push(self.entries@, Packet::Incomplete(cur));
            }
            self.entries.push_back(Packet::Incomplete(cur));
        }
    }

    /// Returns the oldest complete frame, in arrival order.  A single
    /// still-incomplete entry is never surfaced: it is merely a frame
    /// whose terminator has not arrived.  A non-final incomplete entry
    /// would be corrupt and would have to be discarded, but entries
    /// are only ever appended by `push`, which keeps at most one
    /// incomplete entry and keeps it last, so that state cannot arise
    /// here.
    pub fn pop(&mut self) -> (r: Option<Packet>)
        requires
            old(self).wf(),
        ensures
            final(self).wf(),
            final(self).pending() == old(self).pending(),
            old(self).msgs().len() > 0 ==> {
                &&& r == Some(Packet::Complete(old(self).msgs()[0]))
                &&& final(self).msgs() == old(self).msgs().drop_first()
            },
            old(self).msgs().len() == 0 ==> r is None && final(self).msgs() == old(self).msgs(),
    {
        let n = self.entries.len();
        if n == 1 {
            match &self.entries[0] {
                Packet::Incomplete(_) => {
                    proof {
                        assert(self.msgs() =~= Seq::<Message>::empty());
                    }
                    return None;
                },
                _ => {},
            }
        }
        if n == 0 {
            proof {
                assert(self.msgs() =~= Seq::<Message>::empty());
            }
            return None;
        }
        proof {
            assert(self.entries_view()[0] is Complete);
            lemma_drop_front(self.entries_view());
            lemma_packet_views_drop_first(self.entries@);
        }
        let ghost v = self.entries_view();
        match self.entries.pop_front() {
            Some(Packet::Complete(m)) => {
                proof {
                    assert(v[0] == PacketView::Complete(m));
                    assert(msgs_of(v)[0] == m);
                    assert(msgs_of(v).drop_first() =~= msgs_of(self.entries_view()));
                }
                Some(Packet::Complete(m))
            },
            _ => {
                // Unreachable: the front entry is complete.
                None
            },
        }
    }

    /// Parses one raw chunk into a queue entry.  A chunk ending in the
    /// delimiter is a complete line; its command is the token before the
    /// first space.
    fn parse(data: Vec<u8>) -> (r: Packet)
        requires
            data@.len() > 0,
        ensures
            r@ == parse_chunk(data@),
    {
        let n = data.len();
        if data[n - 1] != 10u8 {
            return Packet::Incomplete(data);
        }
        let content_len = n - 1;
        let mut i: usize = 0;
        while i < content_len && data[i] != 32u8
            invariant
                0 <= i <= content_len,
                content_len == data@.len() - 1,
                forall|j: int| 0 <= j < i ==> data@[j] != 32u8,
            decreases content_len - i,
        {
            i = i + 1;
        }
        let ghost content = data@.drop_last();
        proof {
            assert(content =~= data@.take(content_len as int));
            assert(forall|j: int| 0 <= j < i ==> content[j] != 32u8);
            lemma_first_token_scan(content, i as int);
        }
        let is_update = i == 6 && data[0] == 117u8 && data[1] == 112u8 && data[2] == 100u8
            && data[3] == 97u8 && data[4] == 116u8 && data[5] == 101u8;
        if is_update {
            proof {
                assert(first_token(content) =~= update_keyword());
            }
            return Packet::Complete(Message::Update);
        }
        let is_remove = i == 6 && data[0] == 114u8 && data[1] == 101u8 && data[2] == 109u8
            && data[3] == 111u8 && data[4] == 118u8 && data[5] == 101u8;
        if is_remove {
            proof {
                assert(first_token(content) =~= remove_keyword());
                assert(first_token(content) != update_keyword());
            }
            return Packet::Complete(Message::Remove);
        }
        proof {
            let tok = first_token(content);
            assert(tok == content.take(i as int));
            if tok == update_keyword() {
                assert(tok.len() == 6);
                assert(i == 6);
                assert(content[0] == tok[0] && content[1] == tok[1] && content[2] == tok[2]
                    && content[3] == tok[3] && content[4] == tok[4] && content[5] == tok[5]);
                assert(false);
            }
            if tok == remove_keyword() {
                assert(tok.len() == 6);
                assert(i == 6);
                assert(content[0] == tok[0] && content[1] == tok[1] && content[2] == tok[2]
                    && content[3] == tok[3] && content[4] == tok[4] && content[5] == tok[5]);
                assert(false);
            }
        }
        Packet::Complete(Message::Unknown)
    }

    /// The queued entries, oldest first, copied out for inspection.
    pub fn iter(&self) -> (r: Vec<Packet>)
        ensures
            packet_views(r@) == self.entries_view(),
    {
        let mut r: Vec<Packet> = Vec::new();
        let mut i: usize = 0;
        while i < self.entries.len()
            invariant
                i <= self.entries.len(),
                r@.len() == i as int,
                forall|j: int| 0 <= j < i ==> (#[trigger] r@[j])@ == self.entries_view()[j],
            decreases self.entries.len() - i,
        {
            let p = self.entries[i].clone();
            proof {
                assert(p@ == self.entries_view()[i as int]);
            }
            r.push(p);
            i = i + 1;
        }
        proof {
            assert(packet_views(r@) =~= self.entries_view());
        }
        r
    }
}

} // verus!
