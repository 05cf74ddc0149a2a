//! The entries produced by the text-protocol framer: a fully parsed
//! command, or the trailing bytes of a frame that is not terminated yet.

use vstd::prelude::*;
use vstd::std_specs::cmp::PartialEqSpec;

verus! {

/// A parsed text-protocol command name.
#[derive(Clone, Copy, Debug, PartialEq, Eq, Structural)]
pub enum Message {
    Update,
    Remove,
    Unknown,
}

/// One entry of the framing queue: either a complete, parsed frame, or
/// the bytes of a frame whose terminator has not arrived yet.
#[derive(Debug)]
pub enum Packet {
    Complete(Message),
    Incomplete(Vec<u8>),
}

/// The mathematical value of a [`Packet`]: the byte contents of an
/// incomplete entry are abstracted to a sequence.
pub enum PacketView {
    Complete(Message),
    Incomplete(Seq<u8>),
}

impl View for Packet {
    type V = PacketView;

    open spec fn view(&self) -> PacketView {
        match self {
            Packet::Complete(m) => PacketView::Complete(*m),
            Packet::Incomplete(bytes) => PacketView::Incomplete(bytes@),
        }
    }
}

impl Clone for Packet {
    fn clone(&self) -> (r: Self)
        ensures
            r@ == self@,
    {
        match self {
            Packet::Complete(m) => Packet::Complete(*m),
            Packet::Incomplete(bytes) => {
                let mut copy: Vec<u8> = Vec::new();
                let mut i: usize = 0;
                while i < bytes.len()
                    invariant
                        i <= bytes.len(),
                        copy@ == bytes@.take(i as int),
                    decreases bytes.len() - i,
                {
                    copy.push(bytes[i]);
                    i = i + 1;
                }
                proof {
                    assert(copy@ == bytes@);
                }
                Packet::Incomplete(copy)
            },
        }
    }
}

impl PartialEq for Packet {
    fn eq(&self, other: &Self) -> (r: bool) {
        match self {
            Packet::Complete(a) => match other {
                Packet::Complete(b) => a == b,
                _ => false,
            },
            Packet::Incomplete(a) => match other {
                Packet::Incomplete(b) => {
                if a.len() != b.len() {
                    return false;
                }
                let mut i: usize = 0;
                while i < a.len()
                    invariant
                        i <= a.len(),
                        a.len() == b.len(),
                        self@ == PacketView::Incomplete(a@),
                        other@ == PacketView::Incomplete(b@),
                        forall|j: int| 0 <= j < i ==> a@[j] == b@[j],
                    decreases a.len() - i,
                {
                    if a[i] != b[i] {
                        return false;
                    }
                    i = i + 1;
                }
                proof {
                    assert(a@ =~= b@);
                }
                true
                },
                _ => false,
            },
        }
    }
}

impl vstd::std_specs::cmp::PartialEqSpecImpl for Packet {
    open spec fn obeys_eq_spec() -> bool {
        true
    }

    open spec fn eq_spec(&self, other: &Packet) -> bool {
        self@ == other@
    }
}

} // verus!
