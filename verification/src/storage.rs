//! Log and segment bookkeeping.
//!
//! A `Segment` tracks one on-disk file: its index, its byte size, and — in
//! ghost form — the bytes the file holds. A `Log` holds the single active
//! segment and decides when an append must roll over to a fresh one.
//!
//! The file handles themselves stay with the caller, which is expected to
//! serialize every append and read through one exclusion lock, and to drive
//! each append as: ask `needs_rollover`; if so, create the next segment file
//! and `install_segment`; write the encoded frame to the file; and only after
//! the write has reached stable storage, record it with `append`. A failed
//! write is simply not recorded, so the size never runs ahead of the file.

use crate::codec::{frame, frames, frames_len, parse, MAX_MESSAGE_LEN};
use crate::codec;
use vstd::prelude::*;
use vstd::string::StringExecFns;

verus! {

/// Bytes a segment may reach before the next append rolls over to a new one.
pub const MAX_SEGMENT_SIZE: u64 = 10 * 1024 * 1024;

/// Bookkeeping for one segment file.
pub struct Segment {
    /// Index of this segment within its log; encoded in the file name.
    pub index: usize,
    /// Bytes the file holds, kept in step with every recorded write.
    pub size: u64,
    /// Bytes the file already held when this handle opened it.
    pub base: Ghost<Seq<u8>>,
    /// Payloads recorded through this handle, in write order.
    pub appended: Ghost<Seq<Seq<u8>>>,
}

impl Segment {
    /// All bytes the segment file holds: what was there at open, then the
    /// frames of every payload recorded since.
    pub open spec fn content(self) -> Seq<u8> {
        self.base@ + frames(self.appended@)
    }

    /// The size matches the file, every recorded payload fits a frame, and a
    /// segment never outgrows the bound by more than one frame: the rollover
    /// check runs before each write.
    pub open spec fn wf(self) -> bool {
        &&& self.size == self.content().len()
        &&& self.size <= MAX_SEGMENT_SIZE + 4 + MAX_MESSAGE_LEN
        &&& forall|i: int|
            0 <= i < self.appended@.len() ==> #[trigger] self.appended@[i].len()
                <= MAX_MESSAGE_LEN
    }

    /// Whether a frame of `msg_len` payload bytes may still be recorded
    /// without the size outgrowing the bound by more than that one frame.
    pub open spec fn room_for(self, msg_len: nat) -> bool {
        self.size + 4 + msg_len <= MAX_SEGMENT_SIZE + 4 + MAX_MESSAGE_LEN
    }

    /// Open the bookkeeping for segment `index`, whose file already holds
    /// `existing_size` bytes. A segment left by an earlier run resumes at its
    /// true size, so later appends land after the bytes already there.
    pub fn new(index: usize, existing_size: u64) -> (s: Segment)
        requires
            existing_size <= MAX_SEGMENT_SIZE + 4 + MAX_MESSAGE_LEN,
        ensures
            s.wf(),
            s.index == index,
            s.size == existing_size,
            s.base@.len() == existing_size,
            s.appended@ == Seq::<Seq<u8>>::empty(),
    {
        proof {
            let w = Seq::new(existing_size as nat, |i: int| 0u8);
            assert(w.len() == existing_size);
            assert(exists|c: Seq<u8>| c.len() == existing_size);
        }
        let ghost base = choose|c: Seq<u8>| c.len() == existing_size;
        let s = Segment { index, size: existing_size, base: Ghost(base), appended: Ghost(
            Seq::empty(),
        ) };
        proof {
            assert(s.content() =~= base);
        }
        s
    }

    /// Record that the frame of `msg` was written in full to the file, and
    /// return the byte offset at which it began: the size before this write.
    pub fn append(&mut self, msg: &[u8]) -> (offset: u64)
        requires
            old(self).wf(),
            msg@.len() <= MAX_MESSAGE_LEN,
            old(self).room_for(msg@.len()),
        ensures
            final(self).wf(),
            offset == old(self).size,
            offset == old(self).content().len(),
            final(self).index == old(self).index,
            final(self).base == old(self).base,
            final(self).size == old(self).size + 4 + msg@.len(),
            final(self).appended@ == old(self).appended@.push(msg@),
            final(self).content() == old(self).content() + frame(msg@),
    {
        let offset = self.size;
        self.size = self.size + 4 + (msg.len() as u64);
        proof {
            codec::lemma_frames_push(self.appended@, msg@);
        }
        self.appended = Ghost(self.appended@.push(msg@));
        proof {
            assert(self.content() =~= old(self).content() + frame(msg@));
        }
        offset
    }

    /// Decode every complete frame of `data`, the bytes read back from this
    /// segment's file, in write order. An incomplete trailing frame is
    /// dropped without error. Handed the bytes of a segment whose file
    /// started empty, it returns exactly the recorded payloads.
    pub fn read_all(&self, data: &[u8]) -> (msgs: Vec<Vec<u8>>)
        ensures
            msgs.deep_view() == parse(data@),
            self.wf() && self.base@.len() == 0 && data@ == self.content() ==> msgs.deep_view()
                == self.appended@,
    {
        proof {
            if self.wf() && self.base@.len() == 0 {
                lemma_fresh_segment_round_trip(*self);
            }
        }
        codec::decode_frames(data)
    }
}

/// A segment whose file started empty holds exactly the frames of what was
/// recorded, so decoding its bytes gives back those payloads, in order.
pub proof fn lemma_fresh_segment_round_trip(s: Segment)
    requires
        s.wf(),
        s.base@.len() == 0,
    ensures
        parse(s.content()) == s.appended@,
{
    assert(s.content() =~= frames(s.appended@));
    codec::lemma_round_trip(s.appended@);
}

/// Offset arithmetic: in a segment whose file started empty, the next append
/// lands at the sum of `4 + len` over every payload already recorded — so
/// the k-th of its appends returned that sum over the k payloads before it.
pub proof fn lemma_segment_offsets(s: Segment)
    requires
        s.wf(),
        s.base@.len() == 0,
    ensures
        s.size == frames_len(s.appended@),
{
    assert(s.content() =~= frames(s.appended@));
    codec::lemma_offset_arithmetic(s.appended@);
}

/// The whole log: the one segment that accepts appends. Rollover replaces it
/// and gives the replacement the next index, never reusing one.
pub struct Log {
    /// The active segment; all appends and reads go to it.
    pub active: Segment,
}

impl Log {
    /// The log is as well formed as its active segment.
    pub open spec fn wf(self) -> bool {
        self.active.wf()
    }

    /// Open a log whose first segment file, index 0, already holds
    /// `existing_size` bytes — 0 for a fresh directory, or the surviving size
    /// from an earlier run, which later appends must not disturb.
    pub fn open(existing_size: u64) -> (log: Log)
        requires
            existing_size <= MAX_SEGMENT_SIZE + 4 + MAX_MESSAGE_LEN,
        ensures
            log.wf(),
            log.active.index == 0,
            log.active.size == existing_size,
            log.active.base@.len() == existing_size,
            log.active.appended@ == Seq::<Seq<u8>>::empty(),
    {
        Log { active: Segment::new(0, existing_size) }
    }

    /// Decide rollover for a payload of `msg` bytes: only a frame that would
    /// push the active segment strictly past the bound triggers it; one that
    /// lands exactly on the bound does not.
    pub fn needs_rollover(&self, msg: &[u8]) -> (roll: bool)
        requires
            self.wf(),
            msg@.len() <= MAX_MESSAGE_LEN,
        ensures
            roll == (self.active.size + 4 + msg@.len() > MAX_SEGMENT_SIZE),
            !roll ==> self.active.room_for(msg@.len()),
    {
        self.active.size + 4 + (msg.len() as u64) > MAX_SEGMENT_SIZE
    }

    /// Make the next segment active. The caller has created its file — named
    /// `segment_file_name` of the returned index — which holds
    /// `existing_size` bytes: 0 unless a file of that name already existed.
    /// The replaced segment's file stays on disk, untouched from here on.
    pub fn install_segment(&mut self, existing_size: u64) -> (index: usize)
        requires
            old(self).wf(),
            old(self).active.index < usize::MAX,
            existing_size <= MAX_SEGMENT_SIZE + 4 + MAX_MESSAGE_LEN,
        ensures
            final(self).wf(),
            index == old(self).active.index + 1,
            final(self).active.index == index,
            final(self).active.size == existing_size,
            final(self).active.base@.len() == existing_size,
            final(self).active.appended@ == Seq::<Seq<u8>>::empty(),
    {
        let index = self.active.index + 1;
        self.active = Segment::new(index, existing_size);
        index
    }

    /// Record a write to the active segment; see `Segment::append`.
    pub fn append(&mut self, msg: &[u8]) -> (offset: u64)
        requires
            old(self).wf(),
            msg@.len() <= MAX_MESSAGE_LEN,
            old(self).active.room_for(msg@.len()),
        ensures
            final(self).wf(),
            offset == old(self).active.size,
            offset == old(self).active.content().len(),
            final(self).active.index == old(self).active.index,
            final(self).active.base == old(self).active.base,
            final(self).active.size == old(self).active.size + 4 + msg@.len(),
            final(self).active.appended@ == old(self).active.appended@.push(msg@),
            final(self).active.content() == old(self).active.content() + frame(msg@),
    {
        self.active.append(msg)
    }

    /// Decode the active segment's file; see `Segment::read_all`. Only the
    /// active segment is visible here: rolled-over files stay on disk but
    /// are not traversed.
    pub fn read_all(&self, data: &[u8]) -> (msgs: Vec<Vec<u8>>)
        ensures
            msgs.deep_view() == parse(data@),
            self.wf() && self.active.base@.len() == 0 && data@ == self.active.content()
                ==> msgs.deep_view() == self.active.appended@,
    {
        self.active.read_all(data)
    }
}

/// The decimal digits of `n`, most significant first, no leading zeros.
pub open spec fn spec_decimal(n: nat) -> Seq<char>
    decreases n,
{
    if n < 10 {
        seq![digit_char(n)]
    } else {
        spec_decimal(n / 10) + seq![digit_char(n % 10)]
    }
}

/// The character of one decimal digit.
pub open spec fn digit_char(d: nat) -> char
    recommends
        d < 10,
{
    if d == 0 {
        '0'
    } else if d == 1 {
        '1'
    } else if d == 2 {
        '2'
    } else if d == 3 {
        '3'
    } else if d == 4 {
        '4'
    } else if d == 5 {
        '5'
    } else if d == 6 {
        '6'
    } else if d == 7 {
        '7'
    } else if d == 8 {
        '8'
    } else {
        '9'
    }
}

/// The zeros that pad `n`'s digits out to four places.
pub open spec fn spec_zero_pad(n: nat) -> Seq<char> {
    if n < 10 {
        seq!['0', '0', '0']
    } else if n < 100 {
        seq!['0', '0']
    } else if n < 1000 {
        seq!['0']
    } else {
        Seq::empty()
    }
}

/// The file name of segment `index`: its index in decimal, zero-padded to at
/// least four digits, between a fixed stem and suffix.
pub open spec fn spec_segment_file_name(index: nat) -> Seq<char> {
    "segment-"@ + spec_zero_pad(index) + spec_decimal(index) + ".log"@
}

/// Append one digit character.
fn push_digit(s: &mut String, d: u64)
    requires
        d < 10,
    ensures
        final(s)@ == old(s)@ + seq![digit_char(d as nat)],
{
    if d == 0 {
        s.append("0");
        proof {
            reveal_strlit("0");
            assert(old(s)@ + "0"@ =~= old(s)@ + seq![digit_char(d as nat)]);
        }
    } else if d == 1 {
        s.append("1");
        proof {
            reveal_strlit("1");
            assert(old(s)@ + "1"@ =~= old(s)@ + seq![digit_char(d as nat)]);
        }
    } else if d == 2 {
        s.append("2");
        proof {
            reveal_strlit("2");
            assert(old(s)@ + "2"@ =~= old(s)@ + seq![digit_char(d as nat)]);
        }
    } else if d == 3 {
        s.append("3");
        proof {
            reveal_strlit("3");
            assert(old(s)@ + "3"@ =~= old(s)@ + seq![digit_char(d as nat)]);
        }
    } else if d == 4 {
        s.append("4");
        proof {
            reveal_strlit("4");
            assert(old(s)@ + "4"@ =~= old(s)@ + seq![digit_char(d as nat)]);
        }
    } else if d == 5 {
        s.append("5");
        proof {
            reveal_strlit("5");
            assert(old(s)@ + "5"@ =~= old(s)@ + seq![digit_char(d as nat)]);
        }
    } else if d == 6 {
        s.append("6");
        proof {
            reveal_strlit("6");
            assert(old(s)@ + "6"@ =~= old(s)@ + seq![digit_char(d as nat)]);
        }
    } else if d == 7 {
        s.append("7");
        proof {
            reveal_strlit("7");
            assert(old(s)@ + "7"@ =~= old(s)@ + seq![digit_char(d as nat)]);
        }
    } else if d == 8 {
        s.append("8");
        proof {
            reveal_strlit("8");
            assert(old(s)@ + "8"@ =~= old(s)@ + seq![digit_char(d as nat)]);
        }
    } else {
        s.append("9");
        proof {
            reveal_strlit("9");
            assert(old(s)@ + "9"@ =~= old(s)@ + seq![digit_char(d as nat)]);
        }
    }
}

/// Append the decimal digits of `n`, most significant first.
fn push_decimal(s: &mut String, n: u64)
    ensures
        final(s)@ == old(s)@ + spec_decimal(n as nat),
    decreases n,
{
    if n < 10 {
        push_digit(s, n);
    } else {
        push_decimal(s, n / 10);
        push_digit(s, n % 10);
        proof {
            assert((old(s)@ + spec_decimal((n / 10) as nat)) + seq![digit_char((n % 10) as nat)]
                =~= old(s)@ + spec_decimal(n as nat));
        }
    }
}

/// The file name of segment `index`, as the log lays its directory out.
pub fn segment_file_name(index: usize) -> (name: String)
    ensures
        name@ == spec_segment_file_name(index as nat),
{
    let n: u64 = index as u64;
    let mut name = String::from_str("segment-");
    if n < 10 {
        name.append("000");
        proof {
            reveal_strlit("000");
            assert("000"@ =~= spec_zero_pad(n as nat));
        }
    } else if n < 100 {
        name.append("00");
        proof {
            reveal_strlit("00");
            assert("00"@ =~= spec_zero_pad(n as nat));
        }
    } else if n < 1000 {
        name.append("0");
        proof {
            reveal_strlit("0");
            assert("0"@ =~= spec_zero_pad(n as nat));
        }
    } else {
        proof {
            assert("segment-"@ + Seq::<char>::empty() =~= "segment-"@);
        }
    }
    push_decimal(&mut name, n);
    name.append(".log");
    proof {
        assert((("segment-"@ + spec_zero_pad(index as nat)) + spec_decimal(index as nat))
            + ".log"@ =~= spec_segment_file_name(index as nat));
    }
    name
}

} // verus!
