//! The offset index: one end offset per message, kept current with a
//! growing log and persisted as a flat file of 8-byte big-endian entries.

use vstd::prelude::*;

use crate::codec::be_val;
use crate::codec::read_u64_be;
use crate::codec::u64_be_at;
use crate::codec::u64_be_bytes;
use crate::types::ByteOffset;
use crate::types::SeqNum;

verus! {

/// The scan cannot take another step at position `p` of the log: fewer than
/// 8 bytes remain for a length field, the declared length is smaller than the
/// length field itself, or the declared length runs past the end of the data.
pub open spec fn scan_blocked(log: Seq<u8>, p: int) -> bool {
    ||| p + 8 > log.len()
    ||| u64_be_at(log, p) < 8
    ||| p + u64_be_at(log, p) > log.len()
}

/// The end offsets of the complete frames found by scanning the log from
/// position `c`: read the 8-byte big-endian frame length at the cursor, step
/// the cursor over the whole frame, record the new cursor, repeat. The scan
/// stops where a frame's length field or body is not fully present; such a
/// trailing frame is left for a later scan.
pub open spec fn scan_offsets(log: Seq<u8>, c: int) -> Seq<int>
    decreases log.len() - c,
{
    if 0 <= c && !scan_blocked(log, c) {
        seq![c + u64_be_at(log, c)] + scan_offsets(log, c + u64_be_at(log, c))
    } else {
        Seq::empty()
    }
}

/// The entries held in an index file's bytes: one 8-byte big-endian integer
/// after another, any trailing partial group ignored.
pub open spec fn parse_entries(b: Seq<u8>) -> Seq<int>
    decreases b.len(),
{
    if b.len() >= 8 {
        seq![be_val(b.subrange(0, 8))] + parse_entries(b.skip(8))
    } else {
        Seq::empty()
    }
}

/// Where an index file says to resume scanning the log: its last entry, or
/// the start of the log if it has none.
pub open spec fn resume_cursor(b: Seq<u8>) -> int {
    if b.len() >= 8 {
        be_val(b.subrange(b.len() - 8, b.len() as int))
    } else {
        0
    }
}

/// The entries an index holds after a load: those already in the index file,
/// followed by one entry per complete frame the log has gained since.
pub open spec fn loaded_entries(log: Seq<u8>, idx: Seq<u8>) -> Seq<int> {
    parse_entries(idx) + scan_offsets(log, resume_cursor(idx))
}

/// The log holds, laid out from position `c`, one complete well-formed frame
/// per length in `lens`: each length counts at least the 8 bytes of the
/// length field itself, stands big-endian at its frame's start, and the
/// whole frame fits in the log.
pub open spec fn frames_at(log: Seq<u8>, c: int, lens: Seq<int>) -> bool
    decreases lens.len(),
{
    lens.len() == 0 || {
        &&& 8 <= lens[0]
        &&& c + lens[0] <= log.len()
        &&& u64_be_at(log, c) == lens[0]
        &&& frames_at(log, c + lens[0], lens.drop_first())
    }
}

/// The cumulative end offsets of frames of the given lengths laid out from
/// `c`: one per frame, each the byte position just after its frame.
pub open spec fn end_offsets(c: int, lens: Seq<int>) -> Seq<int>
    decreases lens.len(),
{
    if lens.len() == 0 {
        Seq::empty()
    } else {
        seq![c + lens[0]] + end_offsets(c + lens[0], lens.drop_first())
    }
}

/// The byte position just after the last of the frames laid out from `c`.
pub open spec fn frames_end(c: int, lens: Seq<int>) -> int
    decreases lens.len(),
{
    if lens.len() == 0 {
        c
    } else {
        frames_end(c + lens[0], lens.drop_first())
    }
}

proof fn lemma_frames_end_ge(log: Seq<u8>, c: int, lens: Seq<int>)
    requires
        frames_at(log, c, lens),
    ensures
        frames_end(c, lens) >= c,
    decreases lens.len(),
{
    if lens.len() > 0 {
        lemma_frames_end_ge(log, c + lens[0], lens.drop_first());
    }
}

/// A mapping from a message's sequence number to its byte offset in the log
/// file. The index is backed by a file whose bytes the caller supplies; the
/// file is a cache, and may be empty or contain only a prefix of the
/// messages.
#[derive(Debug)]
pub struct MsgOffsets(Vec<u64>);

impl View for MsgOffsets {
    type V = Seq<int>;

    closed spec fn view(&self) -> Seq<int> {
        self.0@.map_values(|x: u64| x as int)
    }
}

proof fn lemma_scan_step(log: Seq<u8>, c: int)
    requires
        0 <= c,
        !scan_blocked(log, c),
    ensures
        scan_offsets(log, c) == seq![c + u64_be_at(log, c)] + scan_offsets(
            log,
            c + u64_be_at(log, c),
        ),
{
}

proof fn lemma_scan_stopped(log: Seq<u8>, c: int)
    requires
        scan_blocked(log, c),
    ensures
        scan_offsets(log, c) == Seq::<int>::empty(),
{
}

/// A scan picks up exactly where it left off: after the offsets it returned,
/// nothing more can be scanned from the last of them.
proof fn lemma_scan_exhausts(log: Seq<u8>, c: int)
    requires
        0 <= c,
        scan_offsets(log, c).len() > 0,
    ensures
        scan_blocked(log, scan_offsets(log, c).last()),
    decreases log.len() - c,
{
    let l = u64_be_at(log, c);
    if !scan_blocked(log, c) {
        if scan_offsets(log, c + l).len() > 0 {
            lemma_scan_exhausts(log, c + l);
            assert(scan_offsets(log, c).last() == scan_offsets(log, c + l).last());
        } else {
            assert(scan_offsets(log, c).last() == c + l);
        }
    }
}

proof fn lemma_parse_step(b: Seq<u8>, i: int)
    requires
        0 <= i,
        i + 8 <= b.len(),
    ensures
        parse_entries(b.skip(i)) == seq![be_val(b.subrange(i, i + 8))] + parse_entries(
            b.skip(i + 8),
        ),
{
    assert(b.skip(i).subrange(0, 8) =~= b.subrange(i, i + 8));
    assert(b.skip(i).skip(8) =~= b.skip(i + 8));
}

/// An index file of whole entries parses to one entry per 8 bytes, the last
/// of which is the resume cursor.
proof fn lemma_parse_last(b: Seq<u8>)
    requires
        b.len() % 8 == 0,
        b.len() >= 8,
    ensures
        parse_entries(b).len() > 0,
        parse_entries(b).last() == resume_cursor(b),
    decreases b.len(),
{
    if b.len() == 8 {
        assert(b.subrange(0, 8) =~= b.subrange(b.len() - 8, b.len() as int));
    } else {
        lemma_parse_last(b.skip(8));
        assert(b.skip(8).subrange(b.skip(8).len() - 8, b.skip(8).len() as int) =~= b.subrange(
            b.len() - 8,
            b.len() as int,
        ));
        assert(parse_entries(b) == seq![be_val(b.subrange(0, 8))] + parse_entries(b.skip(8)));
        assert(parse_entries(b).last() == parse_entries(b.skip(8)).last());
    }
}

proof fn lemma_end_offsets_last(c: int, lens: Seq<int>)
    requires
        lens.len() > 0,
    ensures
        end_offsets(c, lens).len() == lens.len(),
        end_offsets(c, lens).last() == frames_end(c, lens),
    decreases lens.len(),
{
    if lens.len() == 1 {
        assert(end_offsets(c + lens[0], lens.drop_first()) =~= Seq::<int>::empty());
        assert(frames_end(c + lens[0], lens.drop_first()) == c + lens[0]);
    } else {
        lemma_end_offsets_last(c + lens[0], lens.drop_first());
        assert(end_offsets(c, lens).last() == end_offsets(c + lens[0], lens.drop_first()).last());
    }
}

proof fn lemma_scan_of_frames(log: Seq<u8>, c: int, lens: Seq<int>)
    requires
        0 <= c,
        frames_at(log, c, lens),
        scan_blocked(log, frames_end(c, lens)),
    ensures
        scan_offsets(log, c) == end_offsets(c, lens),
        end_offsets(c, lens).len() == lens.len(),
    decreases lens.len(),
{
    if lens.len() == 0 {
        lemma_scan_stopped(log, c);
    } else {
        lemma_scan_of_frames(log, c + lens[0], lens.drop_first());
        lemma_scan_step(log, c);
    }
}

/// Build correctness: scanning a log laid out as well-formed frames of the
/// given lengths, from its start, yields exactly one entry per frame, entry
/// `i` being the cumulative end offset of frame `i` — equally the start
/// offset of frame `i + 1`, or the end of the log for the last frame.
/// Loading such a log over an empty index file records exactly these
/// offsets.
pub proof fn lemma_build_correctness(log: Seq<u8>, lens: Seq<int>)
    requires
        frames_at(log, 0, lens),
        frames_end(0, lens) == log.len(),
    ensures
        scan_offsets(log, 0) == end_offsets(0, lens),
        scan_offsets(log, 0).len() == lens.len(),
        lens.len() > 0 ==> end_offsets(0, lens).last() == log.len(),
        loaded_entries(log, Seq::<u8>::empty()) == end_offsets(0, lens),
{
    lemma_scan_of_frames(log, 0, lens);
    if lens.len() > 0 {
        lemma_end_offsets_last(0, lens);
    }
    assert(parse_entries(Seq::<u8>::empty()) =~= Seq::<int>::empty());
    assert(loaded_entries(log, Seq::<u8>::empty()) =~= end_offsets(0, lens));
}

/// Incremental extension: an index file whose resume cursor sits where the
/// log has gained further well-formed frames loads to its old entries,
/// unchanged and in place, followed by exactly those frames' end offsets.
pub proof fn lemma_incremental_extension(log: Seq<u8>, idx: Seq<u8>, lens: Seq<int>)
    requires
        frames_at(log, resume_cursor(idx), lens),
        scan_blocked(log, frames_end(resume_cursor(idx), lens)),
    ensures
        loaded_entries(log, idx) == parse_entries(idx) + end_offsets(resume_cursor(idx), lens),
        loaded_entries(log, idx).len() == parse_entries(idx).len() + lens.len(),
{
    if idx.len() >= 8 {
        crate::codec::lemma_be_val_nonneg(idx.subrange(idx.len() - 8, idx.len() as int));
    }
    lemma_scan_of_frames(log, resume_cursor(idx), lens);
}

/// Truncated-tail tolerance: when the bytes after the last complete frame
/// form only part of a further frame — too few for a length field, or fewer
/// than the length it declares — a scan indexes the complete frames and
/// leaves the tail unindexed; and once a longer log completes the tail into
/// well-formed frames, a scan resumed at the old end indexes exactly those,
/// leaving the earlier entries untouched.
pub proof fn lemma_truncated_tail(log: Seq<u8>, lens: Seq<int>, log2: Seq<u8>, lens2: Seq<int>)
    requires
        frames_at(log, 0, lens),
        frames_end(0, lens) < log.len(),
        scan_blocked(log, frames_end(0, lens)),
        frames_at(log2, frames_end(0, lens), lens2),
        scan_blocked(log2, frames_end(frames_end(0, lens), lens2)),
    ensures
        scan_offsets(log, 0) == end_offsets(0, lens),
        scan_offsets(log2, frames_end(0, lens)) == end_offsets(frames_end(0, lens), lens2),
{
    lemma_frames_end_ge(log, 0, lens);
    lemma_scan_of_frames(log, 0, lens);
    lemma_scan_of_frames(log2, frames_end(0, lens), lens2);
}

/// Scan the log from `cursor`, returning the end offset of each complete
/// frame found, in order. This is the update step of a load: the caller
/// appends the result to the index.
fn update_index(log: &[u8], cursor: u64) -> (r: Vec<u64>)
    requires
        cursor as int <= log@.len(),
    ensures
        r@.map_values(|x: u64| x as int) == scan_offsets(log@, cursor as int),
        r@.len() > 0 ==> r@.last() as int == scan_offsets(log@, cursor as int).last(),
{
    let n: usize = log.len();
    let mut cur: usize = cursor as usize;
    let mut out: Vec<u64> = Vec::new();
    loop
        invariant
            cur <= n,
            n == log@.len(),
            scan_offsets(log@, cursor as int) == out@.map_values(|x: u64| x as int)
                + scan_offsets(log@, cur as int),
            out@.len() > 0 ==> out@.last() as int == cur as int,
        ensures
            scan_blocked(log@, cur as int),
            cur <= n,
            n == log@.len(),
            scan_offsets(log@, cursor as int) == out@.map_values(|x: u64| x as int)
                + scan_offsets(log@, cur as int),
            out@.len() > 0 ==> out@.last() as int == cur as int,
        decreases n - cur,
    {
        if n - cur < 8 {
            break ;
        }
        let len = read_u64_be(log, cur);
        if len < 8 || len > (n - cur) as u64 {
            break ;
        }
        proof {
            lemma_scan_step(log@, cur as int);
        }
        let ghost prev = out@;
        cur = cur + len as usize;
        out.push(cur as u64);
        proof {
            assert(out@.map_values(|x: u64| x as int) =~= prev.map_values(|x: u64| x as int)
                + seq![cur as int]);
        }
    }
    proof {
        lemma_scan_stopped(log@, cur as int);
        assert(out@.map_values(|x: u64| x as int) =~= out@.map_values(|x: u64| x as int)
            + Seq::<int>::empty());
    }
    out
}

impl MsgOffsets {
    /// Load an index from the bytes of its file, bringing it up to date with
    /// the bytes of the log. Returns the index and the full contents the
    /// index file must now hold: the old bytes unchanged, then one 8-byte
    /// big-endian entry per newly completed frame. Loading the returned
    /// bytes again appends nothing, so repeated loads of an unchanged log
    /// leave the index file byte-identical.
    pub fn load(log: &[u8], idx: &[u8]) -> (r: (MsgOffsets, Vec<u8>))
        requires
            idx@.len() % 8 == 0,
            resume_cursor(idx@) <= log@.len(),
        ensures
            r.0@ == loaded_entries(log@, idx@),
            r.1@.len() == idx@.len() + 8 * scan_offsets(log@, resume_cursor(idx@)).len(),
            r.1@.subrange(0, idx@.len() as int) == idx@,
            forall|j: int|
                0 <= j < scan_offsets(log@, resume_cursor(idx@)).len() ==> be_val(
                    #[trigger] r.1@.subrange(idx@.len() + 8 * j, idx@.len() + 8 * j + 8),
                ) == scan_offsets(log@, resume_cursor(idx@))[j],
            scan_offsets(log@, resume_cursor(idx@)).len() == 0 ==> r.1@ == idx@,
            scan_offsets(log@, resume_cursor(r.1@)).len() == 0,
    {
        let m: usize = idx.len();
        let mut entries: Vec<u64> = Vec::new();
        let mut i: usize = 0;
        proof {
            assert(idx@.skip(0) =~= idx@);
        }
        while i < m
            invariant
                m == idx@.len(),
                m % 8 == 0,
                i % 8 == 0,
                i <= m,
                parse_entries(idx@) == entries@.map_values(|x: u64| x as int) + parse_entries(
                    idx@.skip(i as int),
                ),
            decreases m - i,
        {
            assert(i + 8 <= m);
            let e = read_u64_be(idx, i);
            proof {
                lemma_parse_step(idx@, i as int);
            }
            let ghost prev = entries@;
            entries.push(e);
            i = i + 8;
            proof {
                assert(entries@.map_values(|x: u64| x as int) =~= prev.map_values(
                    |x: u64| x as int,
                ) + seq![e as int]);
            }
        }
        proof {
            assert(parse_entries(idx@.skip(m as int)) =~= Seq::<int>::empty());
            assert(parse_entries(idx@) =~= entries@.map_values(|x: u64| x as int));
        }
        let cursor: u64 = if entries.len() == 0 {
            0
        } else {
            entries[entries.len() - 1]
        };
        proof {
            if idx@.len() >= 8 {
                lemma_parse_last(idx@);
                assert(entries@.map_values(|x: u64| x as int).last() == entries@.last() as int);
            }
            assert(cursor as int == resume_cursor(idx@));
        }
        let new_entries = update_index(log, cursor);
        let ghost scanned = scan_offsets(log@, resume_cursor(idx@));
        let mut file_bytes: Vec<u8> = Vec::new();
        file_bytes.extend_from_slice(idx);
        proof {
            assert(file_bytes@.subrange(0, idx@.len() as int) =~= idx@);
        }
        let mut j: usize = 0;
        while j < new_entries.len()
            invariant
                j <= new_entries@.len(),
                new_entries@.map_values(|x: u64| x as int) == scanned,
                scanned == scan_offsets(log@, resume_cursor(idx@)),
                file_bytes@.len() == idx@.len() + 8 * j,
                file_bytes@.subrange(0, idx@.len() as int) == idx@,
                forall|k: int|
                    0 <= k < j ==> be_val(
                        #[trigger] file_bytes@.subrange(
                            idx@.len() + 8 * k,
                            idx@.len() + 8 * k + 8,
                        ),
                    ) == scanned[k],
            decreases new_entries@.len() - j,
        {
            let eb = u64_be_bytes(new_entries[j]);
            let ghost prevb = file_bytes@;
            file_bytes.extend_from_slice(eb.as_slice());
            j = j + 1;
            proof {
                assert(file_bytes@.subrange(0, idx@.len() as int) =~= prevb.subrange(
                    0,
                    idx@.len() as int,
                ));
                assert forall|k: int| 0 <= k < j implies be_val(
                    #[trigger] file_bytes@.subrange(idx@.len() + 8 * k, idx@.len() + 8 * k + 8),
                ) == scanned[k] by {
                    if k < j - 1 {
                        assert(file_bytes@.subrange(idx@.len() + 8 * k, idx@.len() + 8 * k + 8)
                            =~= prevb.subrange(idx@.len() + 8 * k, idx@.len() + 8 * k + 8));
                    } else {
                        assert(file_bytes@.subrange(idx@.len() + 8 * k, idx@.len() + 8 * k + 8)
                            =~= eb@);
                        assert(scanned[k] == new_entries@[k] as int);
                    }
                }
            }
        }
        let ghost parsed = entries@;
        let mut tail = new_entries;
        let ghost newv = tail@;
        entries.append(&mut tail);
        proof {
            assert(entries@.map_values(|x: u64| x as int) =~= parsed.map_values(|x: u64| x as int)
                + newv.map_values(|x: u64| x as int));
            if newv.len() == 0 {
                assert(file_bytes@ =~= idx@);
            } else {
                assert(file_bytes@.subrange(
                    file_bytes@.len() - 8,
                    file_bytes@.len() as int,
                ) =~= file_bytes@.subrange(
                    idx@.len() + 8 * (scanned.len() - 1),
                    idx@.len() + 8 * (scanned.len() - 1) + 8,
                ));
                assert(resume_cursor(file_bytes@) == scanned.last());
                lemma_scan_exhausts(log@, resume_cursor(idx@));
                lemma_scan_stopped(log@, scanned.last());
            }
        }
        (MsgOffsets(entries), file_bytes)
    }

    /// The end offset recorded for message `msg`: the byte offset in the log
    /// file immediately after that message, which is where the next message
    /// starts. Absent when `msg` is beyond the last indexed message.
    pub fn lookup(&self, msg: SeqNum) -> (r: Option<ByteOffset>)
        ensures
            match r {
                Some(off) => msg.0 < self@.len() && off.0 as int == self@[msg.0 as int],
                None => msg.0 >= self@.len(),
            },
    {
        if msg.0 >= self.0.len() as u64 {
            None
        } else {
            let off = self.0[msg.0 as usize];
            Some(ByteOffset(off))
        }
    }

    /// The greatest valid sequence number, or `None` when the index holds no
    /// entries at all.
    pub fn last(&self) -> (r: Option<SeqNum>)
        ensures
            self@.len() == 0 ==> r is None,
            self@.len() > 0 ==> {
                &&& self@.len() - 1 <= u64::MAX
                &&& r == Some(SeqNum((self@.len() - 1) as u64))
            },
    {
        let n = self.0.len();
        if n == 0 {
            None
        } else {
            Some(SeqNum((n - 1) as u64))
        }
    }
}

} // verus!
